//! The ledger: accounts, and what a transaction does to them.
use crate::account::{wallet, Account, AccountData};
use crate::block::Block;
use crate::keymap::KeyMap;
use crate::pubkey::{base58, system_program, Pubkey};
use crate::text::joined;
use crate::transaction::{
    instructions_data, transaction_good, Instruction, InstructionData, Transaction,
};
use vstd::prelude::*;

verus! {

/// Why a transaction was not carried out.
#[derive(Debug)]
pub enum TxError {
    InvalidSignature,
    AccountNotFound(Pubkey),
    InsufficientFunds,
    UnknownProgram(Pubkey),
    ProgramError(String),
}

/// What an error says.
pub ghost enum TxFailure {
    InvalidSignature,
    AccountNotFound(Pubkey),
    InsufficientFunds,
    UnknownProgram(Pubkey),
    ProgramError(Seq<char>),
}

impl View for TxError {
    type V = TxFailure;

    open spec fn view(&self) -> TxFailure {
        match self {
            TxError::InvalidSignature => TxFailure::InvalidSignature,
            TxError::AccountNotFound(k) => TxFailure::AccountNotFound(*k),
            TxError::InsufficientFunds => TxFailure::InsufficientFunds,
            TxError::UnknownProgram(k) => TxFailure::UnknownProgram(*k),
            TxError::ProgramError(text) => TxFailure::ProgramError(text@),
        }
    }
}

/// The words for a failure.
pub open spec fn failure_words(f: TxFailure) -> Seq<char> {
    match f {
        TxFailure::InvalidSignature => "invalid signature"@,
        TxFailure::AccountNotFound(k) => "account not found: "@ + base58(k.0@),
        TxFailure::InsufficientFunds => "insufficient funds"@,
        TxFailure::UnknownProgram(k) => "unknown program: "@ + base58(k.0@),
        TxFailure::ProgramError(text) => "program error: "@ + text,
    }
}

impl TxError {
    /// The error in words.
    pub fn message(&self) -> (text: String)
        ensures
            text@ == failure_words(self@),
    {
        match self {
            TxError::InvalidSignature => "invalid signature".to_owned(),
            TxError::AccountNotFound(k) => joined("account not found: ", k.to_string().as_str()),
            TxError::InsufficientFunds => "insufficient funds".to_owned(),
            TxError::UnknownProgram(k) => joined("unknown program: ", k.to_string().as_str()),
            TxError::ProgramError(text) => joined("program error: ", text.as_str()),
        }
    }
}

/// A program error with these words.
pub(crate) fn program_error(words: &str) -> (error: TxError)
    ensures
        error@ == TxFailure::ProgramError(words@),
{
    TxError::ProgramError(words.to_owned())
}

/// What the accounts of a map hold.
pub open spec fn accounts_data(m: Map<[u8; 32], Account>) -> Map<[u8; 32], AccountData> {
    m.map_values(|a: Account| a@)
}

/// What was reached, and the failure where there was one.
pub open spec fn failure_of(r: Result<(), TxError>) -> Option<TxFailure> {
    match r {
        Ok(_) => None,
        Err(e) => Some(e@),
    }
}

/// What all accounts hold, by their addresses.
pub type Holdings = Map<[u8; 32], AccountData>;

/// A native program.
pub trait ProgramProcessor: Send + Sync {
    /// The accounts after a call, and the failure where there is one.
    spec fn outcome(
        &self,
        accounts: Holdings,
        instruction: InstructionData,
        payer: Pubkey,
    ) -> (Holdings, Option<TxFailure>);

    /// The call does not leave the range of balances.
    spec fn in_range(
        &self,
        accounts: Holdings,
        instruction: InstructionData,
        payer: Pubkey,
    ) -> bool;

    /// Carries an instruction out.
    fn process(
        &self,
        accounts: &mut KeyMap<Account>,
        instruction: &Instruction,
        payer: &Pubkey,
    ) -> (done: Result<(), TxError>)
        requires
            old(accounts).wf(),
            self.in_range(accounts_data(old(accounts)@), instruction@, *payer),
        ensures
            final(accounts).wf(),
            accounts_data(final(accounts)@) == self.outcome(
                accounts_data(old(accounts)@),
                instruction@,
                *payer,
            ).0,
            failure_of(done) == self.outcome(
                accounts_data(old(accounts)@),
                instruction@,
                *payer,
            ).1,
    ;
}

/// A program that can be called.
pub struct Program {
    pub code: Box<dyn ProgramProcessor>,
}

/// Programs by their addresses.
pub struct ProgramRegistry {
    programs: KeyMap<Program>,
}

impl ProgramRegistry {
    /// The programs are in order.
    pub closed spec fn wf(&self) -> bool {
        self.programs.wf()
    }

    /// The programs.
    pub closed spec fn view(&self) -> Map<[u8; 32], Program> {
        self.programs@
    }

    /// No programs.
    pub fn new() -> (registry: Self)
        ensures
            registry.wf(),
            registry@ == Map::<[u8; 32], Program>::empty(),
    {
        ProgramRegistry { programs: KeyMap::new() }
    }

    /// Puts a program under `id`.
    pub fn insert(&mut self, id: Pubkey, program: Program)
        requires
            old(self).wf(),
        ensures
            final(self).wf(),
            final(self)@ == old(self)@.insert(id.0, program),
    {
        self.programs.insert(id.0, program);
    }

    /// The program under `id`.
    pub fn get(&self, id: &Pubkey) -> (program: Option<&Program>)
        requires
            self.wf(),
        ensures
            match program {
                Some(p) => self@.contains_key(id.0) && *p == self@[id.0],
                None => !self@.contains_key(id.0),
            },
    {
        self.programs.get(&id.0)
    }
}

/// What a list of instructions does, one after the other, until one fails.
pub open spec fn run_all(
    programs: Map<[u8; 32], Program>,
    accounts: Map<[u8; 32], AccountData>,
    instructions: Seq<InstructionData>,
    payer: Pubkey,
) -> (Map<[u8; 32], AccountData>, Option<TxFailure>)
    decreases instructions.len(),
{
    if instructions.len() == 0 {
        (accounts, None)
    } else {
        let i = instructions[0];
        if !programs.contains_key(i.program_id.0) {
            (accounts, Some(TxFailure::UnknownProgram(i.program_id)))
        } else {
            let (after, failure) = programs[i.program_id.0].code.outcome(accounts, i, payer);
            if failure is Some {
                (after, failure)
            } else {
                run_all(programs, after, instructions.skip(1), payer)
            }
        }
    }
}

/// None of the calls that are made leaves the range of balances.
pub open spec fn all_in_range(
    programs: Map<[u8; 32], Program>,
    accounts: Map<[u8; 32], AccountData>,
    instructions: Seq<InstructionData>,
    payer: Pubkey,
) -> bool
    decreases instructions.len(),
{
    if instructions.len() == 0 {
        true
    } else {
        let i = instructions[0];
        programs.contains_key(i.program_id.0) ==> {
            let (after, failure) = programs[i.program_id.0].code.outcome(accounts, i, payer);
            &&& programs[i.program_id.0].code.in_range(accounts, i, payer)
            &&& failure is None ==> all_in_range(programs, after, instructions.skip(1), payer)
        }
    }
}

/// `m` with an empty account of `owner` under `key`, where there was no account.
pub open spec fn with_account(
    m: Map<[u8; 32], AccountData>,
    key: Pubkey,
    owner: Pubkey,
) -> Map<[u8; 32], AccountData> {
    if m.contains_key(key.0) {
        m
    } else {
        m.insert(key.0, wallet(owner))
    }
}

/// `m` with an empty wallet under `key`, where there was no account.
pub open spec fn with_wallet(
    m: Map<[u8; 32], AccountData>,
    key: Pubkey,
) -> Map<[u8; 32], AccountData> {
    with_account(m, key, system_program())
}

/// `m` with another balance under `key`.
pub open spec fn with_balance(
    m: Map<[u8; 32], AccountData>,
    key: Pubkey,
    balance: u64,
) -> Map<[u8; 32], AccountData> {
    m.insert(key.0, (AccountData { balance, ..m[key.0] }))
}

/// The accounts once `fee` went from `payer` to `collector`; both have an account then.
pub open spec fn charged(
    m: Map<[u8; 32], AccountData>,
    payer: Pubkey,
    collector: Pubkey,
    fee: u64,
) -> Map<[u8; 32], AccountData> {
    let paid = with_balance(m, payer, (m[payer.0].balance - fee) as u64);
    let both = with_wallet(paid, collector);
    with_balance(both, collector, (both[collector.0].balance + fee) as u64)
}

/// The fee fits the collector's balance.
pub open spec fn fee_fits(
    m: Map<[u8; 32], AccountData>,
    payer: Pubkey,
    collector: Pubkey,
    fee: u64,
) -> bool {
    let paid = with_balance(m, payer, (m[payer.0].balance - fee) as u64);
    with_wallet(paid, collector)[collector.0].balance + fee <= u64::MAX
}

/// What applying a transaction leaves behind, and the failure where there is one.
pub open spec fn applied(
    m: Map<[u8; 32], AccountData>,
    tx: Transaction,
    programs: Map<[u8; 32], Program>,
    collector: Pubkey,
    fee: u64,
) -> (Map<[u8; 32], AccountData>, Option<TxFailure>) {
    let payer = tx.message.payer;
    if !transaction_good(tx) {
        (m, Some(TxFailure::InvalidSignature))
    } else {
        let known = with_wallet(m, payer);
        if known[payer.0].balance < fee {
            (known, Some(TxFailure::InsufficientFunds))
        } else {
            let after_fee = charged(known, payer, collector, fee);
            let (after, failure) = run_all(
                programs,
                after_fee,
                tx.message@.instructions,
                payer,
            );
            if failure is Some {
                (after_fee, failure)
            } else {
                (after, None)
            }
        }
    }
}

/// Applying the transaction does not leave the range of balances.
pub open spec fn applies_in_range(
    m: Map<[u8; 32], AccountData>,
    tx: Transaction,
    programs: Map<[u8; 32], Program>,
    collector: Pubkey,
    fee: u64,
) -> bool {
    let payer = tx.message.payer;
    let known = with_wallet(m, payer);
    transaction_good(tx) && known[payer.0].balance >= fee ==> {
        &&& fee_fits(known, payer, collector, fee)
        &&& all_in_range(
            programs,
            charged(known, payer, collector, fee),
            tx.message@.instructions,
            payer,
        )
    }
}

/// Puts an empty account of `owner` under `key`, where there is none.
pub(crate) fn ensure_account(accounts: &mut KeyMap<Account>, key: &Pubkey, owner: Pubkey)
    requires
        old(accounts).wf(),
    ensures
        final(accounts).wf(),
        accounts_data(final(accounts)@) == with_account(accounts_data(old(accounts)@), *key, owner),
{
    if !accounts.contains_key(&key.0) {
        let ghost before = accounts_data(accounts@);
        accounts.insert(key.0, Account::new_wallet(owner));
        proof {
            assert(accounts_data(accounts@) =~= before.insert(key.0, wallet(owner)));
        }
    }
}

/// The balance under `key`.
pub(crate) fn balance_of(accounts: &KeyMap<Account>, key: &Pubkey) -> (balance: Option<u64>)
    requires
        accounts.wf(),
    ensures
        match balance {
            Some(b) => accounts_data(accounts@).contains_key(key.0) && b == accounts_data(
                accounts@,
            )[key.0].balance,
            None => !accounts_data(accounts@).contains_key(key.0),
        },
{
    match accounts.get(&key.0) {
        Some(a) => Some(a.balance),
        None => None,
    }
}

/// Sets the balance under `key`.
pub(crate) fn set_balance(accounts: &mut KeyMap<Account>, key: &Pubkey, balance: u64)
    requires
        old(accounts).wf(),
        accounts_data(old(accounts)@).contains_key(key.0),
    ensures
        final(accounts).wf(),
        accounts_data(final(accounts)@) == with_balance(
            accounts_data(old(accounts)@),
            *key,
            balance,
        ),
{
    let ghost before = accounts_data(accounts@);
    if let Some(a) = accounts.get(&key.0) {
        let mut changed: Account = a.clone();
        changed.balance = balance;
        let ghost data = changed@;
        accounts.insert(key.0, changed);
        proof {
            assert(data =~= (AccountData { balance, ..before[key.0] }));
            assert(accounts_data(accounts@) =~= before.insert(key.0, data));
        }
    }
}

/// A second map with the same accounts.
pub(crate) fn copy_accounts(accounts: &KeyMap<Account>) -> (copy: KeyMap<Account>)
    requires
        accounts.wf(),
    ensures
        copy.wf(),
        accounts_data(copy@) == accounts_data(accounts@),
{
    let n: usize = accounts.len();
    let mut copy: KeyMap<Account> = KeyMap::new();
    let mut i: usize = 0;
    proof {
        accounts.lemma_listed();
    }
    while i < n
        invariant
            accounts.wf(),
            copy.wf(),
            i <= n == accounts.listed().len(),
            forall|k: [u8; 32]| #[trigger]
                copy@.contains_key(k) ==> accounts@.contains_key(k) && copy@[k]@ == accounts@[k]@,
            forall|j: int| 0 <= j < i ==> copy@.contains_key(#[trigger] accounts.listed()[j].0),
            forall|j: int| 0 <= j < n ==> accounts@.contains_key(#[trigger] accounts.listed()[j].0)
                && accounts@[accounts.listed()[j].0] == accounts.listed()[j].1,
        decreases n - i,
    {
        let entry = accounts.entry(i);
        copy.insert(entry.0, entry.1.clone());
        i += 1;
    }
    proof {
        accounts.lemma_listed();
        assert forall|k: [u8; 32]| #[trigger] accounts@.contains_key(k) implies copy@.contains_key(
            k,
        ) by {
            let x = choose|x: int|
                0 <= x < accounts.listed().len() && #[trigger] accounts.listed()[x].0 == k;
            assert(copy@.contains_key(accounts.listed()[x].0));
        }
        assert(accounts_data(copy@) =~= accounts_data(accounts@));
    }
    copy
}

/// The accounts and the blocks.
pub struct Ledger {
    pub accounts: KeyMap<Account>,
    pub blocks: Vec<Block>,
}

impl Ledger {
    /// The accounts are in order.
    pub open spec fn wf(&self) -> bool {
        self.accounts.wf()
    }

    /// What the accounts hold.
    pub open spec fn data(&self) -> Map<[u8; 32], AccountData> {
        accounts_data(self.accounts@)
    }

    /// An empty ledger.
    pub fn new() -> (ledger: Self)
        ensures
            ledger.wf(),
            ledger.data() == Map::<[u8; 32], AccountData>::empty(),
            ledger.blocks@ == Seq::<Block>::empty(),
    {
        let ledger = Ledger { accounts: KeyMap::new(), blocks: Vec::new() };
        proof {
            assert(ledger.data() =~= Map::<[u8; 32], AccountData>::empty());
        }
        ledger
    }

    /// The balance under `pubkey`; nothing where there is no account.
    pub fn get_balance(&self, pubkey: &Pubkey) -> (balance: u64)
        requires
            self.wf(),
        ensures
            balance == (if self.data().contains_key(pubkey.0) {
                self.data()[pubkey.0].balance
            } else {
                0
            }),
    {
        match balance_of(&self.accounts, pubkey) {
            Some(b) => b,
            None => 0,
        }
    }

    /// The account under `pubkey`.
    pub fn get_account(&self, pubkey: &Pubkey) -> (account: Option<&Account>)
        requires
            self.wf(),
        ensures
            match account {
                Some(a) => self.data().contains_key(pubkey.0) && a@ == self.data()[pubkey.0],
                None => !self.data().contains_key(pubkey.0),
            },
    {
        self.accounts.get(&pubkey.0)
    }

    /// Applies a transaction: its signature is verified, the fee goes to the collector,
    /// and the instructions are carried out. The fee stays paid where an instruction
    /// fails; nothing else of the instructions does.
    pub fn apply_transaction(
        &mut self,
        tx: &Transaction,
        programs: &ProgramRegistry,
        fee_collector: &Pubkey,
        fee_units: u64,
    ) -> (done: Result<(), TxError>)
        requires
            old(self).wf(),
            programs.wf(),
            applies_in_range(old(self).data(), *tx, programs@, *fee_collector, fee_units),
        ensures
            final(self).wf(),
            final(self).blocks == old(self).blocks,
            (final(self).data(), failure_of(done)) == applied(
                old(self).data(),
                *tx,
                programs@,
                *fee_collector,
                fee_units,
            ),
    {
        let system: Pubkey = Pubkey::system_program_id();
        if !tx.verify_signature() {
            return Err(TxError::InvalidSignature);
        }
        let payer: Pubkey = tx.message.payer;
        ensure_account(&mut self.accounts, &payer, system);
        let ghost known = self.data();
        let payer_balance: u64 = self.get_balance(&payer);
        if payer_balance < fee_units {
            return Err(TxError::InsufficientFunds);
        }
        set_balance(&mut self.accounts, &payer, payer_balance - fee_units);
        ensure_account(&mut self.accounts, fee_collector, system);
        let collector_balance: u64 = self.get_balance(fee_collector);
        set_balance(&mut self.accounts, fee_collector, collector_balance + fee_units);
        let ghost after_fee = self.data();
        let ghost all = tx.message@.instructions;
        let mut scratch: KeyMap<Account> = copy_accounts(&self.accounts);
        proof {
            assert(after_fee == charged(known, payer, *fee_collector, fee_units));
            assert(all.skip(0) =~= all);
        }
        let mut i: usize = 0;
        while i < tx.message.instructions.len()
            invariant
                i <= tx.message.instructions@.len(),
                all == instructions_data(tx.message.instructions@),
                all == tx.message@.instructions,
                payer == tx.message.payer,
                programs.wf(),
                scratch.wf(),
                self.wf(),
                self.data() == after_fee,
                self.blocks == old(self).blocks,
                applied(old(self).data(), *tx, programs@, *fee_collector, fee_units) == ({
                    let r = run_all(programs@, after_fee, all, payer);
                    if r.1 is Some {
                        (after_fee, r.1)
                    } else {
                        (r.0, None)
                    }
                }),
                run_all(programs@, after_fee, all, payer) == run_all(
                    programs@,
                    accounts_data(scratch@),
                    all.skip(i as int),
                    payer,
                ),
                all_in_range(programs@, accounts_data(scratch@), all.skip(i as int), payer),
            decreases tx.message.instructions@.len() - i,
        {
            let ix: &Instruction = &tx.message.instructions[i];
            proof {
                assert(all.skip(i as int)[0] == ix@);
                assert(all.skip(i as int).skip(1) =~= all.skip(i + 1));
            }
            match programs.get(&ix.program_id) {
                None => {
                    return Err(TxError::UnknownProgram(ix.program_id));
                },
                Some(program) => {
                    let done = program.code.process(&mut scratch, ix, &payer);
                    if done.is_err() {
                        return done;
                    }
                },
            }
            i += 1;
        }
        self.accounts = scratch;
        Ok(())
    }

    /// Credits an account, without a transaction. A balance goes no higher than it can.
    pub fn airdrop(&mut self, pubkey: Pubkey, amount: u64)
        requires
            old(self).wf(),
        ensures
            final(self).wf(),
            final(self).blocks == old(self).blocks,
            final(self).data() == with_balance(
                with_wallet(old(self).data(), pubkey),
                pubkey,
                saturated(with_wallet(old(self).data(), pubkey)[pubkey.0].balance + amount),
            ),
    {
        let system: Pubkey = Pubkey::system_program_id();
        ensure_account(&mut self.accounts, &pubkey, system);
        let balance: u64 = self.get_balance(&pubkey);
        set_balance(&mut self.accounts, &pubkey, balance.saturating_add(amount));
    }

    /// Appends a block.
    pub fn push_block(&mut self, block: Block)
        ensures
            final(self).accounts == old(self).accounts,
            final(self).blocks@ == old(self).blocks@.push(block),
    {
        self.blocks.push(block);
    }

    /// The block that was appended last.
    pub fn latest_block(&self) -> (block: Option<&Block>)
        ensures
            match block {
                Some(b) => self.blocks@.len() > 0 && *b == self.blocks@.last(),
                None => self.blocks@.len() == 0,
            },
    {
        if self.blocks.len() == 0 {
            None
        } else {
            Some(&self.blocks[self.blocks.len() - 1])
        }
    }
}

/// A sum, held at the highest balance.
pub open spec fn saturated(sum: int) -> u64 {
    if sum > u64::MAX {
        u64::MAX
    } else {
        sum as u64
    }
}

impl Default for Ledger {
    fn default() -> (ledger: Self)
        ensures
            ledger.wf(),
            ledger.data() == Map::<[u8; 32], AccountData>::empty(),
            ledger.blocks@ == Seq::<Block>::empty(),
    {
        Ledger::new()
    }
}

} // verus!
