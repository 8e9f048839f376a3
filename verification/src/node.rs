//! A node: its ledger and clock, what it answers to a request, and how it makes blocks.
use crate::account::{
    wallet, Account, AccountData, STAKING_RESERVE_UNITS, TOTAL_SUPPLY_UNITS, TREASURY_ALLOCATION_UNITS,
};
use crate::block::Block;
use crate::hextext::{hex_chars, hex_encode};
use crate::ledger::{
    applied, applies_in_range, ensure_account, failure_of, failure_words, saturated, set_balance, with_balance,
    with_wallet, Ledger, ProgramRegistry, TxError,
};
use crate::poh::{mixed, next_hash, Poh, PohEntry};
use crate::programs::{are_default_programs, default_program_registry};
use crate::pubkey::{
    base58, base58_decoded, reward_pool_bytes, system_program, treasury_bytes, Pubkey,
};
use crate::rewards::{rewarded, rewards};
use crate::supply::{
    disbursed, keeps_the_sum, law_airdrop_adds_its_amount, law_sound_programs_apply,
    law_treasury_keeps_the_sum, lemma_memo_is_sound, lemma_system_is_sound, programs_are_sound,
    stays_in_range, total, total_units,
};
use crate::text::{decimal, decimal_text, joined, same_text};
use crate::transaction::{transaction_id, Transaction};
use vstd::prelude::*;
use vstd::string::*;
use vstd::utf8::*;

verus! {

/// Where a chain was left off.
#[derive(Clone, Copy, Debug)]
pub struct MetaFile {
    pub slot: u64,
    pub last_blockhash: [u8; 32],
}

/// The beginning of a chain.
#[derive(Clone, Copy, Debug)]
pub struct Genesis {
    pub poh_seed: [u8; 32],
}

/// One parameter of a request.
#[derive(Debug)]
pub enum Param {
    Text(String),
    Number(u64),
    /// Anything else.
    Other,
}

/// A request.
#[derive(Debug)]
pub struct RpcRequest {
    pub method: String,
    pub params: Vec<Param>,
}

/// What a request is answered.
#[derive(Debug)]
pub enum RpcReply {
    Health,
    Slot(u64),
    Blockhash(String),
    Supply { total_units: u64, circulating_units: u64, treasury_units: u64 },
    Balance(u64),
    Account { owner: String, balance: u64, data: String, executable: bool },
    /// There is no such account.
    NoAccount,
    Airdropped { signature: String, slot: u64 },
    Sent { signature: String, slot: u64, fee: u64 },
    /// The block of this slot, which is looked up.
    BlockAt(u64),
}

/// What a reply says.
#[verifier::ext_equal]
pub ghost enum ReplyData {
    Health,
    Slot(u64),
    Blockhash(Seq<char>),
    Supply { total_units: u64, circulating_units: u64, treasury_units: u64 },
    Balance(u64),
    Account { owner: Seq<char>, balance: u64, data: Seq<char>, executable: bool },
    NoAccount,
    Airdropped { signature: Seq<char>, slot: u64 },
    Sent { signature: Seq<char>, slot: u64, fee: u64 },
    BlockAt(u64),
}

impl View for RpcReply {
    type V = ReplyData;

    open spec fn view(&self) -> ReplyData {
        match self {
            RpcReply::Health => ReplyData::Health,
            RpcReply::Slot(n) => ReplyData::Slot(*n),
            RpcReply::Blockhash(t) => ReplyData::Blockhash(t@),
            RpcReply::Supply { total_units, circulating_units, treasury_units } => ReplyData::Supply {
                total_units: *total_units,
                circulating_units: *circulating_units,
                treasury_units: *treasury_units,
            },
            RpcReply::Balance(n) => ReplyData::Balance(*n),
            RpcReply::Account { owner, balance, data, executable } => ReplyData::Account {
                owner: owner@,
                balance: *balance,
                data: data@,
                executable: *executable,
            },
            RpcReply::NoAccount => ReplyData::NoAccount,
            RpcReply::Airdropped { signature, slot } => ReplyData::Airdropped {
                signature: signature@,
                slot: *slot,
            },
            RpcReply::Sent { signature, slot, fee } => ReplyData::Sent {
                signature: signature@,
                slot: *slot,
                fee: *fee,
            },
            RpcReply::BlockAt(n) => ReplyData::BlockAt(*n),
        }
    }
}

/// The reply to a request, or the words of the error.
pub open spec fn reply_of(r: Result<RpcReply, String>) -> Result<ReplyData, Seq<char>> {
    match r {
        Ok(reply) => Ok(reply@),
        Err(words) => Err(words@),
    }
}

/// The address that a text stands for, or the words of the error.
pub open spec fn address_of_text(text: Seq<char>) -> Result<Seq<u8>, Seq<char>> {
    match base58_decoded(text) {
        Err(reason) => Err(reason),
        Ok(b) => if b.len() == 32 {
            Ok(b)
        } else {
            Err("invalid pubkey: expected 32 bytes, got "@ + decimal(b.len()))
        },
    }
}

/// The address that a parameter stands for, or the words of the error.
pub open spec fn address_param(params: Seq<Param>, index: int) -> Result<Seq<u8>, Seq<char>> {
    if 0 <= index < params.len() && params[index] is Text {
        address_of_text(params[index]->Text_0@)
    } else {
        Err("missing pubkey param"@)
    }
}

/// The number that a parameter is.
pub open spec fn number_param(params: Seq<Param>, index: int) -> Option<u64> {
    if 0 <= index < params.len() && params[index] is Number {
        Some(params[index]->Number_0)
    } else {
        None
    }
}

/// The address that a parameter stands for.
pub fn parse_pubkey_param(params: &Vec<Param>, index: usize) -> (key: Result<Pubkey, String>)
    ensures
        match key {
            Ok(k) => address_param(params@, index as int) == Ok::<Seq<u8>, Seq<char>>(k.0@),
            Err(words) => address_param(params@, index as int) == Err::<Seq<u8>, Seq<char>>(words@),
        },
{
    if index >= params.len() {
        return Err("missing pubkey param".to_owned());
    }
    match &params[index] {
        Param::Text(text) => match Pubkey::parse(text.as_str()) {
            Ok(k) => Ok(k),
            Err(e) => Err(e.message()),
        },
        _ => Err("missing pubkey param".to_owned()),
    }
}

fn parse_number_param(params: &Vec<Param>, index: usize) -> (n: Option<u64>)
    ensures
        n == number_param(params@, index as int),
{
    if index >= params.len() {
        return None;
    }
    match &params[index] {
        Param::Number(n) => Some(*n),
        _ => None,
    }
}

/// A node.
pub struct NodeState {
    pub ledger: Ledger,
    pub poh: Poh,
    pub programs: ProgramRegistry,
    pub pending_txs: Vec<Transaction>,
    pub pending_airdrops: Vec<(Pubkey, u64)>,
    pub pending_poh_entries: Vec<PohEntry>,
    pub identity: Pubkey,
    pub faucet_enabled: bool,
    pub faucet_max_units: u64,
    pub fee_units: u64,
    pub slot: u64,
    pub last_blockhash: [u8; 32],
}

/// What a node was set up with stays what it is.
pub open spec fn same_setup(a: NodeState, b: NodeState) -> bool {
    &&& a.programs == b.programs
    &&& a.identity == b.identity
    &&& a.faucet_enabled == b.faucet_enabled
    &&& a.faucet_max_units == b.faucet_max_units
    &&& a.fee_units == b.fee_units
}

/// What is pending stays what it is.
pub open spec fn same_pending(a: NodeState, b: NodeState) -> bool {
    &&& a.pending_txs == b.pending_txs
    &&& a.pending_airdrops == b.pending_airdrops
    &&& a.pending_poh_entries == b.pending_poh_entries
}

/// The chain tip stays what it is.
pub open spec fn same_tip(a: NodeState, b: NodeState) -> bool {
    &&& a.slot == b.slot
    &&& a.last_blockhash == b.last_blockhash
    &&& a.ledger.blocks == b.ledger.blocks
}

/// The clock has gone on by one entry, with `data` mixed in.
pub open spec fn clock_went_on(a: NodeState, b: NodeState, data: Seq<u8>) -> bool {
    &&& b.poh.at() == next_hash(a.poh.at(), data)
    &&& b.poh.height() == a.poh.height() + 1
}

/// The last pending entry is the new one of the clock, with `data` mixed in.
pub open spec fn entry_is_pending(a: NodeState, b: NodeState, data: Seq<u8>) -> bool {
    &&& b.pending_poh_entries@.len() == a.pending_poh_entries@.len() + 1
    &&& b.pending_poh_entries@.drop_last() == a.pending_poh_entries@
    &&& b.pending_poh_entries@.last().hash == b.poh.at()
    &&& b.pending_poh_entries@.last().tick_height == b.poh.height()
    &&& b.pending_poh_entries@.last().mixed_data is Some
    &&& mixed(b.pending_poh_entries@.last()) == data
}

/// What is mixed into the clock for an airdrop.
pub open spec fn airdrop_words(key: Seq<u8>, amount: u64) -> Seq<char> {
    "airdrop:"@ + base58(key) + ":"@ + decimal(amount as nat)
}

/// Why an airdrop is refused before anything is done.
pub open spec fn airdrop_refusal(n: NodeState, params: Seq<Param>) -> Option<Seq<char>> {
    if !n.faucet_enabled {
        Some("faucet disabled on this node (start it with --enable-faucet)"@)
    } else if address_param(params, 0) is Err {
        Some(address_param(params, 0)->Err_0)
    } else if number_param(params, 1) is None {
        Some("missing amount param (base units)"@)
    } else if number_param(params, 1)->0 > n.faucet_max_units {
        Some(
            "amount exceeds faucet max of "@ + decimal(n.faucet_max_units as nat)
                + " units per request"@,
        )
    } else {
        None
    }
}

/// What an airdrop does: the treasury pays it, and the clock takes note of it; where the
/// treasury has too little, only the clock has gone on.
pub open spec fn airdrop_done(
    a: NodeState,
    b: NodeState,
    params: Seq<Param>,
    r: Result<RpcReply, String>,
) -> bool {
    let amount = number_param(params, 1)->0;
    &&& same_setup(a, b)
    &&& same_tip(a, b)
    &&& b.pending_txs == a.pending_txs
    &&& match airdrop_refusal(a, params) {
        Some(words) => {
            &&& reply_of(r) == Err::<ReplyData, Seq<char>>(words)
            &&& a == b
        },
        None => exists|treasury: Pubkey, to: Pubkey| #[trigger]
            airdropped_from(a, b, treasury, to, amount, params, r),
    }
}

/// What an airdrop does that is not refused at once.
pub open spec fn airdropped_from(
    a: NodeState,
    b: NodeState,
    treasury: Pubkey,
    to: Pubkey,
    amount: u64,
    params: Seq<Param>,
    r: Result<RpcReply, String>,
) -> bool {
    let outcome = disbursed(a.ledger.data(), treasury, to, amount);
    let data = encode_utf8(airdrop_words(to.0@, amount));
    &&& treasury.0@ == treasury_bytes()
    &&& address_param(params, 0) == Ok::<Seq<u8>, Seq<char>>(to.0@)
    &&& b.ledger.data() == outcome.0
    &&& clock_went_on(a, b, data)
    &&& match outcome.1 {
        Some(f) => {
            &&& reply_of(r) == Err::<ReplyData, Seq<char>>(failure_words(f))
            &&& same_pending(a, b)
        },
        None => {
            &&& reply_of(r) == Ok::<ReplyData, Seq<char>>(
                ReplyData::Airdropped { signature: hex_chars(b.poh.at()@), slot: a.slot },
            )
            &&& b.pending_airdrops@ == a.pending_airdrops@.push((to, amount))
            &&& entry_is_pending(a, b, data)
        },
    }
}

/// What a transaction that was sent does: the clock takes note of it, and it is applied;
/// where it fails it is not kept for the next block.
pub open spec fn sending_done(
    a: NodeState,
    b: NodeState,
    tx: Option<Result<Transaction, String>>,
    r: Result<RpcReply, String>,
) -> bool {
    &&& same_setup(a, b)
    &&& same_tip(a, b)
    &&& b.pending_airdrops == a.pending_airdrops
    &&& match tx {
        None => {
            &&& reply_of(r) == Err::<ReplyData, Seq<char>>("missing transaction param"@)
            &&& a == b
        },
        Some(Err(e)) => {
            &&& reply_of(r) == Err::<ReplyData, Seq<char>>("invalid transaction: "@ + e@)
            &&& a == b
        },
        Some(Ok(t)) => {
            let outcome = applied(a.ledger.data(), t, a.programs@, a.identity, a.fee_units);
            let id = transaction_id(t);
            &&& b.ledger.data() == outcome.0
            &&& clock_went_on(a, b, id@)
            &&& match outcome.1 {
                Some(f) => {
                    &&& reply_of(r) == Err::<ReplyData, Seq<char>>(failure_words(f))
                    &&& same_pending(a, b)
                },
                None => {
                    &&& reply_of(r) == Ok::<ReplyData, Seq<char>>(
                        ReplyData::Sent {
                            signature: hex_chars(id@),
                            slot: a.slot,
                            fee: a.fee_units,
                        },
                    )
                    &&& b.pending_txs@ == a.pending_txs@.push(t)
                    &&& entry_is_pending(a, b, id@)
                },
            }
        },
    }
}

/// The balance under an address; nothing where there is no account.
pub open spec fn balance_at(n: NodeState, key: [u8; 32]) -> u64 {
    if n.ledger.data().contains_key(key) {
        n.ledger.data()[key].balance
    } else {
        0
    }
}

/// What is said of the supply.
pub open spec fn supply_reply(n: NodeState, treasury: Pubkey) -> ReplyData {
    let held = balance_at(n, treasury.0);
    ReplyData::Supply {
        total_units: TOTAL_SUPPLY_UNITS,
        circulating_units: (if held > TOTAL_SUPPLY_UNITS {
            0
        } else {
            TOTAL_SUPPLY_UNITS - held
        }) as u64,
        treasury_units: held,
    }
}

/// What is said of an account.
pub open spec fn account_reply(n: NodeState, key: [u8; 32]) -> ReplyData {
    if n.ledger.data().contains_key(key) {
        let a = n.ledger.data()[key];
        ReplyData::Account {
            owner: base58(a.owner.0@),
            balance: a.balance,
            data: hex_chars(a.data),
            executable: a.executable,
        }
    } else {
        ReplyData::NoAccount
    }
}

/// A request that only asks is answered from what the node has, and changes nothing.
pub open spec fn answered(
    n: NodeState,
    method: Seq<char>,
    params: Seq<Param>,
    r: Result<RpcReply, String>,
) -> bool {
    if method == "getHealth"@ {
        reply_of(r) == Ok::<ReplyData, Seq<char>>(ReplyData::Health)
    } else if method == "getSlot"@ {
        reply_of(r) == Ok::<ReplyData, Seq<char>>(ReplyData::Slot(n.slot))
    } else if method == "getLatestBlockhash"@ {
        reply_of(r) == Ok::<ReplyData, Seq<char>>(
            ReplyData::Blockhash(hex_chars(n.last_blockhash@)),
        )
    } else if method == "getSupply"@ {
        exists|treasury: Pubkey|
            treasury.0@ == treasury_bytes() && reply_of(r) == Ok::<ReplyData, Seq<char>>(
                #[trigger] supply_reply(n, treasury),
            )
    } else if method == "getBalance"@ {
        match address_param(params, 0) {
            Err(words) => reply_of(r) == Err::<ReplyData, Seq<char>>(words),
            Ok(b) => exists|key: [u8; 32]|
                key@ == b && reply_of(r) == Ok::<ReplyData, Seq<char>>(
                    ReplyData::Balance(#[trigger] balance_at(n, key)),
                ),
        }
    } else if method == "getAccountInfo"@ {
        match address_param(params, 0) {
            Err(words) => reply_of(r) == Err::<ReplyData, Seq<char>>(words),
            Ok(b) => exists|key: [u8; 32]|
                key@ == b && reply_of(r) == Ok::<ReplyData, Seq<char>>(
                    #[trigger] account_reply(n, key),
                ),
        }
    } else if method == "getBlock"@ {
        match number_param(params, 0) {
            None => reply_of(r) == Err::<ReplyData, Seq<char>>("missing slot param"@),
            Some(slot) => reply_of(r) == Ok::<ReplyData, Seq<char>>(ReplyData::BlockAt(slot)),
        }
    } else {
        reply_of(r) == Err::<ReplyData, Seq<char>>("unknown method: "@ + method)
    }
}

/// Each block follows the one before it: it names its hash, and has the next slot.
pub open spec fn blocks_are_linked(blocks: Seq<Block>) -> bool {
    forall|i: int, j: int| 0 <= i && j == i + 1 && j < blocks.len() ==> follows(blocks, i, j)
}

/// The block at `j` follows the one at `i`.
pub open spec fn follows(blocks: Seq<Block>, i: int, j: int) -> bool {
    &&& blocks[j].previous_blockhash == blocks[i].blockhash
    &&& blocks[j].slot == blocks[i].slot + 1
}

/// The chain tip is the last block, where there is one.
pub open spec fn tip_is_last_block(n: NodeState) -> bool {
    n.ledger.blocks@.len() > 0 ==> n.last_blockhash == n.ledger.blocks@.last().blockhash && n.slot
        == n.ledger.blocks@.last().slot
}

/// Moves `amount` out of the treasury.
fn disburse(ledger: &mut Ledger, treasury: &Pubkey, to: &Pubkey, amount: u64) -> (done: Result<
    (),
    TxError,
>)
    requires
        old(ledger).wf(),
        old(ledger).data().dom().finite(),
        total(old(ledger).data()) <= u64::MAX,
    ensures
        final(ledger).wf(),
        final(ledger).blocks == old(ledger).blocks,
        (final(ledger).data(), failure_of(done)) == disbursed(
            old(ledger).data(),
            *treasury,
            *to,
            amount,
        ),
{
    proof {
        law_treasury_keeps_the_sum(ledger.data(), *treasury, *to, amount);
    }
    if ledger.get_account(treasury).is_none() {
        return Err(TxError::InsufficientFunds);
    }
    let held: u64 = ledger.get_balance(treasury);
    if held < amount {
        return Err(TxError::InsufficientFunds);
    }
    set_balance(&mut ledger.accounts, treasury, held - amount);
    let system: Pubkey = Pubkey::system_program_id();
    ensure_account(&mut ledger.accounts, to, system);
    let balance: u64 = ledger.get_balance(to);
    set_balance(&mut ledger.accounts, to, balance + amount);
    Ok(())
}

impl NodeState {
    /// The ledger is in order, the programs keep the sum of all balances, and each block
    /// follows the one before it.
    pub open spec fn wf(&self) -> bool {
        &&& blocks_are_linked(self.ledger.blocks@)
        &&& tip_is_last_block(*self)
        &&& self.ledger.wf()
        &&& self.ledger.data().dom().finite()
        &&& self.programs.wf()
        &&& programs_are_sound(self.programs@)
    }

    /// The sum of all balances is in range, so that no payment can take a balance out of it.
    pub open spec fn in_range(&self) -> bool {
        total(self.ledger.data()) <= u64::MAX
    }

    /// The transaction that was sent, where it is one, takes no balance out of range.
    pub open spec fn can_apply(&self, tx: Option<Result<Transaction, String>>) -> bool {
        self.in_range() || (tx matches Some(Ok(t)) ==> applies_in_range(
            self.ledger.data(),
            t,
            self.programs@,
            self.identity,
            self.fee_units,
        ))
    }

    /// A node at the beginning of a chain: the whole supply is in the treasury and in the
    /// staking pool.
    pub fn fresh(
        genesis: Genesis,
        identity: Pubkey,
        faucet_enabled: bool,
        faucet_max_units: u64,
        fee_units: u64,
    ) -> (node: Self)
        ensures
            node.wf(),
            node.in_range(),
            are_default_programs(node.programs@),
            total(node.ledger.data()) == TOTAL_SUPPLY_UNITS,
            node.ledger.blocks@.len() == 0,
            node.poh.at() == genesis.poh_seed,
            node.poh.height() == 0,
            node.slot == 0,
            node.last_blockhash == genesis.poh_seed,
            node.identity == identity,
            node.faucet_enabled == faucet_enabled,
            node.faucet_max_units == faucet_max_units,
            node.fee_units == fee_units,
            node.pending_txs@.len() == 0,
            node.pending_airdrops@.len() == 0,
            node.pending_poh_entries@.len() == 0,
            forall|k: [u8; 32]| #[trigger]
                node.ledger.data().contains_key(k) <==> (k@ == treasury_bytes() || k@
                    == reward_pool_bytes()),
            forall|k: [u8; 32]|
                k@ == treasury_bytes() ==> #[trigger] node.ledger.data()[k] == (AccountData {
                    balance: TREASURY_ALLOCATION_UNITS,
                    ..wallet(system_program())
                }),
            forall|k: [u8; 32]|
                k@ == reward_pool_bytes() ==> #[trigger] node.ledger.data()[k] == (AccountData {
                    balance: STAKING_RESERVE_UNITS,
                    ..wallet(system_program())
                }),
    {
        let treasury: Pubkey = Pubkey::treasury();
        let pool: Pubkey = Pubkey::staking_rewards_pool();
        let mut ledger: Ledger = Ledger::new();
        let ghost m0 = ledger.data();
        proof {
            assert(treasury.0@[0] == 0x54u8);
            assert(pool.0@[0] == 0x53u8);
            assert(total(m0) == 0);
            law_airdrop_adds_its_amount(m0, treasury, TREASURY_ALLOCATION_UNITS);
            lemma_wallet_finite(m0, treasury, TREASURY_ALLOCATION_UNITS);
        }
        ledger.airdrop(treasury, TREASURY_ALLOCATION_UNITS);
        let ghost m1 = ledger.data();
        proof {
            law_airdrop_adds_its_amount(m1, pool, STAKING_RESERVE_UNITS);
            lemma_wallet_finite(m1, pool, STAKING_RESERVE_UNITS);
        }
        ledger.airdrop(pool, STAKING_RESERVE_UNITS);
        proof {
            assert forall|k: [u8; 32]| k@ == treasury_bytes() implies k == treasury.0 by {
                assert(k =~= treasury.0);
            }
            assert forall|k: [u8; 32]| k@ == reward_pool_bytes() implies k == pool.0 by {
                assert(k =~= pool.0);
            }
        }
        let programs = default_program_registry();
        proof {
            assert forall|k: [u8; 32]| #[trigger] programs@.contains_key(k) implies keeps_the_sum(
                programs@[k],
            ) && stays_in_range(programs@[k]) by {
                assert(programs@.dom().contains(k));
                if k == system_program().0 {
                    lemma_system_is_sound(programs@[k]);
                } else {
                    lemma_memo_is_sound(programs@[k]);
                }
            }
        }
        NodeState {
            ledger,
            poh: Poh::new(genesis.poh_seed),
            programs,
            pending_txs: Vec::new(),
            pending_airdrops: Vec::new(),
            pending_poh_entries: Vec::new(),
            identity,
            faucet_enabled,
            faucet_max_units,
            fee_units,
            slot: 0,
            last_blockhash: genesis.poh_seed,
        }
    }

    /// A node that takes a chain up where it was left off.
    pub fn resumed(
        ledger: Ledger,
        meta: MetaFile,
        genesis: Genesis,
        identity: Pubkey,
        faucet_enabled: bool,
        faucet_max_units: u64,
        fee_units: u64,
    ) -> (node: Self)
        requires
            ledger.wf(),
            ledger.blocks@.len() == 0,
        ensures
            node.wf(),
            are_default_programs(node.programs@),
            node.ledger == ledger,
            node.poh.at() == genesis.poh_seed,
            node.poh.height() == 0,
            node.slot == meta.slot,
            node.last_blockhash == meta.last_blockhash,
            node.identity == identity,
            node.faucet_enabled == faucet_enabled,
            node.faucet_max_units == faucet_max_units,
            node.fee_units == fee_units,
            node.pending_txs@.len() == 0,
            node.pending_airdrops@.len() == 0,
            node.pending_poh_entries@.len() == 0,
    {
        let mut node = Self::fresh(genesis, identity, faucet_enabled, faucet_max_units, fee_units);
        proof {
            ledger.accounts.lemma_listed();
            assert(ledger.data().dom() =~= ledger.accounts@.dom());
        }
        node.ledger = ledger;
        node.slot = meta.slot;
        node.last_blockhash = meta.last_blockhash;
        node
    }

    /// Whether the sum of all balances is in range.
    pub fn balances_in_range(&self) -> (yes: bool)
        requires
            self.wf(),
        ensures
            yes == self.in_range(),
    {
        total_units(&self.ledger) <= u64::MAX as u128
    }

    /// Pays the staking rewards where the slot is the last of an epoch: up to `units`, out of
    /// the reserve.
    pub fn pay_rewards(&mut self, epoch_slots: u64, units: u64) -> (paid: u64)
        requires
            old(self).wf(),
            old(self).in_range(),
        ensures
            final(self).wf(),
            final(self).in_range(),
            total(final(self).ledger.data()) == total(old(self).ledger.data()),
            same_setup(*old(self), *final(self)),
            same_tip(*old(self), *final(self)),
            same_pending(*old(self), *final(self)),
            final(self).poh == old(self).poh,
            final(self).ledger.blocks == old(self).ledger.blocks,
            forall|pool: Pubkey|
                pool.0@ == reward_pool_bytes() ==> if is_last_of_epoch(old(self).slot, epoch_slots) {
                    &&& final(self).ledger.data() == #[trigger] rewarded(
                        old(self).ledger.data(),
                        pool,
                        units,
                    )
                    &&& paid == total(rewards(old(self).ledger.data(), pool, units))
                } else {
                    final(self).ledger.data() == old(self).ledger.data() && paid == 0
                },
    {
        if !ends_epoch(self.slot, epoch_slots) {
            return 0;
        }
        let pool: Pubkey = Pubkey::staking_rewards_pool();
        proof {
            assert forall|p: Pubkey| p.0@ == reward_pool_bytes() implies p == pool by {
                assert(p.0 =~= pool.0);
            }
        }
        self.ledger.distribute_staking_rewards(pool, units)
    }

    /// Lets go of all blocks but the last so many.
    pub fn keep_recent_blocks(&mut self, window: usize)
        requires
            old(self).wf(),
        ensures
            final(self).wf(),
            same_setup(*old(self), *final(self)),
            final(self).slot == old(self).slot,
            final(self).last_blockhash == old(self).last_blockhash,
            same_pending(*old(self), *final(self)),
            final(self).poh == old(self).poh,
            final(self).ledger.accounts == old(self).ledger.accounts,
            final(self).ledger.blocks@ == if old(self).ledger.blocks@.len() <= window {
                old(self).ledger.blocks@
            } else {
                old(self).ledger.blocks@.skip(old(self).ledger.blocks@.len() - window)
            },
    {
        let n: usize = self.ledger.blocks.len();
        if n > window {
            let ghost before = self.ledger.blocks@;
            let recent = self.ledger.blocks.split_off(n - window);
            self.ledger.blocks = recent;
            proof {
                let after = self.ledger.blocks@;
                assert(after =~= before.skip(n - window));
                assert forall|i: int, j: int|
                    0 <= i && j == i + 1 && j < after.len() implies follows(after, i, j) by {
                    assert(follows(before, i + (n - window), j + (n - window)));
                }
                if after.len() > 0 {
                    assert(after.last() == before.last());
                }
            }
        }
    }

    /// The clock goes on.
    pub fn tick(&mut self)
        requires
            old(self).wf(),
            old(self).poh.height() < u64::MAX,
        ensures
            final(self).wf(),
            same_setup(*old(self), *final(self)),
            same_tip(*old(self), *final(self)),
            final(self).ledger == old(self).ledger,
            final(self).pending_txs == old(self).pending_txs,
            final(self).pending_airdrops == old(self).pending_airdrops,
            clock_went_on(*old(self), *final(self), Seq::empty()),
            final(self).pending_poh_entries@.len() == old(self).pending_poh_entries@.len() + 1,
            final(self).pending_poh_entries@.drop_last() == old(self).pending_poh_entries@,
            final(self).pending_poh_entries@.last().hash == final(self).poh.at(),
            final(self).pending_poh_entries@.last().tick_height == final(self).poh.height(),
            final(self).pending_poh_entries@.last().mixed_data is None,
    {
        let entry = self.poh.tick();
        let ghost before = self.pending_poh_entries@;
        self.pending_poh_entries.push(entry);
        proof {
            assert(self.pending_poh_entries@.drop_last() =~= before);
        }
    }

    /// Pays out of the treasury.
    pub fn handle_airdrop(&mut self, params: &Vec<Param>) -> (r: Result<RpcReply, String>)
        requires
            old(self).wf(),
            old(self).in_range(),
            old(self).poh.height() < u64::MAX,
        ensures
            final(self).wf(),
            total(final(self).ledger.data()) == total(old(self).ledger.data()),
            airdrop_done(*old(self), *final(self), params@, r),
    {
        if !self.faucet_enabled {
            return Err("faucet disabled on this node (start it with --enable-faucet)".to_owned());
        }
        let to: Pubkey = match parse_pubkey_param(params, 0) {
            Ok(k) => k,
            Err(words) => {
                return Err(words);
            },
        };
        let amount: u64 = match parse_number_param(params, 1) {
            Some(n) => n,
            None => {
                return Err("missing amount param (base units)".to_owned());
            },
        };
        if amount > self.faucet_max_units {
            return Err(
                joined(
                    joined(
                        "amount exceeds faucet max of ",
                        decimal_text(self.faucet_max_units).as_str(),
                    ).as_str(),
                    " units per request",
                ),
            );
        }
        let head = joined(
            joined("airdrop:", to.to_string().as_str()).as_str(),
            ":",
        );
        let words = joined(head.as_str(), decimal_text(amount).as_str());
        let entry = self.poh.record(words.as_str().as_bytes());
        let treasury: Pubkey = Pubkey::treasury();
        let ghost data = encode_utf8(airdrop_words(to.0@, amount));
        proof {
            law_treasury_keeps_the_sum(self.ledger.data(), treasury, to, amount);
            assert(words@ =~= airdrop_words(to.0@, amount));
        }
        match disburse(&mut self.ledger, &treasury, &to, amount) {
            Err(e) => {
                let r: Result<RpcReply, String> = Err(e.message());
                proof {
                    assert(airdropped_from(*old(self), *self, treasury, to, amount, params@, r));
                }
                r
            },
            Ok(_) => {
                let signature = hex_encode(entry.hash.as_slice());
                self.pending_airdrops.push((to, amount));
                let ghost before = self.pending_poh_entries@;
                self.pending_poh_entries.push(entry);
                let r: Result<RpcReply, String> = Ok(
                    RpcReply::Airdropped { signature, slot: self.slot },
                );
                proof {
                    assert(self.pending_poh_entries@.drop_last() =~= before);
                    assert(airdropped_from(*old(self), *self, treasury, to, amount, params@, r));
                }
                r
            },
        }
    }

    /// Applies a transaction. `tx` is the one in the request: none where there is no such
    /// parameter, and the reason where it is no transaction.
    pub fn handle_send_transaction(&mut self, tx: Option<Result<Transaction, String>>) -> (r: Result<
        RpcReply,
        String,
    >)
        requires
            old(self).wf(),
            old(self).can_apply(tx),
            old(self).poh.height() < u64::MAX,
        ensures
            final(self).wf(),
            old(self).in_range() ==> total(final(self).ledger.data()) == total(
                old(self).ledger.data(),
            ),
            sending_done(*old(self), *final(self), tx, r),
    {
        let tx: Transaction = match tx {
            None => {
                return Err("missing transaction param".to_owned());
            },
            Some(Err(e)) => {
                return Err(joined("invalid transaction: ", e.as_str()));
            },
            Some(Ok(t)) => t,
        };
        let id: [u8; 32] = tx.hash();
        let entry = self.poh.record(id.as_slice());
        proof {
            if self.in_range() {
                law_sound_programs_apply(
                    self.ledger.data(),
                    tx,
                    self.programs@,
                    self.identity,
                    self.fee_units,
                );
            }
        }
        let done = self.ledger.apply_transaction(
            &tx,
            &self.programs,
            &self.identity,
            self.fee_units,
        );
        proof {
            self.ledger.accounts.lemma_listed();
            assert(self.ledger.data().dom() =~= self.ledger.accounts@.dom());
        }
        match done {
            Err(e) => Err(e.message()),
            Ok(_) => {
                let signature = hex_encode(id.as_slice());
                self.pending_txs.push(tx);
                let ghost before = self.pending_poh_entries@;
                self.pending_poh_entries.push(entry);
                proof {
                    assert(self.pending_poh_entries@.drop_last() =~= before);
                }
                Ok(RpcReply::Sent { signature, slot: self.slot, fee: self.fee_units })
            },
        }
    }

    fn answer(&self, req: &RpcRequest) -> (r: Result<RpcReply, String>)
        requires
            self.wf(),
        ensures
            answered(*self, req.method@, req.params@, r),
    {
        let method = req.method.as_str();
        if same_text(method, "getHealth") {
            return Ok(RpcReply::Health);
        }
        if same_text(method, "getSlot") {
            return Ok(RpcReply::Slot(self.slot));
        }
        if same_text(method, "getLatestBlockhash") {
            return Ok(RpcReply::Blockhash(hex_encode(self.last_blockhash.as_slice())));
        }
        if same_text(method, "getSupply") {
            let treasury: Pubkey = Pubkey::treasury();
            let treasury_units: u64 = self.ledger.get_balance(&treasury);
            let circulating_units: u64 = TOTAL_SUPPLY_UNITS.saturating_sub(treasury_units);
            let reply = RpcReply::Supply {
                total_units: TOTAL_SUPPLY_UNITS,
                circulating_units,
                treasury_units,
            };
            proof {
                assert(reply@ == supply_reply(*self, treasury));
            }
            return Ok(reply);
        }
        if same_text(method, "getBalance") {
            return match parse_pubkey_param(&req.params, 0) {
                Err(words) => Err(words),
                Ok(k) => {
                    let units: u64 = self.ledger.get_balance(&k);
                    proof {
                        assert(units == balance_at(*self, k.0));
                    }
                    Ok(RpcReply::Balance(units))
                },
            };
        }
        if same_text(method, "getAccountInfo") {
            return match parse_pubkey_param(&req.params, 0) {
                Err(words) => Err(words),
                Ok(k) => {
                    let reply = match self.ledger.get_account(&k) {
                        Some(a) => RpcReply::Account {
                            owner: a.owner.to_string(),
                            balance: a.balance,
                            data: hex_encode(a.data.as_slice()),
                            executable: a.executable,
                        },
                        None => RpcReply::NoAccount,
                    };
                    proof {
                        assert(reply@ == account_reply(*self, k.0));
                    }
                    Ok(reply)
                },
            };
        }
        if same_text(method, "getBlock") {
            return match parse_number_param(&req.params, 0) {
                None => Err("missing slot param".to_owned()),
                Some(slot) => Ok(RpcReply::BlockAt(slot)),
            };
        }
        Err(joined("unknown method: ", method))
    }

    /// Answers a request. The sum of all balances stays what it is, whatever is asked, where
    /// it is in range.
    pub fn dispatch(&mut self, req: &RpcRequest, tx: Option<Result<Transaction, String>>) -> (r: Result<
        RpcReply,
        String,
    >)
        requires
            old(self).wf(),
            req.method@ == "requestAirdrop"@ ==> old(self).in_range(),
            req.method@ == "sendTransaction"@ ==> old(self).can_apply(tx),
            req.method@ == "requestAirdrop"@ || req.method@ == "sendTransaction"@ ==> old(
                self,
            ).poh.height() < u64::MAX,
        ensures
            final(self).wf(),
            old(self).in_range() ==> total(final(self).ledger.data()) == total(
                old(self).ledger.data(),
            ),
            if req.method@ == "requestAirdrop"@ {
                airdrop_done(*old(self), *final(self), req.params@, r)
            } else if req.method@ == "sendTransaction"@ {
                sending_done(*old(self), *final(self), tx, r)
            } else {
                *final(self) == *old(self) && answered(*old(self), req.method@, req.params@, r)
            },
    {
        if same_text(req.method.as_str(), "requestAirdrop") {
            return self.handle_airdrop(&req.params);
        }
        if same_text(req.method.as_str(), "sendTransaction") {
            return self.handle_send_transaction(tx);
        }
        self.answer(req)
    }

    /// Packs what happened since the last block into a new one, where anything did.
    pub fn produce_block(&mut self) -> (made: bool)
        requires
            old(self).wf(),
            old(self).slot < u64::MAX,
        ensures
            final(self).wf(),
            same_setup(*old(self), *final(self)),
            final(self).poh == old(self).poh,
            final(self).ledger.accounts == old(self).ledger.accounts,
            made == (old(self).pending_poh_entries@.len() > 0 || old(self).pending_txs@.len() > 0
                || old(self).pending_airdrops@.len() > 0),
            !made ==> same_pending(*old(self), *final(self)) && same_tip(*old(self), *final(self)),
            made ==> {
                let b = final(self).ledger.blocks@.last();
                &&& final(self).ledger.blocks@ == old(self).ledger.blocks@.push(b)
                &&& b.slot == old(self).slot + 1
                &&& b.leader == old(self).identity
                &&& b.previous_blockhash == old(self).last_blockhash
                &&& b.blockhash == (if old(self).pending_poh_entries@.len() > 0 {
                    old(self).pending_poh_entries@.last().hash
                } else {
                    old(self).last_blockhash
                })
                &&& b.poh_entries == old(self).pending_poh_entries
                &&& b.transactions == old(self).pending_txs
                &&& b.airdrops == old(self).pending_airdrops
                &&& final(self).slot == b.slot
                &&& final(self).last_blockhash == b.blockhash
                &&& final(self).pending_poh_entries@.len() == 0
                &&& final(self).pending_txs@.len() == 0
                &&& final(self).pending_airdrops@.len() == 0
            },
    {
        if self.pending_poh_entries.len() == 0 && self.pending_txs.len() == 0
            && self.pending_airdrops.len() == 0 {
            return false;
        }
        let mut poh_entries: Vec<PohEntry> = Vec::new();
        let mut transactions: Vec<Transaction> = Vec::new();
        let mut airdrops: Vec<(Pubkey, u64)> = Vec::new();
        std::mem::swap(&mut poh_entries, &mut self.pending_poh_entries);
        std::mem::swap(&mut transactions, &mut self.pending_txs);
        std::mem::swap(&mut airdrops, &mut self.pending_airdrops);
        let previous_blockhash: [u8; 32] = self.last_blockhash;
        let blockhash: [u8; 32] = if poh_entries.len() > 0 {
            poh_entries[poh_entries.len() - 1].hash
        } else {
            previous_blockhash
        };
        let slot: u64 = self.slot + 1;
        let block = Block {
            slot,
            leader: self.identity,
            previous_blockhash,
            blockhash,
            poh_entries,
            transactions,
            airdrops,
        };
        let ghost before = self.ledger.blocks@;
        self.ledger.push_block(block);
        self.slot = slot;
        self.last_blockhash = blockhash;
        proof {
            let after = self.ledger.blocks@;
            assert forall|i: int, j: int| 0 <= i && j == i + 1 && j < after.len() implies follows(
                after,
                i,
                j,
            ) by {
                if j < before.len() {
                    assert(follows(before, i, j));
                }
            }
        }
        true
    }
}

proof fn lemma_wallet_finite(m: Map<[u8; 32], AccountData>, key: Pubkey, amount: u64)
    requires
        m.dom().finite(),
    ensures
        with_balance(
            with_wallet(m, key),
            key,
            saturated(with_wallet(m, key)[key.0].balance + amount),
        ).dom().finite(),
{
}

/// A slot is the last of an epoch; an epoch of no slots never ends.
pub open spec fn is_last_of_epoch(slot: u64, epoch_slots: u64) -> bool {
    epoch_slots > 0 && slot as int % epoch_slots as int == 0
}

/// Whether a slot is the last of an epoch.
pub fn ends_epoch(slot: u64, epoch_slots: u64) -> (yes: bool)
    ensures
        yes == is_last_of_epoch(slot, epoch_slots),
{
    epoch_slots > 0 && slot % epoch_slots == 0
}

} // verus!
