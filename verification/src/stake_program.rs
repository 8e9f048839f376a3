//! The stake program: opening, closing and emptying stakes.
use crate::account::{Account, AccountData};
use crate::codec::{array_at, borsh_read_u64, borsh_write_u64, le_bytes, le_value, lemma_le_bytes_len};
use crate::decode::{decode_words, DecodeError};
use crate::keymap::KeyMap;
use crate::ledger::{
    accounts_data, balance_of, ensure_account, failure_of, program_error, set_balance, with_balance,
    with_wallet, ProgramProcessor, TxError, TxFailure,
};
use crate::memo_program::{set_data, with_data};
use crate::pubkey::{key_at, lemma_key_at, Pubkey};
use crate::stake::{
    stake_bytes, stake_error, stake_program, stake_program_id, status_tag, StakeState, StakeStatus,
};
use crate::text::joined;
use crate::transaction::{Instruction, InstructionData};
use vstd::prelude::*;
use vstd::slice::slice_subrange;

verus! {

/// What the stake program can be asked for.
#[derive(Debug)]
pub enum StakeInstruction {
    /// Makes the first account of the instruction an active stake.
    Initialize { authority: Pubkey, validator: Pubkey },
    /// Stops the stake in the first account of the instruction.
    Deactivate,
    /// Moves `amount` from the stopped stake in the first account of the instruction to the
    /// second account.
    Withdraw { amount: u64 },
}

/// The bytes of a request.
pub open spec fn stake_request_bytes(i: StakeInstruction) -> Seq<u8> {
    match i {
        StakeInstruction::Initialize { authority, validator } => seq![0u8] + authority.0@
            + validator.0@,
        StakeInstruction::Deactivate => seq![1u8],
        StakeInstruction::Withdraw { amount } => seq![2u8] + le_bytes(amount as nat, 8),
    }
}

/// How many bytes a request with this tag has.
pub open spec fn stake_request_size(tag: u8) -> int {
    if tag == 0 {
        65
    } else if tag == 1 {
        1
    } else {
        9
    }
}

/// What is wrong with the bytes of a request, where something is.
pub open spec fn stake_request_error(data: Seq<u8>) -> Option<DecodeError> {
    if data.len() == 0 {
        Some(DecodeError::UnexpectedLength)
    } else if data[0] > 2 {
        Some(DecodeError::UnexpectedTag(data[0]))
    } else if data.len() < stake_request_size(data[0]) {
        Some(DecodeError::UnexpectedLength)
    } else if data.len() > stake_request_size(data[0]) {
        Some(DecodeError::NotAllBytesRead)
    } else {
        None
    }
}

impl StakeInstruction {
    /// The bytes of the request.
    pub fn encode(&self) -> (out: Vec<u8>)
        ensures
            out@ == stake_request_bytes(*self),
    {
        let mut out: Vec<u8> = Vec::new();
        match self {
            StakeInstruction::Initialize { authority, validator } => {
                out.push(0);
                out.extend_from_slice(authority.0.as_slice());
                out.extend_from_slice(validator.0.as_slice());
            },
            StakeInstruction::Deactivate => {
                out.push(1);
            },
            StakeInstruction::Withdraw { amount } => {
                out.push(2);
                let mut number: Vec<u8> = borsh_write_u64(*amount);
                out.append(&mut number);
            },
        }
        proof {
            assert(out@ =~= stake_request_bytes(*self));
        }
        out
    }

    /// The request that `data` stands for.
    pub fn decode(data: &[u8]) -> (request: Result<Self, DecodeError>)
        ensures
            match request {
                Ok(i) => stake_request_error(data@) is None && stake_request_bytes(i) == data@,
                Err(e) => stake_request_error(data@) == Some(e),
            },
    {
        if data.len() == 0 {
            return Err(DecodeError::UnexpectedLength);
        }
        let tag: u8 = data[0];
        if tag > 2 {
            return Err(DecodeError::UnexpectedTag(tag));
        }
        let size: usize = if tag == 0 {
            65
        } else if tag == 1 {
            1
        } else {
            9
        };
        if data.len() < size {
            return Err(DecodeError::UnexpectedLength);
        }
        if data.len() > size {
            return Err(DecodeError::NotAllBytesRead);
        }
        let request = if tag == 0 {
            StakeInstruction::Initialize {
                authority: Pubkey(array_at(data, 1)),
                validator: Pubkey(array_at(data, 33)),
            }
        } else if tag == 1 {
            StakeInstruction::Deactivate
        } else {
            let rest = slice_subrange(data, 1, data.len());
            let amount: u64 = match borsh_read_u64(rest) {
                Some(x) => x,
                None => {
                    return Err(DecodeError::UnexpectedLength);
                },
            };
            proof {
                crate::codec::lemma_le_value_round_trip(rest@.take(8));
                assert(rest@.take(8) =~= data@.subrange(1, 9));
            }
            StakeInstruction::Withdraw { amount }
        };
        proof {
            assert(stake_request_bytes(request) =~= data@);
        }
        Ok(request)
    }
}

/// A request is read back from its bytes, and from no others.
pub proof fn law_stake_request_round_trip(a: StakeInstruction, b: StakeInstruction)
    ensures
        stake_request_error(stake_request_bytes(a)) is None,
        stake_request_bytes(a) == stake_request_bytes(b) ==> a == b,
{
    let x = stake_request_bytes(a);
    let y = stake_request_bytes(b);
    assert(x[0] == (match a {
        StakeInstruction::Initialize { .. } => 0u8,
        StakeInstruction::Deactivate => 1u8,
        StakeInstruction::Withdraw { .. } => 2u8,
    }));
    assert(y[0] == (match b {
        StakeInstruction::Initialize { .. } => 0u8,
        StakeInstruction::Deactivate => 1u8,
        StakeInstruction::Withdraw { .. } => 2u8,
    }));
    if a is Withdraw {
        lemma_le_bytes_len(a->amount as nat, 8);
    }
    if b is Withdraw {
        lemma_le_bytes_len(b->amount as nat, 8);
    }
    if x == y {
        if a is Withdraw {
            assert(x.subrange(1, 9) =~= le_bytes(a->amount as nat, 8));
            assert(y.subrange(1, 9) =~= le_bytes(b->amount as nat, 8));
            crate::codec::lemma_pow256();
            crate::codec::lemma_le_injective(a->amount as nat, b->amount as nat, 8);
        } else if a is Initialize {
            assert forall|i: int| 0 <= i < 32 implies a->authority.0[i] == b->authority.0[i]
                && a->validator.0[i] == b->validator.0[i] by {
                assert(x[1 + i] == a->authority.0@[i] && y[1 + i] == b->authority.0@[i]);
                assert(x[33 + i] == a->validator.0@[i] && y[33 + i] == b->validator.0@[i]);
            }
            assert(a->authority.0 =~= b->authority.0);
            assert(a->validator.0 =~= b->validator.0);
        }
    }
}

/// The state that the bytes of a stake account stand for.
pub open spec fn stake_state_of(data: Seq<u8>) -> StakeState {
    StakeState {
        authority: key_at(data, 0),
        validator: key_at(data, 32),
        status: if data[64] == 0 {
            StakeStatus::Active
        } else {
            StakeStatus::Deactivated
        },
    }
}

proof fn lemma_stake_state(s: StakeState)
    ensures
        stake_state_of(stake_bytes(s)) == s,
{
    let data = stake_bytes(s);
    assert(data.subrange(0, 32) =~= s.authority.0@);
    assert(data.subrange(32, 64) =~= s.validator.0@);
    lemma_key_at(s.authority, data, 0);
    lemma_key_at(s.validator, data, 32);
    assert(data[64] == status_tag(s.status));
}

/// Why there is no stake under `key`, where there is none.
pub open spec fn stake_lookup_failure(
    m: Map<[u8; 32], AccountData>,
    key: Pubkey,
) -> Option<TxFailure> {
    if !m.contains_key(key.0) {
        Some(TxFailure::AccountNotFound(key))
    } else if m[key.0].owner != stake_program() {
        Some(TxFailure::ProgramError("account not owned by the stake program"@))
    } else {
        match stake_error(m[key.0].data) {
            Some(e) => Some(
                TxFailure::ProgramError("corrupt stake account data: "@ + decode_words(e)),
            ),
            None => None,
        }
    }
}

/// What opening a stake does.
pub open spec fn initialized(
    m: Map<[u8; 32], AccountData>,
    accounts: Seq<Pubkey>,
    authority: Pubkey,
    validator: Pubkey,
) -> (Map<[u8; 32], AccountData>, Option<TxFailure>) {
    if accounts.len() == 0 {
        (m, Some(TxFailure::ProgramError("Initialize requires accounts[0]"@)))
    } else if !m.contains_key(accounts[0].0) {
        (m, Some(TxFailure::AccountNotFound(accounts[0])))
    } else if m[accounts[0].0].owner != stake_program() {
        (m, Some(TxFailure::ProgramError("stake account not owned by the stake program"@)))
    } else {
        (
            with_data(
                m,
                accounts[0],
                stake_bytes((StakeState { authority, validator, status: StakeStatus::Active })),
            ),
            None,
        )
    }
}

/// What stopping a stake does.
pub open spec fn deactivated(
    m: Map<[u8; 32], AccountData>,
    accounts: Seq<Pubkey>,
    payer: Pubkey,
) -> (Map<[u8; 32], AccountData>, Option<TxFailure>) {
    if accounts.len() == 0 {
        (m, Some(TxFailure::ProgramError("Deactivate requires accounts[0]"@)))
    } else {
        match stake_lookup_failure(m, accounts[0]) {
            Some(f) => (m, Some(f)),
            None => {
                let state = stake_state_of(m[accounts[0].0].data);
                if state.authority != payer {
                    (m, Some(TxFailure::ProgramError("only the stake authority may deactivate"@)))
                } else {
                    (
                        with_data(
                            m,
                            accounts[0],
                            stake_bytes((StakeState { status: StakeStatus::Deactivated, ..state })),
                        ),
                        None,
                    )
                }
            },
        }
    }
}

/// Why nothing is withdrawn, where nothing is.
pub open spec fn withdraw_failure(
    m: Map<[u8; 32], AccountData>,
    accounts: Seq<Pubkey>,
    payer: Pubkey,
    amount: u64,
) -> Option<TxFailure> {
    if accounts.len() == 0 {
        Some(TxFailure::ProgramError("Withdraw requires accounts[0]"@))
    } else if accounts.len() == 1 {
        Some(TxFailure::ProgramError("Withdraw requires accounts[1]"@))
    } else {
        match stake_lookup_failure(m, accounts[0]) {
            Some(f) => Some(f),
            None => {
                let state = stake_state_of(m[accounts[0].0].data);
                if state.authority != payer {
                    Some(TxFailure::ProgramError("only the stake authority may withdraw"@))
                } else if state.status != StakeStatus::Deactivated {
                    Some(TxFailure::ProgramError("stake must be deactivated before withdrawing"@))
                } else if m[accounts[0].0].balance < amount {
                    Some(TxFailure::InsufficientFunds)
                } else {
                    None
                }
            },
        }
    }
}

/// The accounts once `amount` left the stake, with one under `to`.
pub open spec fn stake_paid(
    m: Map<[u8; 32], AccountData>,
    from: Pubkey,
    to: Pubkey,
    amount: u64,
) -> Map<[u8; 32], AccountData> {
    with_wallet(with_balance(m, from, (m[from.0].balance - amount) as u64), to)
}

/// What withdrawing from a stake does.
pub open spec fn withdrawn(
    m: Map<[u8; 32], AccountData>,
    accounts: Seq<Pubkey>,
    payer: Pubkey,
    amount: u64,
) -> (Map<[u8; 32], AccountData>, Option<TxFailure>) {
    match withdraw_failure(m, accounts, payer, amount) {
        Some(f) => (m, Some(f)),
        None => {
            let both = stake_paid(m, accounts[0], accounts[1], amount);
            (
                with_balance(both, accounts[1], (both[accounts[1].0].balance + amount) as u64),
                None,
            )
        },
    }
}

/// What the stake program does with an instruction.
pub open spec fn stake_outcome(
    m: Map<[u8; 32], AccountData>,
    instruction: InstructionData,
    payer: Pubkey,
) -> (Map<[u8; 32], AccountData>, Option<TxFailure>) {
    let data = instruction.data;
    match stake_request_error(data) {
        Some(e) => (
            m,
            Some(TxFailure::ProgramError("bad instruction data: "@ + decode_words(e))),
        ),
        None => if data[0] == 0 {
            initialized(m, instruction.accounts, key_at(data, 1), key_at(data, 33))
        } else if data[0] == 1 {
            deactivated(m, instruction.accounts, payer)
        } else {
            withdrawn(m, instruction.accounts, payer, le_value(data.subrange(1, 9)) as u64)
        },
    }
}

/// A withdrawal fits the balance that it goes to.
pub open spec fn withdrawal_fits(
    m: Map<[u8; 32], AccountData>,
    instruction: InstructionData,
    payer: Pubkey,
) -> bool {
    let data = instruction.data;
    let amount = le_value(data.subrange(1, 9)) as u64;
    let accounts = instruction.accounts;
    stake_request_error(data) is None && data[0] == 2 && withdraw_failure(
        m,
        accounts,
        payer,
        amount,
    ) is None ==> stake_paid(m, accounts[0], accounts[1], amount)[accounts[1].0].balance + amount
        <= u64::MAX
}

/// The stake program.
pub struct StakeProgram;

impl StakeProgram {
    /// The balance and the state of the stake under `key`.
    fn get_stake(accounts: &KeyMap<Account>, key: &Pubkey) -> (stake: Result<
        (u64, StakeState),
        TxError,
    >)
        requires
            accounts.wf(),
        ensures
            match stake {
                Ok(s) => {
                    let m = accounts_data(accounts@);
                    &&& stake_lookup_failure(m, *key) is None
                    &&& s.0 == m[key.0].balance
                    &&& s.1 == stake_state_of(m[key.0].data)
                },
                Err(e) => stake_lookup_failure(accounts_data(accounts@), *key) == Some(e@),
            },
    {
        match accounts.get(&key.0) {
            None => Err(TxError::AccountNotFound(*key)),
            Some(account) => {
                if !account.owner.same_as(&stake_program_id()) {
                    return Err(program_error("account not owned by the stake program"));
                }
                match StakeState::decode(account.data.as_slice()) {
                    Ok(state) => {
                        proof {
                            lemma_stake_state(state);
                        }
                        Ok((account.balance, state))
                    },
                    Err(e) => Err(
                        program_error(
                            joined("corrupt stake account data: ", e.message().as_str()).as_str(),
                        ),
                    ),
                }
            },
        }
    }

    fn initialize(
        accounts: &mut KeyMap<Account>,
        named: &Vec<Pubkey>,
        authority: Pubkey,
        validator: Pubkey,
    ) -> (done: Result<(), TxError>)
        requires
            old(accounts).wf(),
        ensures
            final(accounts).wf(),
            (accounts_data(final(accounts)@), failure_of(done)) == initialized(
                accounts_data(old(accounts)@),
                named@,
                authority,
                validator,
            ),
    {
        if named.len() == 0 {
            return Err(program_error("Initialize requires accounts[0]"));
        }
        let key: Pubkey = named[0];
        let owner: Pubkey = match accounts.get(&key.0) {
            Some(a) => a.owner,
            None => {
                return Err(TxError::AccountNotFound(key));
            },
        };
        if !owner.same_as(&stake_program_id()) {
            return Err(program_error("stake account not owned by the stake program"));
        }
        let state = StakeState { authority, validator, status: StakeStatus::Active };
        set_data(accounts, &key, state.encode());
        Ok(())
    }

    fn deactivate(accounts: &mut KeyMap<Account>, named: &Vec<Pubkey>, payer: &Pubkey) -> (done: Result<
        (),
        TxError,
    >)
        requires
            old(accounts).wf(),
        ensures
            final(accounts).wf(),
            (accounts_data(final(accounts)@), failure_of(done)) == deactivated(
                accounts_data(old(accounts)@),
                named@,
                *payer,
            ),
    {
        if named.len() == 0 {
            return Err(program_error("Deactivate requires accounts[0]"));
        }
        let key: Pubkey = named[0];
        let mut state: StakeState = match StakeProgram::get_stake(accounts, &key) {
            Ok((_, state)) => state,
            Err(e) => {
                return Err(e);
            },
        };
        if !state.authority.same_as(payer) {
            return Err(program_error("only the stake authority may deactivate"));
        }
        state.status = StakeStatus::Deactivated;
        set_data(accounts, &key, state.encode());
        Ok(())
    }

    fn withdraw(
        accounts: &mut KeyMap<Account>,
        named: &Vec<Pubkey>,
        payer: &Pubkey,
        amount: u64,
    ) -> (done: Result<(), TxError>)
        requires
            old(accounts).wf(),
            withdraw_failure(accounts_data(old(accounts)@), named@, *payer, amount) is None
                ==> stake_paid(accounts_data(old(accounts)@), named@[0], named@[1], amount)[named@[1].0].balance
                + amount <= u64::MAX,
        ensures
            final(accounts).wf(),
            (accounts_data(final(accounts)@), failure_of(done)) == withdrawn(
                accounts_data(old(accounts)@),
                named@,
                *payer,
                amount,
            ),
    {
        if named.len() == 0 {
            return Err(program_error("Withdraw requires accounts[0]"));
        }
        if named.len() == 1 {
            return Err(program_error("Withdraw requires accounts[1]"));
        }
        let from: Pubkey = named[0];
        let to: Pubkey = named[1];
        let (balance, state) = match StakeProgram::get_stake(accounts, &from) {
            Ok(stake) => stake,
            Err(e) => {
                return Err(e);
            },
        };
        if !state.authority.same_as(payer) {
            return Err(program_error("only the stake authority may withdraw"));
        }
        if state.status != StakeStatus::Deactivated {
            return Err(program_error("stake must be deactivated before withdrawing"));
        }
        if balance < amount {
            return Err(TxError::InsufficientFunds);
        }
        set_balance(accounts, &from, balance - amount);
        ensure_account(accounts, &to, Pubkey::system_program_id());
        if let Some(to_balance) = balance_of(accounts, &to) {
            set_balance(accounts, &to, to_balance + amount);
        }
        Ok(())
    }
}

impl ProgramProcessor for StakeProgram {
    open spec fn outcome(
        &self,
        accounts: Map<[u8; 32], AccountData>,
        instruction: InstructionData,
        payer: Pubkey,
    ) -> (Map<[u8; 32], AccountData>, Option<TxFailure>) {
        stake_outcome(accounts, instruction, payer)
    }

    open spec fn in_range(
        &self,
        accounts: Map<[u8; 32], AccountData>,
        instruction: InstructionData,
        payer: Pubkey,
    ) -> bool {
        withdrawal_fits(accounts, instruction, payer)
    }

    fn process(
        &self,
        accounts: &mut KeyMap<Account>,
        instruction: &Instruction,
        payer: &Pubkey,
    ) -> (done: Result<(), TxError>) {
        let ghost data = instruction.data@;
        match StakeInstruction::decode(instruction.data.as_slice()) {
            Err(e) => Err(
                program_error(joined("bad instruction data: ", e.message().as_str()).as_str()),
            ),
            Ok(StakeInstruction::Initialize { authority, validator }) => {
                proof {
                    assert(data.subrange(1, 33) =~= authority.0@);
                    assert(data.subrange(33, 65) =~= validator.0@);
                    lemma_key_at(authority, data, 1);
                    lemma_key_at(validator, data, 33);
                }
                StakeProgram::initialize(accounts, &instruction.accounts, authority, validator)
            },
            Ok(StakeInstruction::Deactivate) => StakeProgram::deactivate(
                accounts,
                &instruction.accounts,
                payer,
            ),
            Ok(StakeInstruction::Withdraw { amount }) => {
                proof {
                    lemma_le_bytes_len(amount as nat, 8);
                    assert(data.subrange(1, 9) =~= le_bytes(amount as nat, 8));
                    crate::codec::lemma_pow256();
                    crate::codec::lemma_le_round_trip(amount as nat, 8);
                }
                StakeProgram::withdraw(accounts, &instruction.accounts, payer, amount)
            },
        }
    }
}

/// A stake that was opened can be emptied only once it was stopped, and only by its
/// authority.
pub proof fn law_withdraw_needs_deactivation(
    m: Map<[u8; 32], AccountData>,
    accounts: Seq<Pubkey>,
    authority: Pubkey,
    validator: Pubkey,
    payer: Pubkey,
    amount: u64,
)
    requires
        initialized(m, accounts, authority, validator).1 is None,
        accounts.len() >= 2,
    ensures
        ({
            let opened = initialized(m, accounts, authority, validator).0;
            let stopped = deactivated(opened, accounts, authority).0;
            &&& withdraw_failure(opened, accounts, payer, amount) is Some
            &&& deactivated(opened, accounts, authority).1 is None
            &&& payer != authority ==> deactivated(opened, accounts, payer).1 is Some
            &&& payer != authority ==> withdraw_failure(stopped, accounts, payer, amount) is Some
            &&& amount <= m[accounts[0].0].balance ==> withdraw_failure(
                stopped,
                accounts,
                authority,
                amount,
            ) is None
        }),
{
    let state = StakeState { authority, validator, status: StakeStatus::Active };
    let stopped = StakeState { status: StakeStatus::Deactivated, ..state };
    lemma_stake_state(state);
    lemma_stake_state(stopped);
    crate::stake::law_stake_round_trip(state, stopped);
    crate::stake::law_stake_round_trip(stopped, state);
}

} // verus!
