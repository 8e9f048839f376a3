//! The requests that a browser wallet signs: which program they call, with which accounts and
//! which bytes.
use crate::codec::{filled, le_bytes, le_encode, lemma_le_bytes_len, lemma_le_injective, lemma_pow256};
use crate::pubkey::{system_program, Pubkey, PubkeyError};
use crate::text::{
    comma_parts, find_number_fault, joined, law_faults_are_no_numbers, number_fault,
    parse_signed_number, signed_number_in, split_at_commas, texts, NumberFault,
};
use crate::transaction::{Instruction, InstructionData};
use crate::wallet_derive::{address_named, is_reason, parse_address, AddressError, Role};
use vstd::prelude::*;
use vstd::string::*;
use vstd::utf8::*;

verus! {

/// The programs and accounts whose addresses are one byte, repeated.
pub open spec fn well_known(b: u8) -> Pubkey {
    Pubkey(filled(b))
}

/// The byte of the staking program.
pub const STAKING_PROGRAM: u8 = 1;

/// The byte of the account with the staking totals.
pub const STAKING_STATS: u8 = 2;

/// The byte of the governance program.
pub const GOVERNANCE_PROGRAM: u8 = 3;

/// The byte of the account with the registry of algorithms.
pub const REGISTRY_ACCOUNT: u8 = 4;

/// The byte of the account with the economic parameters.
pub const PARAMS_ACCOUNT: u8 = 5;

/// The byte of the account that pays staking rewards.
pub const REWARDS_POOL: u8 = 6;

/// The byte of the account that holds what is staked.
pub const STAKING_RESERVE: u8 = 11;

/// The byte of the account that holds what is being withdrawn.
pub const UNBONDING_POOL: u8 = 13;

/// The byte of the account with the staking index.
pub const STAKING_GLOBAL: u8 = 15;

fn known(b: u8) -> (key: Pubkey)
    ensures
        key == well_known(b),
{
    Pubkey([b; 32])
}

/// A number of eight bytes behind a kind.
pub open spec fn kind_and_amount(kind: u8, amount: u64) -> Seq<u8> {
    seq![kind] + le_bytes(amount as nat, 8)
}

/// The bytes of a transfer.
pub open spec fn transfer_bytes(amount: u64) -> Seq<u8> {
    kind_and_amount(1, amount)
}

/// The bytes of a program's deployment: the module and the name of its entry point, each
/// behind its length.
pub open spec fn deploy_bytes(module: Seq<u8>, entry_point: Seq<u8>) -> Seq<u8> {
    seq![2u8] + le_bytes(module.len(), 4) + module + le_bytes(entry_point.len(), 4) + entry_point
}

/// The bytes of a delegation.
pub open spec fn delegate_bytes(validator: Pubkey, amount: u64) -> Seq<u8> {
    seq![0u8] + validator.0@ + le_bytes(amount as nat, 8)
}

fn amount_data(kind: u8, amount: u64) -> (data: Vec<u8>)
    ensures
        data@ == kind_and_amount(kind, amount),
{
    let mut data: Vec<u8> = Vec::with_capacity(9);
    data.push(kind);
    let mut number = le_encode(amount, 8);
    data.append(&mut number);
    proof {
        assert(data@ =~= kind_and_amount(kind, amount));
    }
    data
}

/// The bytes of a transfer.
pub fn transfer_instruction_data(amount: u64) -> (data: Vec<u8>)
    ensures
        data@ == transfer_bytes(amount),
{
    amount_data(1, amount)
}

/// The bytes of a program's deployment.
pub fn deploy_program_instruction_data(module_bytes: &[u8], entry_point: &str) -> (data: Vec<u8>)
    ensures
        data@ == deploy_bytes(module_bytes@, encode_utf8(entry_point@)),
{
    let mut data: Vec<u8> = Vec::new();
    data.push(2);
    let mut module_length = le_encode(module_bytes.len() as u64, 4);
    data.append(&mut module_length);
    data.extend_from_slice(module_bytes);
    let entry = entry_point.as_bytes();
    let mut entry_length = le_encode(entry.len() as u64, 4);
    data.append(&mut entry_length);
    data.extend_from_slice(entry);
    proof {
        assert(data@ =~= deploy_bytes(module_bytes@, encode_utf8(entry_point@)));
    }
    data
}

/// The bytes of a delegation.
pub fn delegate_instruction_data(validator: &[u8; 32], amount: u64) -> (data: Vec<u8>)
    ensures
        data@ == delegate_bytes(Pubkey(*validator), amount),
{
    let mut data: Vec<u8> = Vec::with_capacity(41);
    data.push(0);
    data.extend_from_slice(validator.as_slice());
    let mut number = le_encode(amount, 8);
    data.append(&mut number);
    proof {
        assert(data@ =~= delegate_bytes(Pubkey(*validator), amount));
    }
    data
}

/// The bytes of a transfer tell the amount.
pub proof fn law_transfer_bytes_tell_the_amount(a: u64, b: u64)
    requires
        transfer_bytes(a) == transfer_bytes(b),
    ensures
        a == b,
{
    assert(transfer_bytes(a).skip(1) =~= le_bytes(a as nat, 8));
    assert(transfer_bytes(b).skip(1) =~= le_bytes(b as nat, 8));
    lemma_pow256();
    lemma_le_injective(a as nat, b as nat, 8);
}

/// The bytes of a delegation tell the validator and the amount.
pub proof fn law_delegation_bytes_tell_all(v: Pubkey, a: u64, w: Pubkey, b: u64)
    requires
        delegate_bytes(v, a) == delegate_bytes(w, b),
    ensures
        v == w,
        a == b,
{
    let x = delegate_bytes(v, a);
    let y = delegate_bytes(w, b);
    lemma_le_bytes_len(a as nat, 8);
    lemma_le_bytes_len(b as nat, 8);
    assert(x.subrange(1, 33) =~= v.0@);
    assert(y.subrange(1, 33) =~= w.0@);
    assert(v.0 =~= w.0);
    assert(x.skip(33) =~= le_bytes(a as nat, 8));
    assert(y.skip(33) =~= le_bytes(b as nat, 8));
    lemma_pow256();
    lemma_le_injective(a as nat, b as nat, 8);
}

/// What a wallet can be asked to sign. Addresses are given as they were typed.
pub enum Ask<'a> {
    /// Send `amount` to an address.
    Transfer { to: &'a str, amount: u64 },
    /// Delegate `amount` to a validator, in a new stake account.
    Delegate { validator: &'a str, amount: u64, stake_account: &'a str },
    /// Take a delegation back.
    Undelegate { stake_account: &'a str },
    /// Claim the reward of a stake account.
    ClaimReward { stake_account: &'a str },
    /// Open a position with `amount`.
    Stake { position: &'a str, amount: u64 },
    /// Add `amount` to a position.
    IncreaseStake { position: &'a str, amount: u64 },
    /// Begin to withdraw `amount` from a position.
    BeginUnstake { position: &'a str, amount: u64 },
    /// Pay out what has been withdrawn.
    WithdrawUnbonded { position: &'a str },
    /// Vote with a stake account: 0 yes, 1 no, 2 abstain.
    Vote { proposal: &'a str, stake_account: &'a str, choice: u8 },
    /// Count the votes.
    Finalize { proposal: &'a str },
    /// Carry a proposal out, on the registry or on the economic parameters.
    Execute { proposal: &'a str, registry: bool },
    /// Publish a program.
    Deploy { program: &'a str, module: &'a [u8], entry_point: &'a str },
}

/// Why a request is not made.
#[derive(Debug)]
pub enum AskError {
    /// An address is none.
    Address(AddressError),
    /// There is no such choice.
    Choice,
    /// An account of a call, which is given, is no address, for this reason.
    CallAccount(String, PubkeyError),
    /// An argument of a call, which is given, is no number, for this reason.
    CallArgument(String, NumberFault),
}

impl AskError {
    /// What is said about the error.
    pub open spec fn said(&self) -> Seq<char> {
        match self {
            AskError::Address(e) => e.said(),
            AskError::Choice => "vote choice must be 0=Yes, 1=No, or 2=Abstain"@,
            AskError::CallAccount(a, reason) => "account address '"@ + a@ + "' invalid: "@
                + reason.said(),
            AskError::CallArgument(a, fault) => "arg '"@ + a@ + "' is not an i64: "@ + fault.said(),
        }
    }

    /// The error in words.
    pub fn message(&self) -> (text: String)
        ensures
            text@ == self.said(),
    {
        match self {
            AskError::Address(e) => e.message(),
            AskError::Choice => "vote choice must be 0=Yes, 1=No, or 2=Abstain".to_owned(),
            AskError::CallAccount(a, reason) => {
                let head = joined(joined("account address '", a.as_str()).as_str(), "' invalid: ");
                joined(head.as_str(), reason.message().as_str())
            },
            AskError::CallArgument(a, fault) => {
                let head = joined(joined("arg '", a.as_str()).as_str(), "' is not an i64: ");
                joined(head.as_str(), fault.message().as_str())
            },
        }
    }
}

/// A call of a program.
pub open spec fn call_of(program: Pubkey, accounts: Seq<Pubkey>, data: Seq<u8>) -> InstructionData {
    InstructionData { program_id: program, accounts, data }
}

/// The call that one address is named in.
pub open spec fn with_one(
    named: Option<Pubkey>,
    role: Role,
    call: spec_fn(Pubkey) -> InstructionData,
) -> Result<InstructionData, Role> {
    match named {
        Some(k) => Ok(call(k)),
        None => Err(role),
    }
}

/// What a request comes to, for the wallet `payer`: the call, or the role of the first
/// address that is none.
pub open spec fn wanted(payer: Pubkey, ask: Ask) -> Result<InstructionData, Role> {
    match ask {
        Ask::Transfer { to, amount } => with_one(
            address_named(to@),
            Role::Destination,
            |k: Pubkey| call_of(system_program(), seq![payer, k], transfer_bytes(amount)),
        ),
        Ask::Delegate { validator, amount, stake_account } => match address_named(validator@) {
            None => Err(Role::Validator),
            Some(v) => with_one(
                address_named(stake_account@),
                Role::StakeAccount,
                |k: Pubkey|
                    call_of(
                        well_known(STAKING_PROGRAM),
                        seq![payer, k, well_known(STAKING_STATS), well_known(REWARDS_POOL)],
                        delegate_bytes(v, amount),
                    ),
            ),
        },
        Ask::Undelegate { stake_account } => with_one(
            address_named(stake_account@),
            Role::StakeAccount,
            |k: Pubkey|
                call_of(
                    well_known(STAKING_PROGRAM),
                    seq![k, well_known(STAKING_STATS), well_known(REWARDS_POOL)],
                    seq![1u8],
                ),
        ),
        Ask::ClaimReward { stake_account } => with_one(
            address_named(stake_account@),
            Role::StakeAccount,
            |k: Pubkey|
                call_of(
                    well_known(STAKING_PROGRAM),
                    seq![k, well_known(REWARDS_POOL)],
                    seq![2u8],
                ),
        ),
        Ask::Stake { position, amount } => with_one(
            address_named(position@),
            Role::Position,
            |k: Pubkey|
                call_of(
                    well_known(STAKING_PROGRAM),
                    seq![payer, k, well_known(STAKING_GLOBAL), well_known(STAKING_RESERVE)],
                    kind_and_amount(0, amount),
                ),
        ),
        Ask::IncreaseStake { position, amount } => with_one(
            address_named(position@),
            Role::Position,
            |k: Pubkey|
                call_of(
                    well_known(STAKING_PROGRAM),
                    seq![payer, k, well_known(STAKING_GLOBAL), well_known(STAKING_RESERVE)],
                    kind_and_amount(1, amount),
                ),
        ),
        Ask::BeginUnstake { position, amount } => with_one(
            address_named(position@),
            Role::Position,
            |k: Pubkey|
                call_of(
                    well_known(STAKING_PROGRAM),
                    seq![
                        payer,
                        k,
                        well_known(STAKING_GLOBAL),
                        well_known(STAKING_RESERVE),
                        well_known(UNBONDING_POOL),
                    ],
                    kind_and_amount(2, amount),
                ),
        ),
        Ask::WithdrawUnbonded { position } => with_one(
            address_named(position@),
            Role::Position,
            |k: Pubkey|
                call_of(
                    well_known(STAKING_PROGRAM),
                    seq![payer, k, well_known(UNBONDING_POOL), well_known(STAKING_GLOBAL)],
                    seq![3u8],
                ),
        ),
        Ask::Vote { proposal, stake_account, choice } => match address_named(proposal@) {
            None => Err(Role::Proposal),
            Some(p) => with_one(
                address_named(stake_account@),
                Role::StakeAccount,
                |k: Pubkey|
                    call_of(well_known(GOVERNANCE_PROGRAM), seq![p, k], seq![1u8, choice]),
            ),
        },
        Ask::Finalize { proposal } => with_one(
            address_named(proposal@),
            Role::Proposal,
            |k: Pubkey|
                call_of(
                    well_known(GOVERNANCE_PROGRAM),
                    seq![k, well_known(STAKING_STATS)],
                    seq![2u8],
                ),
        ),
        Ask::Execute { proposal, registry } => with_one(
            address_named(proposal@),
            Role::Proposal,
            |k: Pubkey|
                call_of(
                    well_known(GOVERNANCE_PROGRAM),
                    seq![
                        k,
                        if registry {
                            well_known(REGISTRY_ACCOUNT)
                        } else {
                            well_known(PARAMS_ACCOUNT)
                        },
                    ],
                    seq![3u8],
                ),
        ),
        Ask::Deploy { program, module, entry_point } => with_one(
            address_named(program@),
            Role::Program,
            |k: Pubkey|
                call_of(
                    system_program(),
                    seq![k],
                    deploy_bytes(module@, encode_utf8(entry_point@)),
                ),
        ),
    }
}

/// What was typed for the address in a role.
pub open spec fn typed_for(ask: Ask, role: Role) -> Seq<char> {
    match ask {
        Ask::Transfer { to, amount } => to@,
        Ask::Delegate { validator, amount, stake_account } => if role == Role::Validator {
            validator@
        } else {
            stake_account@
        },
        Ask::Undelegate { stake_account } => stake_account@,
        Ask::ClaimReward { stake_account } => stake_account@,
        Ask::Stake { position, amount } => position@,
        Ask::IncreaseStake { position, amount } => position@,
        Ask::BeginUnstake { position, amount } => position@,
        Ask::WithdrawUnbonded { position } => position@,
        Ask::Vote { proposal, stake_account, choice } => if role == Role::Proposal {
            proposal@
        } else {
            stake_account@
        },
        Ask::Finalize { proposal } => proposal@,
        Ask::Execute { proposal, registry } => proposal@,
        Ask::Deploy { program, module, entry_point } => program@,
    }
}

/// The request is a vote with a choice that there is not.
pub open spec fn has_no_choice(ask: Ask) -> bool {
    match ask {
        Ask::Vote { proposal, stake_account, choice } => choice > 2,
        _ => false,
    }
}

fn named(text: &str, role: Role) -> (key: Result<Pubkey, AskError>)
    ensures
        match key {
            Ok(k) => address_named(text@) == Some(k),
            Err(e) => address_named(text@) is None && (e matches AskError::Address(a) && a.role
                == role && is_reason(a.reason, text@)),
        },
{
    match parse_address(text, role) {
        Ok(k) => Ok(k),
        Err(e) => Err(AskError::Address(e)),
    }
}

/// The call that a request comes to.
pub fn request_instruction(payer: Pubkey, ask: Ask) -> (call: Result<Instruction, AskError>)
    ensures
        match call {
            Ok(i) => !has_no_choice(ask) && wanted(payer, ask) == Ok::<InstructionData, Role>(i@),
            Err(AskError::Choice) => has_no_choice(ask),
            Err(AskError::Address(e)) => {
                &&& !has_no_choice(ask)
                &&& wanted(payer, ask) == Err::<InstructionData, Role>(e.role)
                &&& is_reason(e.reason, typed_for(ask, e.role))
            },
            Err(_) => false,
        },
{
    let system = Pubkey::system_program_id();
    let staking = known(STAKING_PROGRAM);
    let governance = known(GOVERNANCE_PROGRAM);
    let call = match ask {
        Ask::Transfer { to, amount } => {
            let k = match named(to, Role::Destination) {
                Ok(k) => k,
                Err(e) => return Err(e),
            };
            Instruction {
                program_id: system,
                accounts: vec![payer, k],
                data: transfer_instruction_data(amount),
            }
        },
        Ask::Delegate { validator, amount, stake_account } => {
            let v = match named(validator, Role::Validator) {
                Ok(k) => k,
                Err(e) => return Err(e),
            };
            let k = match named(stake_account, Role::StakeAccount) {
                Ok(k) => k,
                Err(e) => return Err(e),
            };
            Instruction {
                program_id: staking,
                accounts: vec![payer, k, known(STAKING_STATS), known(REWARDS_POOL)],
                data: delegate_instruction_data(&v.0, amount),
            }
        },
        Ask::Undelegate { stake_account } => {
            let k = match named(stake_account, Role::StakeAccount) {
                Ok(k) => k,
                Err(e) => return Err(e),
            };
            Instruction {
                program_id: staking,
                accounts: vec![k, known(STAKING_STATS), known(REWARDS_POOL)],
                data: vec![1u8],
            }
        },
        Ask::ClaimReward { stake_account } => {
            let k = match named(stake_account, Role::StakeAccount) {
                Ok(k) => k,
                Err(e) => return Err(e),
            };
            Instruction {
                program_id: staking,
                accounts: vec![k, known(REWARDS_POOL)],
                data: vec![2u8],
            }
        },
        Ask::Stake { position, amount } => {
            let k = match named(position, Role::Position) {
                Ok(k) => k,
                Err(e) => return Err(e),
            };
            Instruction {
                program_id: staking,
                accounts: vec![payer, k, known(STAKING_GLOBAL), known(STAKING_RESERVE)],
                data: amount_data(0, amount),
            }
        },
        Ask::IncreaseStake { position, amount } => {
            let k = match named(position, Role::Position) {
                Ok(k) => k,
                Err(e) => return Err(e),
            };
            Instruction {
                program_id: staking,
                accounts: vec![payer, k, known(STAKING_GLOBAL), known(STAKING_RESERVE)],
                data: amount_data(1, amount),
            }
        },
        Ask::BeginUnstake { position, amount } => {
            let k = match named(position, Role::Position) {
                Ok(k) => k,
                Err(e) => return Err(e),
            };
            Instruction {
                program_id: staking,
                accounts: vec![
                    payer,
                    k,
                    known(STAKING_GLOBAL),
                    known(STAKING_RESERVE),
                    known(UNBONDING_POOL),
                ],
                data: amount_data(2, amount),
            }
        },
        Ask::WithdrawUnbonded { position } => {
            let k = match named(position, Role::Position) {
                Ok(k) => k,
                Err(e) => return Err(e),
            };
            Instruction {
                program_id: staking,
                accounts: vec![payer, k, known(UNBONDING_POOL), known(STAKING_GLOBAL)],
                data: vec![3u8],
            }
        },
        Ask::Vote { proposal, stake_account, choice } => {
            if choice > 2 {
                return Err(AskError::Choice);
            }
            let p = match named(proposal, Role::Proposal) {
                Ok(k) => k,
                Err(e) => return Err(e),
            };
            let k = match named(stake_account, Role::StakeAccount) {
                Ok(k) => k,
                Err(e) => return Err(e),
            };
            Instruction { program_id: governance, accounts: vec![p, k], data: vec![1u8, choice] }
        },
        Ask::Finalize { proposal } => {
            let k = match named(proposal, Role::Proposal) {
                Ok(k) => k,
                Err(e) => return Err(e),
            };
            Instruction {
                program_id: governance,
                accounts: vec![k, known(STAKING_STATS)],
                data: vec![2u8],
            }
        },
        Ask::Execute { proposal, registry } => {
            let k = match named(proposal, Role::Proposal) {
                Ok(k) => k,
                Err(e) => return Err(e),
            };
            let target = if registry {
                known(REGISTRY_ACCOUNT)
            } else {
                known(PARAMS_ACCOUNT)
            };
            Instruction { program_id: governance, accounts: vec![k, target], data: vec![3u8] }
        },
        Ask::Deploy { program, module, entry_point } => {
            let k = match named(program, Role::Program) {
                Ok(k) => k,
                Err(e) => return Err(e),
            };
            Instruction {
                program_id: system,
                accounts: vec![k],
                data: deploy_program_instruction_data(module, entry_point),
            }
        },
    };
    proof {
        let w = wanted(payer, ask)->Ok_0;
        assert(call.accounts@ =~= w.accounts);
        assert(call.data@ =~= w.data);
        assert(call@ =~= w);
    }
    Ok(call)
}

/// The number as a machine word: a negative one counts from the top.
pub open spec fn word_of(n: i64) -> nat {
    if n < 0 {
        (n + 0x1_0000_0000_0000_0000) as nat
    } else {
        n as nat
    }
}

/// The addresses that all the texts name, or the place of the first that names none.
pub open spec fn addresses_in(list: Seq<Seq<char>>) -> Result<Seq<Pubkey>, int>
    decreases list.len(),
{
    if list.len() == 0 {
        Ok(Seq::empty())
    } else {
        match addresses_in(list.drop_last()) {
            Err(i) => Err(i),
            Ok(keys) => match address_named(list.last()) {
                Some(k) => Ok(keys.push(k)),
                None => Err(list.len() - 1),
            },
        }
    }
}

/// The words of all the numbers, or the place of the first text that is none.
pub open spec fn words_in(list: Seq<Seq<char>>) -> Result<Seq<u8>, int>
    decreases list.len(),
{
    if list.len() == 0 {
        Ok(Seq::empty())
    } else {
        match words_in(list.drop_last()) {
            Err(i) => Err(i),
            Ok(bytes) => match signed_number_in(list.last()) {
                Some(n) => Ok(bytes + le_bytes(word_of(n), 8)),
                None => Err(list.len() - 1),
            },
        }
    }
}

proof fn lemma_first_error(list: Seq<Seq<char>>, i: int)
    requires
        0 <= i <= list.len(),
    ensures
        addresses_in(list.take(i)) is Err ==> addresses_in(list) == addresses_in(list.take(i)),
        words_in(list.take(i)) is Err ==> words_in(list) == words_in(list.take(i)),
    decreases list.len() - i,
{
    if i < list.len() {
        lemma_first_error(list, i + 1);
        assert(list.take(i + 1).drop_last() =~= list.take(i));
    } else {
        assert(list.take(i) =~= list);
    }
}

/// A call of a program with the accounts and the numbers that were typed, separated by
/// commas.
pub fn call_instruction(program_id: &str, accounts_csv: &str, args_csv: &str) -> (call: Result<
    Instruction,
    AskError,
>)
    ensures
        match address_named(program_id@) {
            None => call matches Err(AskError::Address(e)) && e.role == Role::Program && is_reason(
                e.reason,
                program_id@,
            ),
            Some(program) => match addresses_in(comma_parts(accounts_csv@)) {
                Err(i) => call matches Err(AskError::CallAccount(a, reason)) && a@ == comma_parts(
                    accounts_csv@,
                )[i] && is_reason(reason, a@),
                Ok(accounts) => match words_in(comma_parts(args_csv@)) {
                    Err(i) => call matches Err(AskError::CallArgument(a, fault)) && a@
                        == comma_parts(args_csv@)[i] && number_fault(a@) == Some(fault),
                    Ok(data) => call matches Ok(c) && c@ == call_of(program, accounts, data),
                },
            },
        },
{
    let program = match named(program_id, Role::Program) {
        Ok(k) => k,
        Err(e) => return Err(e),
    };
    let names = split_at_commas(accounts_csv);
    let ghost parts = comma_parts(accounts_csv@);
    let mut accounts: Vec<Pubkey> = Vec::new();
    let mut i: usize = 0;
    proof {
        assert(parts.take(0) =~= Seq::empty());
        assert(accounts@ =~= Seq::empty());
    }
    while i < names.len()
        invariant
            i <= names@.len(),
            texts(names@) == parts,
            parts == comma_parts(accounts_csv@),
            address_named(program_id@) == Some(program),
            addresses_in(parts.take(i as int)) == Ok::<Seq<Pubkey>, int>(accounts@),
        decreases names@.len() - i,
    {
        proof {
            let t = parts.take(i + 1);
            assert(t.drop_last() =~= parts.take(i as int));
            assert(t.last() == names@[i as int]@);
            lemma_first_error(parts, i + 1);
        }
        match parse_address(names[i].as_str(), Role::Account) {
            Ok(k) => {
                accounts.push(k);
            },
            Err(e) => {
                return Err(AskError::CallAccount(names[i].clone(), e.reason));
            },
        }
        i += 1;
    }
    proof {
        assert(parts.take(parts.len() as int) =~= parts);
    }
    let args = split_at_commas(args_csv);
    let ghost numbers = comma_parts(args_csv@);
    let mut data: Vec<u8> = Vec::new();
    let mut j: usize = 0;
    proof {
        assert(numbers.take(0) =~= Seq::empty());
        assert(data@ =~= Seq::empty());
    }
    while j < args.len()
        invariant
            j <= args@.len(),
            texts(args@) == numbers,
            numbers == comma_parts(args_csv@),
            address_named(program_id@) == Some(program),
            addresses_in(comma_parts(accounts_csv@)) == Ok::<Seq<Pubkey>, int>(accounts@),
            words_in(numbers.take(j as int)) == Ok::<Seq<u8>, int>(data@),
        decreases args@.len() - j,
    {
        proof {
            let t = numbers.take(j + 1);
            assert(t.drop_last() =~= numbers.take(j as int));
            assert(t.last() == args@[j as int]@);
            lemma_first_error(numbers, j + 1);
        }
        match parse_signed_number(args[j].as_str()) {
            Some(n) => {
                let word: u64 = if n < 0 {
                    (n as i128 + 0x1_0000_0000_0000_0000) as u64
                } else {
                    n as u64
                };
                let mut bytes = le_encode(word, 8);
                data.append(&mut bytes);
            },
            None => {
                proof {
                    law_faults_are_no_numbers(args@[j as int]@);
                }
                let fault = match find_number_fault(args[j].as_str()) {
                    Some(f) => f,
                    None => NumberFault::Empty,
                };
                return Err(AskError::CallArgument(args[j].clone(), fault));
            },
        }
        j += 1;
    }
    proof {
        assert(numbers.take(numbers.len() as int) =~= numbers);
    }
    let call = Instruction { program_id: program, accounts, data };
    proof {
        assert(call@ =~= call_of(program, accounts@, data@));
    }
    Ok(call)
}

} // verus!
