//! What the requests of a wallet say, byte by byte: a program that reads them finds what was
//! asked for.
use crate::codec::{
    filled, le_bytes, le_value, lemma_le_bytes_len, lemma_le_round_trip, lemma_pow256,
};
use crate::pubkey::{Pubkey, PubkeyError};
use crate::text::{signed_number_in, NumberFault};
use crate::transaction::InstructionData;
use crate::wallet_derive::{address_named, AddressError, Role};
use crate::wallet_requests::{
    addresses_in, delegate_bytes, deploy_bytes, has_no_choice, kind_and_amount, typed_for, wanted,
    word_of, words_in, Ask, AskError,
};
use vstd::prelude::*;
use vstd::string::*;
use vstd::utf8::*;

verus! {

/// Every byte of the address is `b`.
pub open spec fn all_bytes_are(key: Pubkey, b: u8) -> bool {
    forall|i: int| 0 <= i < 32 ==> #[trigger] key.0@[i] == b
}

/// The data are a kind and an amount, in eight bytes, least significant first.
pub open spec fn says_amount(data: Seq<u8>, kind: u8, amount: u64) -> bool {
    &&& data.len() == 9
    &&& data[0] == kind
    &&& le_value(data.subrange(1, 9)) == amount
}

proof fn lemma_says_amount(kind: u8, amount: u64)
    ensures
        says_amount(kind_and_amount(kind, amount), kind, amount),
{
    lemma_le_bytes_len(amount as nat, 8);
    lemma_pow256();
    lemma_le_round_trip(amount as nat, 8);
    assert(kind_and_amount(kind, amount).subrange(1, 9) =~= le_bytes(amount as nat, 8));
}

proof fn lemma_filled(b: u8)
    ensures
        all_bytes_are(Pubkey(filled(b)), b),
{
}

/// A transfer calls the system program with the payer and the receiver, and its data tell the
/// amount. It is made where the receiver's address is one.
pub proof fn law_transfer_says_who_and_how_much(payer: Pubkey, ask: Ask)
    ensures
        ask matches Ask::Transfer { to, amount } ==> match address_named(to@) {
            None => wanted(payer, ask) == Err::<InstructionData, Role>(Role::Destination),
            Some(k) => wanted(payer, ask) matches Ok(call) && {
                &&& all_bytes_are(call.program_id, 0)
                &&& call.accounts == seq![payer, k]
                &&& says_amount(call.data, 1, amount)
            },
        },
{
    if let Ask::Transfer { to, amount } = ask {
        lemma_says_amount(1, amount);
        lemma_filled(0);
    }
}

/// A delegation calls the staking program with the payer, the new stake account and the two
/// accounts of that program, and its data tell the validator and the amount. What is taken
/// back or claimed calls the same program with the stake account.
pub proof fn law_delegations_say_who_and_how_much(payer: Pubkey, ask: Ask)
    ensures
        ask matches Ask::Delegate { validator, amount, stake_account } ==> match address_named(
            validator@,
        ) {
            None => wanted(payer, ask) == Err::<InstructionData, Role>(Role::Validator),
            Some(v) => match address_named(stake_account@) {
                None => wanted(payer, ask) == Err::<InstructionData, Role>(Role::StakeAccount),
                Some(k) => wanted(payer, ask) matches Ok(call) && {
                    &&& all_bytes_are(call.program_id, 1)
                    &&& call.accounts.len() == 4
                    &&& call.accounts[0] == payer && call.accounts[1] == k
                    &&& all_bytes_are(call.accounts[2], 2)
                    &&& all_bytes_are(call.accounts[3], 6)
                    &&& call.data.len() == 41 && call.data[0] == 0
                    &&& call.data.subrange(1, 33) == v.0@
                    &&& le_value(call.data.subrange(33, 41)) == amount
                },
            },
        },
        ask matches Ask::Undelegate { stake_account } ==> match address_named(stake_account@) {
            None => wanted(payer, ask) == Err::<InstructionData, Role>(Role::StakeAccount),
            Some(k) => wanted(payer, ask) matches Ok(call) && {
                &&& all_bytes_are(call.program_id, 1)
                &&& call.accounts.len() == 3
                &&& call.accounts[0] == k
                &&& all_bytes_are(call.accounts[1], 2)
                &&& all_bytes_are(call.accounts[2], 6)
                &&& call.data == seq![1u8]
            },
        },
        ask matches Ask::ClaimReward { stake_account } ==> match address_named(stake_account@) {
            None => wanted(payer, ask) == Err::<InstructionData, Role>(Role::StakeAccount),
            Some(k) => wanted(payer, ask) matches Ok(call) && {
                &&& all_bytes_are(call.program_id, 1)
                &&& call.accounts.len() == 2
                &&& call.accounts[0] == k
                &&& all_bytes_are(call.accounts[1], 6)
                &&& call.data == seq![2u8]
            },
        },
{
    if let Ask::Delegate { validator, amount, stake_account } = ask {
        if let Some(v) = address_named(validator@) {
            let data = delegate_bytes(v, amount);
            lemma_le_bytes_len(amount as nat, 8);
            lemma_pow256();
            lemma_le_round_trip(amount as nat, 8);
            assert(data.subrange(1, 33) =~= v.0@);
            assert(data.subrange(33, 41) =~= le_bytes(amount as nat, 8));
        }
    }
    lemma_filled(1);
    lemma_filled(2);
    lemma_filled(6);
}

/// The four calls of a staking position tell what is done by their first byte, 0 to 3, and the
/// first three how much; each names the payer, the position and the accounts of the staking
/// program that the money goes through.
pub proof fn law_positions_say_how_much(payer: Pubkey, ask: Ask)
    ensures
        ask matches Ask::Stake { position, amount } ==> match address_named(position@) {
            None => wanted(payer, ask) == Err::<InstructionData, Role>(Role::Position),
            Some(k) => wanted(payer, ask) matches Ok(call) && {
                &&& all_bytes_are(call.program_id, 1)
                &&& call.accounts.len() == 4
                &&& call.accounts[0] == payer && call.accounts[1] == k
                &&& all_bytes_are(call.accounts[2], 15)
                &&& all_bytes_are(call.accounts[3], 11)
                &&& says_amount(call.data, 0, amount)
            },
        },
        ask matches Ask::IncreaseStake { position, amount } ==> match address_named(position@) {
            None => wanted(payer, ask) == Err::<InstructionData, Role>(Role::Position),
            Some(k) => wanted(payer, ask) matches Ok(call) && {
                &&& all_bytes_are(call.program_id, 1)
                &&& call.accounts.len() == 4
                &&& call.accounts[0] == payer && call.accounts[1] == k
                &&& all_bytes_are(call.accounts[2], 15)
                &&& all_bytes_are(call.accounts[3], 11)
                &&& says_amount(call.data, 1, amount)
            },
        },
        ask matches Ask::BeginUnstake { position, amount } ==> match address_named(position@) {
            None => wanted(payer, ask) == Err::<InstructionData, Role>(Role::Position),
            Some(k) => wanted(payer, ask) matches Ok(call) && {
                &&& all_bytes_are(call.program_id, 1)
                &&& call.accounts.len() == 5
                &&& call.accounts[0] == payer && call.accounts[1] == k
                &&& all_bytes_are(call.accounts[2], 15)
                &&& all_bytes_are(call.accounts[3], 11)
                &&& all_bytes_are(call.accounts[4], 13)
                &&& says_amount(call.data, 2, amount)
            },
        },
        ask matches Ask::WithdrawUnbonded { position } ==> match address_named(position@) {
            None => wanted(payer, ask) == Err::<InstructionData, Role>(Role::Position),
            Some(k) => wanted(payer, ask) matches Ok(call) && {
                &&& all_bytes_are(call.program_id, 1)
                &&& call.accounts.len() == 4
                &&& call.accounts[0] == payer && call.accounts[1] == k
                &&& all_bytes_are(call.accounts[2], 13)
                &&& all_bytes_are(call.accounts[3], 15)
                &&& call.data == seq![3u8]
            },
        },
{
    match ask {
        Ask::Stake { position, amount } => lemma_says_amount(0, amount),
        Ask::IncreaseStake { position, amount } => lemma_says_amount(1, amount),
        Ask::BeginUnstake { position, amount } => lemma_says_amount(2, amount),
        _ => {},
    }
    lemma_filled(1);
    lemma_filled(11);
    lemma_filled(13);
    lemma_filled(15);
}

/// A vote is cast as it was chosen: its data are the kind of a vote and the choice that was
/// asked for, and the call names the proposal and the stake account. There are three choices.
/// Counting and carrying out are calls of the same program on the proposal, the latter with the
/// registry of algorithms or with the economic parameters, as was asked.
pub proof fn law_votes_say_what_was_chosen(payer: Pubkey, ask: Ask)
    ensures
        has_no_choice(ask) <==> (ask matches Ask::Vote { proposal, stake_account, choice } && choice
            != 0 && choice != 1 && choice != 2),
        ask matches Ask::Vote { proposal, stake_account, choice } ==> match address_named(
            proposal@,
        ) {
            None => wanted(payer, ask) == Err::<InstructionData, Role>(Role::Proposal),
            Some(p) => match address_named(stake_account@) {
                None => wanted(payer, ask) == Err::<InstructionData, Role>(Role::StakeAccount),
                Some(k) => wanted(payer, ask) matches Ok(call) && {
                    &&& all_bytes_are(call.program_id, 3)
                    &&& call.accounts.len() == 2
                    &&& call.accounts[0] == p && call.accounts[1] == k
                    &&& call.data.len() == 2
                    &&& call.data[0] == 1
                    &&& call.data[1] == choice
                },
            },
        },
        ask matches Ask::Finalize { proposal } ==> match address_named(proposal@) {
            None => wanted(payer, ask) == Err::<InstructionData, Role>(Role::Proposal),
            Some(p) => wanted(payer, ask) matches Ok(call) && {
                &&& all_bytes_are(call.program_id, 3)
                &&& call.accounts.len() == 2
                &&& call.accounts[0] == p && all_bytes_are(call.accounts[1], 2)
                &&& call.data == seq![2u8]
            },
        },
        ask matches Ask::Execute { proposal, registry } ==> match address_named(proposal@) {
            None => wanted(payer, ask) == Err::<InstructionData, Role>(Role::Proposal),
            Some(p) => wanted(payer, ask) matches Ok(call) && {
                &&& all_bytes_are(call.program_id, 3)
                &&& call.accounts.len() == 2
                &&& call.accounts[0] == p
                &&& registry ==> all_bytes_are(call.accounts[1], 4)
                &&& !registry ==> all_bytes_are(call.accounts[1], 5)
                &&& call.data == seq![3u8]
            },
        },
{
    lemma_filled(2);
    lemma_filled(3);
    lemma_filled(4);
    lemma_filled(5);
}

/// Two votes with the same data are the same choice, whatever they are on.
pub proof fn law_choices_are_told_apart(
    payer: Pubkey,
    a: Ask,
    b: Ask,
    first: InstructionData,
    second: InstructionData,
)
    requires
        a is Vote,
        b is Vote,
        wanted(payer, a) == Ok::<InstructionData, Role>(first),
        wanted(payer, b) == Ok::<InstructionData, Role>(second),
        first.data == second.data,
    ensures
        a->choice == b->choice,
{
    law_votes_say_what_was_chosen(payer, a);
    law_votes_say_what_was_chosen(payer, b);
}

/// A deployment calls the system program with the new program's account, and its data hold the
/// module and the name of its entry point, each behind its length.
pub proof fn law_deployments_hold_the_module(payer: Pubkey, ask: Ask)
    ensures
        ask matches Ask::Deploy { program, module, entry_point } ==> match address_named(program@) {
            None => wanted(payer, ask) == Err::<InstructionData, Role>(Role::Program),
            Some(k) => wanted(payer, ask) matches Ok(call) && {
                let n = module@.len() as int;
                let name = encode_utf8(entry_point@);
                &&& all_bytes_are(call.program_id, 0)
                &&& call.accounts == seq![k]
                &&& call.data.len() == 9 + n + name.len()
                &&& call.data[0] == 2
                &&& n <= u32::MAX ==> le_value(call.data.subrange(1, 5)) == n
                &&& call.data.subrange(5, 5 + n) == module@
                &&& name.len() <= u32::MAX ==> le_value(call.data.subrange(5 + n, 9 + n))
                    == name.len()
                &&& call.data.subrange(9 + n, call.data.len() as int) == name
            },
        },
{
    if let Ask::Deploy { program, module, entry_point } = ask {
        let n = module@.len() as int;
        let name = encode_utf8(entry_point@);
        let data = deploy_bytes(module@, name);
        lemma_le_bytes_len(n as nat, 4);
        lemma_le_bytes_len(name.len(), 4);
        lemma_pow256();
        assert(data.subrange(1, 5) =~= le_bytes(n as nat, 4));
        assert(data.subrange(5, 5 + n) =~= module@);
        assert(data.subrange(5 + n, 9 + n) =~= le_bytes(name.len(), 4));
        assert(data.subrange(9 + n, data.len() as int) =~= name);
        if n <= u32::MAX {
            lemma_le_round_trip(n as nat, 4);
        }
        if name.len() <= u32::MAX {
            lemma_le_round_trip(name.len(), 4);
        }
        lemma_filled(0);
    }
}

/// The accounts of a call are those that were typed, in their order; where one is no address,
/// the first such is the one that is named.
pub proof fn law_call_accounts_are_those_typed(list: Seq<Seq<char>>)
    ensures
        match addresses_in(list) {
            Ok(keys) => keys.len() == list.len() && forall|i: int|
                0 <= i < list.len() ==> address_named(#[trigger] list[i]) == Some(keys[i]),
            Err(i) => 0 <= i < list.len() && address_named(list[i]) is None && forall|j: int|
                0 <= j < i ==> address_named(#[trigger] list[j]) is Some,
        },
    decreases list.len(),
{
    if list.len() > 0 {
        let rest = list.drop_last();
        law_call_accounts_are_those_typed(rest);
        assert forall|i: int| 0 <= i < rest.len() implies rest[i] == #[trigger] list[i] by {}
        if let Ok(keys) = addresses_in(rest) {
            if let Some(k) = address_named(list.last()) {
                let all = keys.push(k);
                assert forall|i: int| 0 <= i < list.len() implies address_named(
                    #[trigger] list[i],
                ) == Some(all[i]) by {
                    if i < rest.len() {
                        assert(rest[i] == list[i]);
                    }
                }
            } else {
                assert forall|j: int| 0 <= j < list.len() - 1 implies address_named(
                    #[trigger] list[j],
                ) is Some by {
                    assert(rest[j] == list[j]);
                }
            }
        } else {
            let i = addresses_in(rest)->Err_0;
            assert(rest[i] == list[i]);
            assert forall|j: int| 0 <= j < i implies address_named(#[trigger] list[j]) is Some by {
                assert(rest[j] == list[j]);
            }
        }
    }
}

/// The arguments of a call are the numbers that were typed, in their order, eight bytes each,
/// negative ones counted from the top; where a text is no number, the first such is the one
/// that is named.
pub proof fn law_call_arguments_are_those_typed(list: Seq<Seq<char>>)
    ensures
        match words_in(list) {
            Ok(bytes) => bytes.len() == 8 * list.len() && forall|i: int|
                0 <= i < list.len() ==> (signed_number_in(#[trigger] list[i]) matches Some(n) && (
                le_value(bytes.subrange(8 * i, 8 * i + 8)) - n) % 0x1_0000_0000_0000_0000 == 0),
            Err(i) => 0 <= i < list.len() && signed_number_in(list[i]) is None && forall|j: int|
                0 <= j < i ==> signed_number_in(#[trigger] list[j]) is Some,
        },
    decreases list.len(),
{
    if list.len() > 0 {
        let rest = list.drop_last();
        law_call_arguments_are_those_typed(rest);
        assert forall|i: int| 0 <= i < rest.len() implies rest[i] == #[trigger] list[i] by {}
        if let Ok(bytes) = words_in(rest) {
            if let Some(n) = signed_number_in(list.last()) {
                let word = le_bytes(word_of(n), 8);
                let all = bytes + word;
                lemma_le_bytes_len(word_of(n), 8);
                lemma_pow256();
                lemma_le_round_trip(word_of(n), 8);
                assert forall|i: int| 0 <= i < list.len() implies (signed_number_in(
                    #[trigger] list[i],
                ) matches Some(m) && (le_value(all.subrange(8 * i, 8 * i + 8)) - m)
                    % 0x1_0000_0000_0000_0000 == 0) by {
                    if i < rest.len() {
                        assert(rest[i] == list[i]);
                        assert(all.subrange(8 * i, 8 * i + 8) =~= bytes.subrange(8 * i, 8 * i + 8));
                    } else {
                        assert(all.subrange(8 * i, 8 * i + 8) =~= word);
                    }
                }
            } else {
                assert forall|j: int| 0 <= j < list.len() - 1 implies signed_number_in(
                    #[trigger] list[j],
                ) is Some by {
                    assert(rest[j] == list[j]);
                }
            }
        } else {
            let i = words_in(rest)->Err_0;
            assert(rest[i] == list[i]);
            assert forall|j: int| 0 <= j < i implies signed_number_in(#[trigger] list[j]) is Some by {
                assert(rest[j] == list[j]);
            }
        }
    }
}

/// How requests that cannot be made are told.
pub proof fn law_unmade_requests_are_told(
    e: AddressError,
    a: String,
    reason: PubkeyError,
    fault: NumberFault,
)
    ensures
        AskError::Address(e).said() == e.role.complaint() + e.reason.said(),
        AskError::Choice.said() == "vote choice must be 0=Yes, 1=No, or 2=Abstain"@,
        AskError::CallAccount(a, reason).said() == "account address '"@ + a@ + "' invalid: "@
            + reason.said(),
        AskError::CallArgument(a, fault).said() == "arg '"@ + a@ + "' is not an i64: "@
            + fault.said(),
{
}

/// What was typed for the address that is told to be none.
pub proof fn law_typed_addresses_are_told(ask: Ask)
    ensures
        match ask {
            Ask::Transfer { to, amount } => typed_for(ask, Role::Destination) == to@,
            Ask::Delegate { validator, amount, stake_account } => typed_for(ask, Role::Validator)
                == validator@ && typed_for(ask, Role::StakeAccount) == stake_account@,
            Ask::Undelegate { stake_account } => typed_for(ask, Role::StakeAccount)
                == stake_account@,
            Ask::ClaimReward { stake_account } => typed_for(ask, Role::StakeAccount)
                == stake_account@,
            Ask::Stake { position, amount } => typed_for(ask, Role::Position) == position@,
            Ask::IncreaseStake { position, amount } => typed_for(ask, Role::Position) == position@,
            Ask::BeginUnstake { position, amount } => typed_for(ask, Role::Position) == position@,
            Ask::WithdrawUnbonded { position } => typed_for(ask, Role::Position) == position@,
            Ask::Vote { proposal, stake_account, choice } => typed_for(ask, Role::Proposal)
                == proposal@ && typed_for(ask, Role::StakeAccount) == stake_account@,
            Ask::Finalize { proposal } => typed_for(ask, Role::Proposal) == proposal@,
            Ask::Execute { proposal, registry } => typed_for(ask, Role::Proposal) == proposal@,
            Ask::Deploy { program, module, entry_point } => typed_for(ask, Role::Program)
                == program@,
        },
{
}

} // verus!
