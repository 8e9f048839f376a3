//! What the ledger owes its users: who pays what, what each program does with an account, and
//! what staking earns.
use crate::account::{
    wallet, AccountData, BASE_FEE_UNITS, DUST_THRESHOLD_UNITS, STAKING_RESERVE_UNITS,
    TOTAL_SUPPLY_UNITS, TREASURY_ALLOCATION_UNITS, UNITS_PER_SSOL,
};
use crate::codec::{filled, le_value, lemma_le_value_round_trip};
use crate::decode::{decode_words, DecodeError};
use crate::ledger::{
    applied, charged, failure_words, run_all, saturated, with_balance, with_wallet, Program,
    TxFailure,
};
use crate::memo_program::{memo_outcome, memo_program};
use crate::programs::are_default_programs;
use crate::pubkey::{base58, lemma_key_at, system_program, Pubkey};
use crate::request_laws::all_bytes_are;
use crate::rewards::{
    lemma_share, lemma_total_of_nothing, lemma_two_in_total, payout, rewarded, rewards, share_of,
    stakes,
};
use crate::stake::{stake_error, stake_program};
use crate::stake_program::{stake_outcome, stake_request_error};
use crate::supply::{
    disbursed, lemma_balance_in_total, lemma_total_insert, lemma_total_remove, total,
};
use crate::system_program::{system_error, system_outcome, transferred};
use crate::text::decimal;
use crate::transaction::{transaction_good, InstructionData, Transaction};
use vstd::prelude::*;

verus! {

/// The accounts of a ledger.
pub type Books = Map<[u8; 32], AccountData>;

/// What an address holds: nothing where it has no account.
pub open spec fn held(m: Books, key: Pubkey) -> int {
    if m.contains_key(key.0) {
        m[key.0].balance as int
    } else {
        0
    }
}

/// The address has an account with this balance. It is the one that it had, but for the
/// balance, or a fresh one: of the system program, without data, not to be called.
pub open spec fn now_holds(m: Books, after: Books, key: Pubkey, balance: int) -> bool {
    &&& after.contains_key(key.0)
    &&& after[key.0].balance == balance
    &&& if m.contains_key(key.0) {
        &&& after[key.0].owner == m[key.0].owner
        &&& after[key.0].data == m[key.0].data
        &&& after[key.0].executable == m[key.0].executable
    } else {
        &&& all_bytes_are(after[key.0].owner, 0)
        &&& after[key.0].data.len() == 0
        &&& !after[key.0].executable
    }
}

/// All other accounts are as they were.
pub open spec fn others_stay(m: Books, after: Books, a: Pubkey, b: Pubkey) -> bool {
    forall|k: [u8; 32]|
        k != a.0 && k != b.0 ==> (#[trigger] after.contains_key(k) <==> m.contains_key(k)) && (
        m.contains_key(k) ==> after[k] == m[k])
}

/// The amounts that the ledger goes by.
pub proof fn law_amounts_of_the_ledger()
    ensures
        UNITS_PER_SSOL == 1_000_000_000,
        BASE_FEE_UNITS == 500,
        DUST_THRESHOLD_UNITS == 10_000,
        TOTAL_SUPPLY_UNITS == 700_000_000_000_000_000,
        STAKING_RESERVE_UNITS == 70_000_000_000_000_000,
        TREASURY_ALLOCATION_UNITS == 630_000_000_000_000_000,
{
}

/// The addresses of the built-in programs.
pub proof fn law_programs_have_their_addresses()
    ensures
        all_bytes_are(system_program(), 0),
        all_bytes_are(memo_program(), 1),
        all_bytes_are(stake_program(), 3),
{
}

/// A fresh account holds nothing, belongs to its owner, has no data and is not to be called.
pub proof fn law_accounts_start_empty(owner: Pubkey)
    ensures
        wallet(owner).balance == 0,
        wallet(owner).owner == owner,
        wallet(owner).data.len() == 0,
        !wallet(owner).executable,
{
}

/// A transaction is refused without a trace where its signature is not good. Where the payer
/// holds less than the fee it is refused too, and no balance changes.
pub proof fn law_transactions_are_refused(
    m: Books,
    tx: Transaction,
    programs: Map<[u8; 32], Program>,
    collector: Pubkey,
    fee: u64,
)
    ensures
        ({
            let r = applied(m, tx, programs, collector, fee);
            let payer = tx.message.payer;
            &&& (r.1 is Some && r.1->0 is InvalidSignature && r.0 == m) || transaction_good(tx)
            &&& transaction_good(tx) && held(m, payer) < fee ==> {
                &&& r.1 matches Some(f) && f is InsufficientFunds
                &&& now_holds(m, r.0, payer, held(m, payer))
                &&& others_stay(m, r.0, payer, payer)
            }
        }),
{
}

/// The books after the fee and nothing else: the payer is poorer and the collector richer by
/// it, unless they are the same.
pub open spec fn fee_was_paid(m: Books, after: Books, payer: Pubkey, collector: Pubkey, fee: u64) -> bool {
    &&& others_stay(m, after, payer, collector)
    &&& if payer == collector {
        now_holds(m, after, payer, held(m, payer))
    } else {
        &&& now_holds(m, after, payer, held(m, payer) - fee)
        &&& now_holds(m, after, collector, held(m, collector) + fee)
    }
}

/// A good transaction whose payer can pay pays the fee, whatever becomes of its instructions.
/// It succeeds exactly where all of them do, on the books after the fee, and then leaves what
/// they leave; where one fails, the fee is all that happened.
pub proof fn law_transactions_are_carried_out(
    m: Books,
    tx: Transaction,
    programs: Map<[u8; 32], Program>,
    collector: Pubkey,
    fee: u64,
) -> (paid: Books)
    requires
        transaction_good(tx),
        held(m, tx.message.payer) >= fee,
        held(m, collector) + fee <= u64::MAX,
    ensures
        fee_was_paid(m, paid, tx.message.payer, collector, fee),
        ({
            let r = applied(m, tx, programs, collector, fee);
            let run = run_all(programs, paid, tx.message@.instructions, tx.message.payer);
            &&& r.1 == run.1
            &&& r.1 is None ==> r.0 == run.0
            &&& r.1 is Some ==> r.0 == paid
        }),
{
    let payer = tx.message.payer;
    charged(with_wallet(m, payer), payer, collector, fee)
}

/// Instructions are carried out one after the other, each on what the one before it left, and
/// the first that fails ends them. One that names no program fails.
pub proof fn law_instructions_run_in_turn(
    programs: Map<[u8; 32], Program>,
    m: Books,
    first: InstructionData,
    rest: Seq<InstructionData>,
    payer: Pubkey,
)
    ensures
        run_all(programs, m, Seq::empty(), payer) == (m, None::<TxFailure>),
        !programs.contains_key(first.program_id.0) ==> run_all(
            programs,
            m,
            seq![first] + rest,
            payer,
        ) == (m, Some(TxFailure::UnknownProgram(first.program_id))),
        programs.contains_key(first.program_id.0) ==> {
            let done = programs[first.program_id.0].code.outcome(m, first, payer);
            &&& done.1 is Some ==> run_all(programs, m, seq![first] + rest, payer) == done
            &&& done.1 is None ==> run_all(programs, m, seq![first] + rest, payer) == run_all(
                programs,
                done.0,
                rest,
                payer,
            )
        },
{
    assert((seq![first] + rest).skip(1) =~= rest);
}

/// A transfer succeeds exactly where the sender has an account with the amount in it. It then
/// moves the amount, and a balance that would grow too large stops at the largest. To oneself
/// it changes nothing, and where it fails it changes nothing.
pub proof fn law_transfers_move_the_amount(m: Books, from: Pubkey, to: Pubkey, amount: u64)
    ensures
        ({
            let r = transferred(m, from, to, amount);
            &&& r.1 is None <==> m.contains_key(from.0) && m[from.0].balance >= amount
            &&& !m.contains_key(from.0) ==> r.1 == Some(TxFailure::AccountNotFound(from))
            &&& m.contains_key(from.0) && m[from.0].balance < amount ==> r.1 == Some(
                TxFailure::InsufficientFunds,
            )
            &&& r.1 is Some ==> r.0 == m
            &&& r.1 is None ==> {
                &&& others_stay(m, r.0, from, to)
                &&& from == to ==> now_holds(m, r.0, from, held(m, from))
                &&& from != to ==> now_holds(m, r.0, from, held(m, from) - amount)
                &&& from != to && held(m, to) + amount <= u64::MAX ==> now_holds(
                    m,
                    r.0,
                    to,
                    held(m, to) + amount,
                )
                &&& from != to && held(m, to) + amount > u64::MAX ==> now_holds(
                    m,
                    r.0,
                    to,
                    u64::MAX as int,
                )
            }
        }),
{
}

/// What the system program reads as a transfer: a one and an amount in eight bytes, with two
/// accounts. It moves the amount from the first to the second.
pub proof fn law_system_program_transfers(m: Books, i: InstructionData, payer: Pubkey)
    requires
        i.data.len() == 9,
        i.data[0] == 1,
        i.accounts.len() >= 2,
    ensures
        system_outcome(m, i, payer) == transferred(
            m,
            i.accounts[0],
            i.accounts[1],
            le_value(i.data.subrange(1, 9)) as u64,
        ),
        le_value(i.data.subrange(1, 9)) <= u64::MAX,
{
    lemma_le_value_round_trip(i.data.subrange(1, 9));
    crate::codec::lemma_pow256();
}

/// What the system program reads as the opening of an account: a zero, an amount in eight bytes
/// and an owner in thirty-two. The payer pays the amount into the first account, which, where it
/// was none, belongs to the owner.
pub proof fn law_system_program_opens_accounts(
    m: Books,
    i: InstructionData,
    payer: Pubkey,
    owner: Pubkey,
)
    requires
        i.data.subrange(9, 41) == owner.0@,
        i.data.len() == 41,
        i.data[0] == 0,
        i.accounts.len() >= 1,
        payer != i.accounts[0],
    ensures
        ({
            let r = system_outcome(m, i, payer);
            let fresh = i.accounts[0];
            let amount = le_value(i.data.subrange(1, 9)) as int;
            &&& r.1 is None <==> m.contains_key(payer.0) && m[payer.0].balance >= amount
            &&& r.1 is None ==> {
                &&& others_stay(m, r.0, payer, fresh)
                &&& now_holds(m, r.0, payer, held(m, payer) - amount)
                &&& r.0.contains_key(fresh.0)
                &&& r.0[fresh.0].balance == if held(m, fresh) + amount > u64::MAX {
                    u64::MAX as int
                } else {
                    held(m, fresh) + amount
                }
                &&& !m.contains_key(fresh.0) ==> {
                    &&& r.0[fresh.0].owner == owner
                    &&& r.0[fresh.0].data.len() == 0
                    &&& !r.0[fresh.0].executable
                }
                &&& m.contains_key(fresh.0) ==> {
                    &&& r.0[fresh.0].owner == m[fresh.0].owner
                    &&& r.0[fresh.0].data == m[fresh.0].data
                    &&& r.0[fresh.0].executable == m[fresh.0].executable
                }
            }
            &&& r.1 is Some && m.contains_key(fresh.0) ==> r.0 == m
        }),
{
    lemma_le_value_round_trip(i.data.subrange(1, 9));
    crate::codec::lemma_pow256();
    lemma_key_at(owner, i.data, 9);
}

/// What the system program does not understand, it says so and leaves the books alone.
pub proof fn law_system_program_says_why(m: Books, i: InstructionData, payer: Pubkey)
    ensures
        ({
            let r = system_outcome(m, i, payer);
            let d = i.data;
            &&& system_error(d) is None <==> (d.len() == 41 && d[0] == 0) || (d.len() == 9 && d[0]
                == 1)
            &&& d.len() == 0 ==> system_error(d) == Some(DecodeError::UnexpectedLength)
            &&& d.len() > 0 && d[0] > 1 ==> system_error(d) == Some(
                DecodeError::UnexpectedTag(d[0]),
            )
            &&& d.len() > 0 && ((d[0] == 0 && d.len() < 41) || (d[0] == 1 && d.len() < 9))
                ==> system_error(d) == Some(DecodeError::UnexpectedLength)
            &&& d.len() > 0 && ((d[0] == 0 && d.len() > 41) || (d[0] == 1 && d.len() > 9))
                ==> system_error(d) == Some(DecodeError::NotAllBytesRead)
            &&& system_error(d) matches Some(e) ==> r == (
                m,
                Some(TxFailure::ProgramError("bad instruction data: "@ + decode_words(e))),
            )
            &&& d.len() == 41 && d[0] == 0 && i.accounts.len() == 0 ==> r == (
                m,
                Some(TxFailure::ProgramError("CreateAccount requires accounts[0]"@)),
            )
            &&& d.len() == 9 && d[0] == 1 && i.accounts.len() == 0 ==> r == (
                m,
                Some(TxFailure::ProgramError("Transfer requires accounts[0]"@)),
            )
            &&& d.len() == 9 && d[0] == 1 && i.accounts.len() == 1 ==> r == (
                m,
                Some(TxFailure::ProgramError("Transfer requires accounts[1]"@)),
            )
        }),
{
}

/// The account is as it was, but for its data.
pub open spec fn only_data_changed(m: Books, after: Books, key: Pubkey) -> bool {
    &&& others_stay(m, after, key, key)
    &&& m.contains_key(key.0) && after.contains_key(key.0)
    &&& after[key.0].balance == m[key.0].balance
    &&& after[key.0].owner == m[key.0].owner
    &&& after[key.0].executable == m[key.0].executable
}

/// A memo puts its data into the first account, where that belongs to the memo program, and
/// otherwise says why not and changes nothing.
pub proof fn law_memos_are_kept(m: Books, i: InstructionData)
    ensures
        ({
            let r = memo_outcome(m, i);
            &&& r.1 is None <==> i.accounts.len() > 0 && m.contains_key(i.accounts[0].0)
                && all_bytes_are(m[i.accounts[0].0].owner, 1)
            &&& r.1 is None ==> {
                &&& only_data_changed(m, r.0, i.accounts[0])
                &&& r.0[i.accounts[0].0].data == i.data
            }
            &&& r.1 is Some ==> r.0 == m
            &&& i.accounts.len() == 0 ==> r.1 == Some(
                TxFailure::ProgramError("Memo requires accounts[0]"@),
            )
            &&& i.accounts.len() > 0 && !m.contains_key(i.accounts[0].0) ==> r.1 == Some(
                TxFailure::AccountNotFound(i.accounts[0]),
            )
            &&& i.accounts.len() > 0 && m.contains_key(i.accounts[0].0) && !all_bytes_are(
                m[i.accounts[0].0].owner,
                1,
            ) ==> r.1 == Some(TxFailure::ProgramError("account not owned by memo program"@))
        }),
{
    if i.accounts.len() > 0 && m.contains_key(i.accounts[0].0) {
        lemma_owner_is_told_by_its_bytes(m[i.accounts[0].0].owner, 1);
    }
}

proof fn lemma_owner_is_told_by_its_bytes(owner: Pubkey, b: u8)
    ensures
        all_bytes_are(owner, b) <==> owner == Pubkey(filled(b)),
{
    if all_bytes_are(owner, b) {
        assert(owner.0@ =~= filled(b)@);
        assert(owner.0 =~= filled(b));
    }
}

/// The data are those of a stake: who may move it, whom it backs, and a byte that is zero while
/// it is active and one after.
pub open spec fn is_stake(a: AccountData) -> bool {
    &&& all_bytes_are(a.owner, 3)
    &&& a.data.len() == 65
    &&& a.data[64] <= 1
}

/// Who may move the stake, and whom it backs, as its data tell.
pub open spec fn is_stake_of(a: AccountData, authority: Pubkey, validator: Pubkey) -> bool {
    &&& is_stake(a)
    &&& a.data.subrange(0, 32) == authority.0@
    &&& a.data.subrange(32, 64) == validator.0@
}

/// A stake is opened in the first account, where that belongs to the stake program: its data
/// are then the authority and the validator of the request and a zero.
pub proof fn law_stakes_are_opened(
    m: Books,
    i: InstructionData,
    payer: Pubkey,
    authority: Pubkey,
    validator: Pubkey,
)
    requires
        i.data.len() == 65,
        i.data.subrange(1, 33) == authority.0@,
        i.data.subrange(33, 65) == validator.0@,
        i.data[0] == 0,
    ensures
        ({
            let r = stake_outcome(m, i, payer);
            &&& r.1 is None <==> i.accounts.len() > 0 && m.contains_key(i.accounts[0].0)
                && all_bytes_are(m[i.accounts[0].0].owner, 3)
            &&& r.1 is None ==> {
                &&& only_data_changed(m, r.0, i.accounts[0])
                &&& r.0[i.accounts[0].0].data == authority.0@ + validator.0@ + seq![0u8]
            }
            &&& r.1 is Some ==> r.0 == m
            &&& i.accounts.len() == 0 ==> r.1 == Some(
                TxFailure::ProgramError("Initialize requires accounts[0]"@),
            )
            &&& i.accounts.len() > 0 && !m.contains_key(i.accounts[0].0) ==> r.1 == Some(
                TxFailure::AccountNotFound(i.accounts[0]),
            )
            &&& i.accounts.len() > 0 && m.contains_key(i.accounts[0].0) && !all_bytes_are(
                m[i.accounts[0].0].owner,
                3,
            ) ==> r.1 == Some(
                TxFailure::ProgramError("stake account not owned by the stake program"@),
            )
        }),
{
    lemma_key_at(authority, i.data, 1);
    lemma_key_at(validator, i.data, 33);
    if i.accounts.len() > 0 && m.contains_key(i.accounts[0].0) {
        lemma_owner_is_told_by_its_bytes(m[i.accounts[0].0].owner, 3);
    }
    let r = stake_outcome(m, i, payer);
    if r.1 is None {
        assert(r.0[i.accounts[0].0].data =~= authority.0@ + validator.0@ + seq![0u8]);
    }
}

/// A stake is deactivated by its authority alone: the byte at its end becomes one.
pub proof fn law_stakes_are_deactivated(
    m: Books,
    i: InstructionData,
    payer: Pubkey,
    authority: Pubkey,
    validator: Pubkey,
)
    requires
        i.accounts.len() > 0 && m.contains_key(i.accounts[0].0) && is_stake(m[i.accounts[0].0])
            ==> is_stake_of(m[i.accounts[0].0], authority, validator),
        i.data == seq![1u8],
    ensures
        ({
            let r = stake_outcome(m, i, payer);
            &&& r.1 is None <==> i.accounts.len() > 0 && m.contains_key(i.accounts[0].0)
                && is_stake(m[i.accounts[0].0]) && authority == payer
            &&& r.1 is None ==> {
                &&& only_data_changed(m, r.0, i.accounts[0])
                &&& r.0[i.accounts[0].0].data == m[i.accounts[0].0].data.update(64, 1)
            }
            &&& r.1 is Some ==> r.0 == m
        }),
{
    if i.accounts.len() > 0 && m.contains_key(i.accounts[0].0) {
        let a = m[i.accounts[0].0];
        lemma_owner_is_told_by_its_bytes(a.owner, 3);
        if is_stake(a) {
            lemma_key_at(authority, a.data, 0);
            lemma_key_at(validator, a.data, 32);
        }
        let r = stake_outcome(m, i, payer);
        if r.1 is None {
            assert(r.0[i.accounts[0].0].data =~= a.data.update(64, 1));
        }
    }
}

/// Units of a stake are taken out by its authority alone, after it was deactivated, and no more
/// than there are: they move from the first account to the second.
pub proof fn law_stakes_are_withdrawn(
    m: Books,
    i: InstructionData,
    payer: Pubkey,
    authority: Pubkey,
    validator: Pubkey,
)
    requires
        i.accounts.len() > 0 && m.contains_key(i.accounts[0].0) && is_stake(m[i.accounts[0].0])
            ==> is_stake_of(m[i.accounts[0].0], authority, validator),
        i.data.len() == 9,
        i.data[0] == 2,
    ensures
        ({
            let r = stake_outcome(m, i, payer);
            let amount = le_value(i.data.subrange(1, 9)) as int;
            &&& r.1 is None <==> i.accounts.len() > 1 && m.contains_key(i.accounts[0].0)
                && is_stake(m[i.accounts[0].0]) && authority == payer
                && m[i.accounts[0].0].data[64] == 1 && m[i.accounts[0].0].balance >= amount
            &&& r.1 is Some ==> r.0 == m
            &&& r.1 is None && i.accounts[0] == i.accounts[1] ==> now_holds(
                m,
                r.0,
                i.accounts[0],
                held(m, i.accounts[0]),
            ) && others_stay(m, r.0, i.accounts[0], i.accounts[0])
            &&& r.1 is None && i.accounts[0] != i.accounts[1] && held(m, i.accounts[1]) + amount
                <= u64::MAX ==> {
                &&& others_stay(m, r.0, i.accounts[0], i.accounts[1])
                &&& now_holds(m, r.0, i.accounts[0], held(m, i.accounts[0]) - amount)
                &&& now_holds(m, r.0, i.accounts[1], held(m, i.accounts[1]) + amount)
            }
        }),
{
    lemma_le_value_round_trip(i.data.subrange(1, 9));
    crate::codec::lemma_pow256();
    if i.accounts.len() > 0 && m.contains_key(i.accounts[0].0) {
        let a = m[i.accounts[0].0];
        lemma_owner_is_told_by_its_bytes(a.owner, 3);
        if is_stake(a) {
            lemma_key_at(authority, a.data, 0);
            lemma_key_at(validator, a.data, 32);
        }
    }
}

/// What the stake program does not understand or does not allow, it says so.
pub proof fn law_stake_program_says_why(
    m: Books,
    i: InstructionData,
    payer: Pubkey,
    authority: Pubkey,
    validator: Pubkey,
)
    requires
        i.accounts.len() > 0 && m.contains_key(i.accounts[0].0) && is_stake(m[i.accounts[0].0])
            ==> is_stake_of(m[i.accounts[0].0], authority, validator),
    ensures
        ({
            let r = stake_outcome(m, i, payer);
            let d = i.data;
            let size: int = if d[0] == 0 {
                65
            } else if d[0] == 1 {
                1
            } else {
                9
            };
            let found = m[i.accounts[0].0];
            let reads = d.len() > 0 && d[0] <= 2 && d.len() == size;
            &&& stake_request_error(d) is None <==> reads
            &&& d.len() == 0 ==> stake_request_error(d) == Some(DecodeError::UnexpectedLength)
            &&& d.len() > 0 && d[0] > 2 ==> stake_request_error(d) == Some(
                DecodeError::UnexpectedTag(d[0]),
            )
            &&& d.len() > 0 && d[0] <= 2 && d.len() < size ==> stake_request_error(d) == Some(
                DecodeError::UnexpectedLength,
            )
            &&& d.len() > 0 && d[0] <= 2 && d.len() > size ==> stake_request_error(d) == Some(
                DecodeError::NotAllBytesRead,
            )
            &&& stake_request_error(d) matches Some(e) ==> r == (
                m,
                Some(TxFailure::ProgramError("bad instruction data: "@ + decode_words(e))),
            )
            &&& reads && d[0] == 1 && i.accounts.len() == 0 ==> r.1 == Some(
                TxFailure::ProgramError("Deactivate requires accounts[0]"@),
            )
            &&& reads && d[0] == 2 && i.accounts.len() == 0 ==> r.1 == Some(
                TxFailure::ProgramError("Withdraw requires accounts[0]"@),
            )
            &&& reads && d[0] == 2 && i.accounts.len() == 1 ==> r.1 == Some(
                TxFailure::ProgramError("Withdraw requires accounts[1]"@),
            )
            &&& reads && d[0] > 0 && i.accounts.len() >= d[0] ==> {
                &&& !m.contains_key(i.accounts[0].0) ==> r.1 == Some(
                    TxFailure::AccountNotFound(i.accounts[0]),
                )
                &&& m.contains_key(i.accounts[0].0) && !all_bytes_are(found.owner, 3) ==> r.1
                    == Some(TxFailure::ProgramError("account not owned by the stake program"@))
                &&& m.contains_key(i.accounts[0].0) && all_bytes_are(found.owner, 3) ==> {
                    &&& stake_error(found.data) is None <==> is_stake(found)
                    &&& found.data.len() < 65 ==> stake_error(found.data) == Some(
                        DecodeError::UnexpectedLength,
                    )
                    &&& found.data.len() >= 65 && found.data[64] > 1 ==> stake_error(found.data)
                        == Some(DecodeError::UnexpectedTag(found.data[64]))
                    &&& found.data.len() > 65 && found.data[64] <= 1 ==> stake_error(found.data)
                        == Some(DecodeError::NotAllBytesRead)
                    &&& stake_error(found.data) matches Some(e) ==> r.1 == Some(
                        TxFailure::ProgramError(
                            "corrupt stake account data: "@ + decode_words(e),
                        ),
                    )
                    &&& is_stake(found) && authority != payer ==> r.1 == Some(
                        TxFailure::ProgramError(
                            if d[0] == 1 {
                                "only the stake authority may deactivate"@
                            } else {
                                "only the stake authority may withdraw"@
                            },
                        ),
                    )
                    &&& is_stake(found) && authority == payer && d[0] == 2
                        && found.data[64] == 0 ==> r.1 == Some(
                        TxFailure::ProgramError("stake must be deactivated before withdrawing"@),
                    )
                    &&& is_stake(found) && authority == payer && d[0] == 2
                        && found.data[64] == 1 && found.balance < le_value(d.subrange(1, 9))
                        ==> r.1 == Some(TxFailure::InsufficientFunds)
                }
            }
        }),
{
    let d = i.data;
    if d.len() == 9 {
        lemma_le_value_round_trip(d.subrange(1, 9));
        crate::codec::lemma_pow256();
    }
    if i.accounts.len() > 0 && m.contains_key(i.accounts[0].0) {
        let a = m[i.accounts[0].0];
        lemma_owner_is_told_by_its_bytes(a.owner, 3);
        if is_stake(a) {
            lemma_key_at(authority, a.data, 0);
            lemma_key_at(validator, a.data, 32);
        }
    }
}

/// The sum of all balances counts each account once.
pub proof fn law_sums_count_each_account(m: Books, k: [u8; 32], a: AccountData)
    requires
        m.dom().finite(),
        !m.contains_key(k),
    ensures
        total(Map::empty()) == 0,
        total(m.insert(k, a)) == total(m) + a.balance,
{
    lemma_total_insert(m, k, a);
}

proof fn lemma_shares_fit(bases: Books, parts: Books, amount: int, whole: int)
    requires
        bases.dom().finite(),
        parts.dom() == bases.dom(),
        forall|k: [u8; 32]| #[trigger]
            bases.contains_key(k) ==> parts[k].balance * whole <= amount * bases[k].balance,
    ensures
        total(parts) * whole <= amount * total(bases),
    decreases bases.dom().len(),
{
    if bases.dom().len() > 0 {
        let k = bases.dom().choose();
        assert(bases.contains_key(k));
        assert(bases.remove(k).dom() =~= bases.dom().remove(k));
        assert(parts.remove(k).dom() =~= bases.dom().remove(k));
        assert forall|j: [u8; 32]| #[trigger] bases.remove(k).contains_key(j) implies parts.remove(
            k,
        )[j].balance * whole <= amount * bases.remove(k)[j].balance by {
            assert(bases.contains_key(j));
        }
        lemma_shares_fit(bases.remove(k), parts.remove(k), amount, whole);
        lemma_total_remove(bases, k);
        lemma_total_remove(parts, k);
        assert((parts[k].balance + total(parts.remove(k))) * whole <= amount * (bases[k].balance
            + total(bases.remove(k)))) by (nonlinear_arith)
            requires
                parts[k].balance * whole <= amount * bases[k].balance,
                total(parts.remove(k)) * whole <= amount * total(bases.remove(k)),
        ;
    } else {
        assert(0 * whole <= amount * 0) by (nonlinear_arith);
    }
}

proof fn lemma_rewards_fit(m: Books, pool: Pubkey, units: u64)
    requires
        m.dom().finite(),
        total(m) <= u64::MAX,
    ensures
        total(rewards(m, pool, units)) <= payout(m, pool, units),
        forall|k: [u8; 32]| #[trigger]
            stakes(m, pool).contains_key(k) ==> m[k].balance + rewards(m, pool, units)[k].balance
                <= u64::MAX && rewards(m, pool, units)[k].balance == share_of(
                payout(m, pool, units),
                m[k].balance as int,
                total(stakes(m, pool)) as int,
            ),
{
    let bases = stakes(m, pool);
    let parts = rewards(m, pool, units);
    let amount = payout(m, pool, units);
    let whole = total(bases) as int;
    assert(bases.dom().subset_of(m.dom()));
    vstd::set_lib::lemma_len_subset(bases.dom(), m.dom());
    assert(parts.dom() =~= bases.dom());
    assert forall|k: [u8; 32]| #[trigger] bases.contains_key(k) implies m[k].balance
        + parts[k].balance <= u64::MAX && parts[k].balance == share_of(
        amount,
        m[k].balance as int,
        whole,
    ) && parts[k].balance * whole <= amount * bases[k].balance by {
        lemma_balance_in_total(bases, k);
        lemma_balance_in_total(m, k);
        if whole > 0 {
            lemma_share(amount, m[k].balance as int, whole);
        } else {
            assert(0 * whole <= amount * bases[k].balance) by (nonlinear_arith)
                requires
                    amount >= 0,
            ;
        }
        if amount > 0 {
            lemma_two_in_total(m, pool.0, k);
        }
    }
    if whole > 0 {
        lemma_shares_fit(bases, parts, amount, whole);
        assert(total(parts) <= amount) by (nonlinear_arith)
            requires
                total(parts) * whole <= amount * whole,
                whole > 0,
        ;
    } else {
        assert forall|k: [u8; 32]| #[trigger] parts.contains_key(k) implies parts[k].balance
            == 0 by {
            assert(bases.contains_key(k));
        }
        lemma_total_of_nothing(parts);
    }
}

/// Whatever the rewards are, at most the wanted units and at most what the reserve holds is to
/// be shared. Exactly the active stakes, apart from the reserve, have a share: the part of it
/// that their balance is of the balances of all of them, rounded down. They keep everything
/// else, and so do all other accounts; the reserve is poorer by what was paid.
pub proof fn law_rewards_follow_the_stakes(m: Books, pool: Pubkey, units: u64)
    requires
        m.dom().finite(),
        total(m) <= u64::MAX,
    ensures
        ({
            let after = rewarded(m, pool, units);
            let parts = rewards(m, pool, units);
            let amount = if held(m, pool) < units {
                held(m, pool)
            } else {
                units as int
            };
            let whole = total(stakes(m, pool)) as int;
            &&& payout(m, pool, units) == amount
            &&& forall|k: [u8; 32]| #[trigger] after.contains_key(k) <==> m.contains_key(k)
            &&& forall|k: [u8; 32]| #[trigger]
                stakes(m, pool).contains_key(k) <==> m.contains_key(k) && k != pool.0 && is_stake(
                    m[k],
                ) && m[k].data[64] == 0
            &&& forall|k: [u8; 32]|
                stakes(m, pool).contains_key(k) ==> #[trigger] stakes(m, pool)[k] == m[k]
            &&& forall|k: [u8; 32]| #[trigger]
                parts.contains_key(k) <==> stakes(m, pool).contains_key(k)
            &&& forall|k: [u8; 32]| #[trigger]
                parts.contains_key(k) && whole > 0 ==> parts[k].balance == amount
                    * m[k].balance as int / whole
            &&& forall|k: [u8; 32]| #[trigger]
                parts.contains_key(k) && whole == 0 ==> parts[k].balance == 0
            &&& forall|k: [u8; 32]| #[trigger]
                parts.contains_key(k) ==> after[k] == (AccountData {
                    balance: (m[k].balance + parts[k].balance) as u64,
                    ..m[k]
                }) && m[k].balance + parts[k].balance <= u64::MAX
            &&& m.contains_key(pool.0) ==> after[pool.0] == (AccountData {
                balance: (m[pool.0].balance - total(parts)) as u64,
                ..m[pool.0]
            }) && total(parts) <= m[pool.0].balance
            &&& forall|k: [u8; 32]| #[trigger]
                m.contains_key(k) && k != pool.0 && !parts.contains_key(k) ==> after[k] == m[k]
        }),
{
    lemma_rewards_fit(m, pool, units);
    assert forall|k: [u8; 32]| #[trigger] stakes(m, pool).contains_key(k) <==> m.contains_key(k)
        && k != pool.0 && is_stake(m[k]) && m[k].data[64] == 0 by {
        if m.contains_key(k) {
            lemma_owner_is_told_by_its_bytes(m[k].owner, 3);
        }
    }
}

/// The treasury pays out exactly where it holds the amount; then the amount moves, as long as
/// the receiver has room for it.
pub proof fn law_treasury_pays_out(m: Books, treasury: Pubkey, to: Pubkey, amount: u64)
    ensures
        ({
            let r = disbursed(m, treasury, to, amount);
            &&& r.1 is None <==> m.contains_key(treasury.0) && m[treasury.0].balance >= amount
            &&& r.1 is Some ==> r.0 == m && r.1->0 is InsufficientFunds
            &&& r.1 is None && treasury == to ==> now_holds(m, r.0, to, held(m, to))
            &&& r.1 is None ==> others_stay(m, r.0, treasury, to)
            &&& r.1 is None && treasury != to && held(m, to) + amount <= u64::MAX ==> {
                &&& now_holds(m, r.0, treasury, held(m, treasury) - amount)
                &&& now_holds(m, r.0, to, held(m, to) + amount)
            }
        }),
{
}

/// A gift makes the balance larger by its amount, up to the largest there is, and changes
/// nothing else.
pub proof fn law_gifts_are_added(m: Books, key: Pubkey, amount: u64)
    ensures
        ({
            let known = with_wallet(m, key);
            let after = with_balance(known, key, saturated(known[key.0].balance + amount));
            &&& others_stay(m, after, key, key)
            &&& held(m, key) + amount <= u64::MAX ==> now_holds(
                m,
                after,
                key,
                held(m, key) + amount,
            )
            &&& held(m, key) + amount > u64::MAX ==> now_holds(m, after, key, u64::MAX as int)
        }),
{
}

/// How failures are told.
pub proof fn law_failures_are_told(k: Pubkey, text: Seq<char>, byte: u8)
    ensures
        failure_words(TxFailure::InvalidSignature) == "invalid signature"@,
        failure_words(TxFailure::AccountNotFound(k)) == "account not found: "@
            + base58(k.0@),
        failure_words(TxFailure::InsufficientFunds) == "insufficient funds"@,
        failure_words(TxFailure::UnknownProgram(k)) == "unknown program: "@
            + base58(k.0@),
        failure_words(TxFailure::ProgramError(text)) == "program error: "@ + text,
        decode_words(DecodeError::UnexpectedLength) == "Unexpected length of input"@,
        decode_words(DecodeError::UnexpectedTag(byte)) == "Unexpected variant tag: "@ + decimal(
            byte as nat,
        ),
        decode_words(DecodeError::NotAllBytesRead) == "Not all bytes read"@,
        decode_words(DecodeError::InvalidBool(byte)) == "Invalid bool representation: "@ + decimal(
            byte as nat,
        ),
{
}

/// The programs that a node starts with: the system program and the memo program, under their
/// addresses, and no others.
pub proof fn law_default_programs(
    programs: Map<[u8; 32], Program>,
    k: Pubkey,
    m: Books,
    i: InstructionData,
    payer: Pubkey,
)
    requires
        are_default_programs(programs),
    ensures
        programs.contains_key(k.0) <==> all_bytes_are(k, 0) || all_bytes_are(k, 1),
        all_bytes_are(k, 0) ==> programs[k.0].code.outcome(m, i, payer) == system_outcome(
            m,
            i,
            payer,
        ),
        all_bytes_are(k, 1) ==> programs[k.0].code.outcome(m, i, payer) == memo_outcome(m, i),
{
    lemma_owner_is_told_by_its_bytes(k, 0);
    lemma_owner_is_told_by_its_bytes(k, 1);
    assert(programs.contains_key(k.0) <==> programs.dom().contains(k.0));
    assert(k == Pubkey(k.0));
}

} // verus!
