//! What the host of contracts does for them, call by call.
use crate::codec::{le_bytes, le_value, lemma_le_bytes_len, lemma_le_round_trip, lemma_pow256};
use crate::contract::{
    balance_at, broken_off, capped_sum, claimed, credited, debited, deployer_missed, deployer_signs,
    ended, having_said, is_pda, moved, names, number_at, numbers_bytes, pda, settled, signs,
    total_balance, transferred, with_data, Abort, HostData, SlotData,
};
use crate::counter::{clamped, signed_of};
use crate::hash::sha3_256;
use crate::payments::accounts_named;
use crate::pubkey::Pubkey;
use crate::wallet_requests::word_of;
use vstd::prelude::*;
use vstd::string::*;
use vstd::utf8::*;

verus! {

/// All that the call names but the accounts is as it was.
pub open spec fn only_slots_change(h: HostData, after: HostData) -> bool {
    &&& after.program == h.program
    &&& after.deployer == h.deployer
    &&& after.log == h.log
    &&& after.stray == h.stray
    &&& after.slots.len() == h.slots.len()
}

/// The account at a place is worth what it holds, and a place without one is told by minus one.
/// It signs where it is there and is marked so.
pub proof fn law_places_of_a_call(h: HostData, i: int)
    ensures
        0 <= i < h.slots.len() ==> balance_at(h, i) == h.slots[i].balance && (signs(h, i)
            <==> h.slots[i].signer),
        !(0 <= i < h.slots.len()) ==> balance_at(h, i) == -1 && !signs(h, i),
{
}

/// An amount is taken exactly where it is not negative and the account holds it; the account
/// then has that much less, wherever the call names it, and nothing else changes.
pub proof fn law_amounts_are_taken(h: HostData, i: int, amount: i64, j: int)
    requires
        0 <= i < h.slots.len(),
        0 <= j < h.slots.len(),
    ensures
        debited(h, i, amount) is Some <==> 0 <= amount <= h.slots[i].balance,
        debited(h, i, amount) matches Some(after) ==> {
            &&& only_slots_change(h, after)
            &&& h.slots[j].address == h.slots[i].address ==> after.slots[j] == (SlotData {
                balance: (h.slots[i].balance - amount) as i64,
                ..h.slots[j]
            })
            &&& h.slots[j].address != h.slots[i].address ==> after.slots[j] == h.slots[j]
            &&& broken_off(h, i, amount) == after
        },
        debited(h, i, amount) is None ==> broken_off(h, i, amount) == h,
{
}

/// An amount is given exactly where it is not negative and the balance, none where it was
/// negative, has room for it; the account then has that much more, wherever the call names it,
/// and nothing else changes.
pub proof fn law_amounts_are_given(h: HostData, i: int, amount: i64, j: int)
    requires
        0 <= i < h.slots.len(),
        0 <= j < h.slots.len(),
    ensures
        ({
            let had = if h.slots[i].balance < 0 {
                0
            } else {
                h.slots[i].balance as int
            };
            &&& credited(h, i, amount) is Some <==> amount >= 0 && had + amount <= i64::MAX
            &&& credited(h, i, amount) matches Some(after) ==> {
                &&& only_slots_change(h, after)
                &&& h.slots[j].address == h.slots[i].address ==> after.slots[j] == (SlotData {
                    balance: (had + amount) as i64,
                    ..h.slots[j]
                })
                &&& h.slots[j].address != h.slots[i].address ==> after.slots[j] == h.slots[j]
            }
        }),
{
}

/// What is moved is taken from the one and then given to the other, or not at all; and it takes
/// the signature of the one.
pub proof fn law_amounts_are_moved(h: HostData, from: int, to: int, amount: i64)
    ensures
        moved(h, from, to, amount) is Some <==> (debited(h, from, amount) matches Some(d)
            && credited(d, to, amount) is Some),
        debited(h, from, amount) matches Some(d) ==> moved(h, from, to, amount) == credited(
            d,
            to,
            amount,
        ),
        !signs(h, from) ==> transferred(h, from, to, amount) == Err::<HostData, Seq<Seq<char>>>(
            h.log.push("qchain-sdk: se requiere firma"@),
        ),
        signs(h, from) ==> match moved(h, from, to, amount) {
            Some(after) => transferred(h, from, to, amount) == Ok::<HostData, Seq<Seq<char>>>(after),
            None => transferred(h, from, to, amount) == Err::<HostData, Seq<Seq<char>>>(h.log),
        },
{
}

/// Data are written to an account wherever the call names it, and change nothing else; and so is
/// an account claimed.
pub proof fn law_accounts_are_written(h: HostData, i: int, data: Seq<u8>, j: int)
    requires
        0 <= i < h.slots.len(),
        0 <= j < h.slots.len(),
    ensures
        only_slots_change(h, with_data(h, i, data)),
        only_slots_change(h, claimed(h, i)),
        h.slots[j].address == h.slots[i].address ==> with_data(h, i, data).slots[j] == (SlotData {
            data,
            ..h.slots[j]
        }) && claimed(h, i).slots[j] == (SlotData { owned: true, ..h.slots[j] }),
        h.slots[j].address != h.slots[i].address ==> with_data(h, i, data).slots[j] == h.slots[j]
            && claimed(h, i).slots[j] == h.slots[j],
{
}

/// What a contract says comes last in the log, and changes nothing else.
pub proof fn law_words_are_logged(h: HostData, text: Seq<char>)
    ensures
        having_said(h, text).log == h.log.push(text),
        having_said(h, text).slots == h.slots,
        having_said(h, text).stray == h.stray,
        having_said(h, text).program == h.program && having_said(h, text).deployer == h.deployer,
{
}

/// A call that succeeds leaves what it was to leave. One that fails keeps nothing but the log.
pub proof fn law_calls_end(
    outcome: Result<HostData, Seq<Seq<char>>>,
    done: Result<(), Abort>,
    before: HostData,
    after: HostData,
)
    requires
        settled(outcome, done, before, after),
    ensures
        done is Ok <==> outcome is Ok,
        outcome matches Ok(h) ==> after == h,
        outcome matches Err(log) ==> after.log == log && after.slots == before.slots && after.stray
            == before.stray,
        ended(outcome, done, after),
{
}

/// The address of a program's own account is the hash of what it is for, in words, the program
/// and the seed; a place holds it where its address is that one.
pub proof fn law_program_addresses(h: HostData, i: int, program: Pubkey, seed: Seq<u8>)
    ensures
        pda(program, seed).0 == sha3_256(
            encode_utf8("qchain-program-pda-v1"@) + program.0@ + seed,
        ),
        0 <= i < h.slots.len() ==> (is_pda(h, i, seed) <==> h.slots[i].address.0 == sha3_256(
            encode_utf8("qchain-program-pda-v1"@) + h.program.0@ + seed,
        )),
        !(0 <= i < h.slots.len()) ==> !is_pda(h, i, seed),
{
    if 0 <= i < h.slots.len() {
        assert(h.slots[i].address == Pubkey(h.slots[i].address.0));
    }
}

/// The publisher signs where the first account signs and is the publisher's; a missing
/// signature is told in the log.
pub proof fn law_publishers_sign(h: HostData)
    ensures
        deployer_signs(h) <==> h.slots.len() > 0 && h.slots[0].signer && h.slots[0].address
            == h.deployer,
        h.slots.len() > 0 && h.slots[0].signer ==> deployer_missed(h) == h.log,
        h.slots.len() == 0 || !h.slots[0].signer ==> deployer_missed(h) == h.log.push(
            "qchain-sdk: se requiere firma"@,
        ),
{
}

/// Numbers in data are eight bytes each, least significant first.
pub proof fn law_numbers_in_data(numbers: Seq<u64>, n: u64, data: Seq<u8>, at: int)
    ensures
        numbers_bytes(Seq::empty()) == Seq::<u8>::empty(),
        numbers_bytes(numbers.push(n)).len() == numbers_bytes(numbers).len() + 8,
        numbers_bytes(numbers.push(n)).take(numbers_bytes(numbers).len() as int) == numbers_bytes(
            numbers,
        ),
        le_value(numbers_bytes(numbers.push(n)).skip(numbers_bytes(numbers).len() as int)) == n,
        0 <= at && at + 8 <= data.len() ==> number_at(data, at) == le_value(
            data.subrange(at, at + 8),
        ),
{
    let front = numbers_bytes(numbers);
    let all = numbers_bytes(numbers.push(n));
    assert(numbers.push(n).drop_last() =~= numbers);
    lemma_le_bytes_len(n as nat, 8);
    lemma_pow256();
    lemma_le_round_trip(n as nat, 8);
    assert(all.take(front.len() as int) =~= front);
    assert(all.skip(front.len() as int) =~= le_bytes(n as nat, 8));
    if 0 <= at && at + 8 <= data.len() {
        crate::codec::lemma_le_value_round_trip(data.subrange(at, at + 8));
    }
}

/// Sums stop at the largest number, and signed numbers at both ends; a negative number is
/// written as what is missing to two to the sixty-fourth, and read so.
pub proof fn law_numbers_stop_at_their_ends(a: u64, b: u64, n: int, m: i64)
    ensures
        capped_sum(a, b) == if a + b > u64::MAX {
            u64::MAX as int
        } else {
            a + b
        },
        i64::MIN <= n <= i64::MAX ==> clamped(n) == n,
        n > i64::MAX ==> clamped(n) == i64::MAX,
        n < i64::MIN ==> clamped(n) == i64::MIN,
        m >= 0 ==> word_of(m) == m && signed_of(word_of(m) as u64) == m,
        m < 0 ==> word_of(m) == 0x1_0000_0000_0000_0000 + m && signed_of(word_of(m) as u64) == m,
{
}

/// How many accounts a payment of each kind names.
pub proof fn law_payments_name_their_accounts()
    ensures
        accounts_named(1) == 2,
        accounts_named(2) == 3,
        accounts_named(3) == 4,
        accounts_named(4) == 2,
        accounts_named(5) == 2,
        accounts_named(6) == 3,
        forall|k: i64| k < 1 || k > 6 ==> #[trigger] accounts_named(k) == 0,
{
}

/// The sum of balances counts each address once.
pub proof fn law_sums_count_each_address(slots: Seq<SlotData>, s: SlotData)
    ensures
        total_balance(Seq::empty()) == 0,
        names(slots, s.address) ==> total_balance(slots.push(s)) == total_balance(slots),
        !names(slots, s.address) ==> total_balance(slots.push(s)) == total_balance(slots)
            + s.balance,
        names(slots, s.address) <==> exists|i: int|
            0 <= i < slots.len() && (#[trigger] slots[i]).address == s.address,
{
    assert(slots.push(s).drop_last() =~= slots);
}

/// However a call ends, its result tells whether it came about; then it left what it was to
/// leave, and else its log tells why.
pub proof fn law_results_tell_how_calls_end(
    outcome: Result<HostData, Seq<Seq<char>>>,
    done: Result<(), Abort>,
    after: HostData,
)
    requires
        ended(outcome, done, after),
    ensures
        done is Ok <==> outcome is Ok,
        outcome matches Ok(h) ==> after == h,
        outcome matches Err(log) ==> after.log == log,
{
}

} // verus!
