//! A contract that keeps a counter in the account of whoever signs.
use crate::codec::lemma_pow256;
use crate::contract::{
    abort, get_data, having_said, is_signer, log, number_at, number_record, numbers_bytes, read_u64,
    set_data, signs, with_data, Abort, Host, HostData,
};
use crate::wallet_requests::word_of;
use vstd::prelude::*;

verus! {

/// The signed number that a machine word stands for.
pub open spec fn signed_of(word: u64) -> i64 {
    if word >= 0x8000_0000_0000_0000 {
        (word - 0x1_0000_0000_0000_0000) as i64
    } else {
        word as i64
    }
}

fn to_signed(word: u64) -> (n: i64)
    ensures
        n == signed_of(word),
{
    if word >= 0x8000_0000_0000_0000 {
        (word as i128 - 0x1_0000_0000_0000_0000) as i64
    } else {
        word as i64
    }
}

fn to_word(n: i64) -> (word: u64)
    ensures
        word == word_of(n),
{
    if n < 0 {
        (n as i128 + 0x1_0000_0000_0000_0000) as u64
    } else {
        n as u64
    }
}

/// A number and its word tell each other.
pub proof fn lemma_signed_round_trip(n: i64)
    ensures
        signed_of(word_of(n) as u64) == n,
{
}

/// The nearest number that a machine word can stand for.
pub open spec fn clamped(n: int) -> i64 {
    if n > i64::MAX {
        i64::MAX
    } else if n < i64::MIN {
        i64::MIN
    } else {
        n as i64
    }
}

fn clamp_to_word(n: i128) -> (m: i64)
    ensures
        m == clamped(n as int),
{
    if n > i64::MAX as i128 {
        i64::MAX
    } else if n < i64::MIN as i128 {
        i64::MIN
    } else {
        n as i64
    }
}

/// The counter that data holds; zero where it holds none.
pub open spec fn count_in(data: Seq<u8>) -> i64 {
    if data.len() >= 8 {
        signed_of(number_at(data, 0))
    } else {
        0
    }
}

/// How often the counter was changed; never where the data does not say.
pub open spec fn updates_in(data: Seq<u8>) -> u64 {
    if data.len() >= 16 {
        number_at(data, 8)
    } else {
        0
    }
}

/// One more, up to the largest number.
pub open spec fn next_update(n: u64) -> u64 {
    if n < u64::MAX {
        (n + 1) as u64
    } else {
        n
    }
}

/// The bytes of a counter.
pub open spec fn counter_bytes(count: i64, updates: u64) -> Seq<u8> {
    numbers_bytes(seq![word_of(count) as u64, updates])
}

/// The accounts after a call, where the contract does not give up: 1 sets the counter,
/// 2 adds to it, 3 takes from it.
pub open spec fn counted(h: HostData, args: [i64; 4]) -> Option<HostData> {
    let count = count_in(h.slots[0].data);
    let updates = updates_in(h.slots[0].data);
    if !signs(h, 0) {
        None
    } else if args[0] == 1 {
        Some(with_data(having_said(h, "init"@), 0, counter_bytes(args[1], 0)))
    } else if args[0] == 2 {
        Some(
            with_data(
                having_said(h, "add"@),
                0,
                counter_bytes(clamped(count + args[1]), next_update(updates)),
            ),
        )
    } else if args[0] == 3 {
        Some(
            with_data(
                having_said(h, "sub"@),
                0,
                counter_bytes(clamped(count - args[1]), next_update(updates)),
            ),
        )
    } else {
        None
    }
}

/// Carries a call out. Where the contract gives up, nothing has happened.
pub fn dispatch(host: &mut Host, args: [i64; 4]) -> (done: Result<(), Abort>)
    ensures
        match counted(old(host)@, args) {
            Some(h) => done is Ok && final(host)@ == h,
            None => done is Err && final(host)@ == old(host)@,
        },
{
    if !is_signer(host, 0) {
        return Err(abort());
    }
    let sel: i64 = args[0];
    let x: i64 = args[1];
    let data = get_data(host, 0);
    let count: i64 = if data.len() >= 8 {
        to_signed(read_u64(data.as_slice(), 0))
    } else {
        0
    };
    let updates: u64 = if data.len() >= 16 {
        read_u64(data.as_slice(), 8)
    } else {
        0
    };
    let more: u64 = if updates < u64::MAX {
        updates + 1
    } else {
        updates
    };
    let (new_count, new_updates): (i64, u64) = if sel == 1 {
        log(host, "init");
        (x, 0)
    } else if sel == 2 {
        log(host, "add");
        (clamp_to_word(count as i128 + x as i128), more)
    } else if sel == 3 {
        log(host, "sub");
        (clamp_to_word(count as i128 - x as i128), more)
    } else {
        return Err(abort());
    };
    let words: [u64; 2] = [to_word(new_count), new_updates];
    let record = number_record(words.as_slice());
    proof {
        assert(words@ =~= seq![word_of(new_count) as u64, new_updates]);
    }
    set_data(host, 0, record);
    Ok(())
}

/// The bytes of two numbers, and how to read them back.
pub proof fn lemma_two_numbers(a: u64, b: u64)
    ensures
        numbers_bytes(seq![a, b]).len() == 16,
        number_at(numbers_bytes(seq![a, b]), 0) == a,
        number_at(numbers_bytes(seq![a, b]), 8) == b,
{
    let s = seq![a, b];
    let t = s.drop_last();
    assert(t =~= seq![a]);
    assert(t.drop_last() =~= Seq::<u64>::empty());
    let p = crate::codec::le_bytes(a as nat, 8);
    let q = crate::codec::le_bytes(b as nat, 8);
    crate::codec::lemma_le_bytes_len(a as nat, 8);
    crate::codec::lemma_le_bytes_len(b as nat, 8);
    assert(numbers_bytes(Seq::<u64>::empty()) =~= Seq::<u8>::empty());
    assert(numbers_bytes(t) =~= p);
    assert(numbers_bytes(s) =~= p + q);
    assert((p + q).subrange(0, 8) =~= p);
    assert((p + q).subrange(8, 16) =~= q);
    lemma_pow256();
    crate::codec::lemma_le_round_trip(a as nat, 8);
    crate::codec::lemma_le_round_trip(b as nat, 8);
}

/// What a call writes is what the next one reads.
pub proof fn law_counter_is_read_back(count: i64, updates: u64)
    ensures
        count_in(counter_bytes(count, updates)) == count,
        updates_in(counter_bytes(count, updates)) == updates,
{
    lemma_two_numbers(word_of(count) as u64, updates);
    lemma_signed_round_trip(count);
}

/// Nobody but the first account, which has to have signed, is touched, and no balance
/// changes.
pub proof fn law_only_the_signers_data_changes(h: HostData, args: [i64; 4], i: int)
    requires
        counted(h, args) is Some,
        0 <= i < h.slots.len(),
    ensures
        signs(h, 0),
        counted(h, args)->0.slots[i].balance == h.slots[i].balance,
        h.slots[i].address != h.slots[0].address ==> counted(h, args)->0.slots[i] == h.slots[i],
{
}

} // verus!
