//! A contract that keeps one counter for everybody, in an account of its own.
use crate::contract::{
    abort, capped_sum, claimed, get_data, having_said, is_pda, log, number_at, number_record,
    numbers_bytes, read_u64, set_data, use_pda, with_data, Abort, Host, HostData,
};
use crate::counter::{lemma_two_numbers, next_update, updates_in};
use vstd::prelude::*;
use vstd::string::*;
use vstd::utf8::*;

verus! {

/// The sum that data holds; zero where it holds none.
pub open spec fn sum_in(data: Seq<u8>) -> u64 {
    if data.len() >= 8 {
        number_at(data, 0)
    } else {
        0
    }
}

/// The bytes of the sum and of the number of calls.
pub open spec fn shared_bytes(sum: u64, hits: u64) -> Seq<u8> {
    numbers_bytes(seq![sum, hits])
}

/// The accounts after a call, where the contract does not give up: 1 adds to the sum.
pub open spec fn added(h: HostData, args: [i64; 4]) -> Option<HostData> {
    if !is_pda(h, 1, encode_utf8("global"@)) || args[0] != 1 || args[1] < 0 {
        None
    } else {
        let data = h.slots[1].data;
        Some(
            with_data(
                having_said(claimed(h, 1), "add"@),
                1,
                shared_bytes(
                    capped_sum(sum_in(data), args[1] as u64),
                    next_update(updates_in(data)),
                ),
            ),
        )
    }
}

/// Carries a call out. Where the contract gives up, nothing has happened.
pub fn dispatch(host: &mut Host, args: [i64; 4]) -> (done: Result<(), Abort>)
    ensures
        match added(old(host)@, args) {
            Some(h) => done is Ok && final(host)@ == h,
            None => done is Err && final(host)@ == old(host)@,
        },
{
    let sel: i64 = args[0];
    let x: i64 = args[1];
    let mut work = host.duplicate();
    if !use_pda(&mut work, 1, "global".as_bytes()) {
        return Err(abort());
    }
    let data = get_data(&work, 1);
    let sum: u64 = if data.len() >= 8 {
        read_u64(data.as_slice(), 0)
    } else {
        0
    };
    let hits: u64 = if data.len() >= 16 {
        read_u64(data.as_slice(), 8)
    } else {
        0
    };
    if sel != 1 || x < 0 {
        return Err(abort());
    }
    let new_sum: u64 = match sum.checked_add(x as u64) {
        Some(s) => s,
        None => u64::MAX,
    };
    let new_hits: u64 = if hits < u64::MAX {
        hits + 1
    } else {
        hits
    };
    log(&mut work, "add");
    let words: [u64; 2] = [new_sum, new_hits];
    let record = number_record(words.as_slice());
    proof {
        assert(words@ =~= seq![new_sum, new_hits]);
    }
    set_data(&mut work, 1, record);
    *host = work;
    Ok(())
}

/// The sum grows by what was added and never shrinks, up to the largest number; the number
/// of calls grows by one.
pub proof fn law_sum_only_grows(h: HostData, args: [i64; 4])
    requires
        added(h, args) is Some,
    ensures
        sum_in(added(h, args)->0.slots[1].data) == capped_sum(
            sum_in(h.slots[1].data),
            args[1] as u64,
        ),
        sum_in(added(h, args)->0.slots[1].data) >= sum_in(h.slots[1].data),
        updates_in(added(h, args)->0.slots[1].data) == next_update(updates_in(h.slots[1].data)),
{
    let data = h.slots[1].data;
    lemma_two_numbers(
        capped_sum(sum_in(data), args[1] as u64),
        next_update(updates_in(data)),
    );
}

} // verus!
