//! A contract that pays out of the account of whoever signs.
use crate::contract::{
    abort, balance, balance_at, coherent, ended, having_said, law_moving_conserves, log, settle,
    settled, signs, solvent, total_balance, transfer, transferred, Abort, Host, HostData,
};
use vstd::prelude::*;

verus! {

/// How many accounts a call has to name.
pub open spec fn accounts_named(sel: i64) -> nat {
    if sel == 1 || sel == 4 || sel == 5 {
        2
    } else if sel == 2 || sel == 6 {
        3
    } else if sel == 3 {
        4
    } else {
        0
    }
}

/// The accounts after two payments, or all that was said where one was not made.
pub open spec fn paid_twice(h: HostData, x: i64, y: i64) -> Result<HostData, Seq<Seq<char>>> {
    match transferred(h, 0, 1, x) {
        Err(log) => Err(log),
        Ok(a) => transferred(a, 0, 2, y),
    }
}

/// So many ten-thousandths of an amount, in whole ten-thousandths and cut towards zero.
pub open spec fn share_of(units: int, parts: int) -> int {
    if units >= 0 {
        (units / 10_000) * parts
    } else {
        -((-units / 10_000) * parts)
    }
}

/// The accounts after a call, or all that was said where the contract gives up.
///
/// - 1 pays `x` to the second account;
/// - 2 pays `x` to the second and `y` to the third;
/// - 3 pays `x`, `y` and `z` to the second, third and fourth;
/// - 4 pays everything to the second;
/// - 5 pays `x` ten-thousandths to the second;
/// - 6 pays `x` to the second and a tip of `y` to the third.
pub open spec fn paid(h: HostData, args: [i64; 4]) -> Result<HostData, Seq<Seq<char>>> {
    let x = args[1];
    let y = args[2];
    let z = args[3];
    if args[0] == 1 {
        transferred(having_said(h, "transfer"@), 0, 1, x)
    } else if args[0] == 2 {
        paid_twice(having_said(h, "split2"@), x, y)
    } else if args[0] == 3 {
        match paid_twice(having_said(h, "split3"@), x, y) {
            Err(log) => Err(log),
            Ok(a) => transferred(a, 0, 3, z),
        }
    } else if args[0] == 4 {
        transferred(having_said(h, "sweep"@), 0, 1, balance_at(h, 0) as i64)
    } else if args[0] == 5 {
        if 0 <= x <= 10_000 {
            transferred(having_said(h, "pct"@), 0, 1, share_of(balance_at(h, 0), x as int) as i64)
        } else {
            Err(having_said(h, "pct"@).log)
        }
    } else if args[0] == 6 {
        paid_twice(having_said(h, "tip"@), x, y)
    } else {
        Err(h.log)
    }
}

fn share_of_some(units: u64, parts: u64) -> (amount: u64)
    requires
        parts <= 10_000,
    ensures
        amount == (units / 10_000) * parts,
        amount <= units,
{
    let whole: u64 = units / 10_000;
    proof {
        assert(whole * parts <= units) by (nonlinear_arith)
            requires
                whole == units / 10_000,
                0 <= parts <= 10_000,
        ;
    }
    whole * parts
}

fn share(units: i64, parts: i64) -> (amount: i64)
    requires
        0 <= parts <= 10_000,
    ensures
        amount == share_of(units as int, parts as int),
{
    if units >= 0 {
        share_of_some(units as u64, parts as u64) as i64
    } else {
        let owed: u64 = (-(units as i128)) as u64;
        let amount: u64 = share_of_some(owed, parts as u64);
        (-(amount as i128)) as i64
    }
}

fn pay(host: &mut Host, args: [i64; 4]) -> (done: Result<(), Abort>)
    ensures
        ended(paid(old(host)@, args), done, final(host)@),
{
    let sel: i64 = args[0];
    let x: i64 = args[1];
    let y: i64 = args[2];
    let z: i64 = args[3];
    if sel == 1 {
        log(host, "transfer");
        transfer(host, 0, 1, x)
    } else if sel == 2 {
        log(host, "split2");
        match transfer(host, 0, 1, x) {
            Ok(_) => transfer(host, 0, 2, y),
            Err(a) => Err(a),
        }
    } else if sel == 3 {
        log(host, "split3");
        match transfer(host, 0, 1, x) {
            Ok(_) => match transfer(host, 0, 2, y) {
                Ok(_) => transfer(host, 0, 3, z),
                Err(a) => Err(a),
            },
            Err(a) => Err(a),
        }
    } else if sel == 4 {
        log(host, "sweep");
        let all: i64 = balance(host, 0);
        transfer(host, 0, 1, all)
    } else if sel == 5 {
        log(host, "pct");
        if !(0 <= x && x <= 10_000) {
            return Err(abort());
        }
        let units: i64 = balance(host, 0);
        let amount: i64 = share(units, x);
        transfer(host, 0, 1, amount)
    } else if sel == 6 {
        log(host, "tip");
        match transfer(host, 0, 1, x) {
            Ok(_) => transfer(host, 0, 2, y),
            Err(a) => Err(a),
        }
    } else {
        Err(abort())
    }
}

/// Carries a call out. Where the contract gives up, nothing has happened but what it said.
pub fn dispatch(host: &mut Host, args: [i64; 4]) -> (done: Result<(), Abort>)
    ensures
        settled(paid(old(host)@, args), done, old(host)@, final(host)@),
{
    let mut work = host.duplicate();
    let done = pay(&mut work, args);
    settle(host, work, done)
}

/// `after` came about by payments of the first account: the sum of all balances is what it
/// was, and no other account has less than before.
pub open spec fn only_the_first_pays(h: HostData, after: HostData) -> bool {
    &&& solvent(after)
    &&& coherent(after.slots)
    &&& after.slots.len() == h.slots.len()
    &&& total_balance(after.slots) == total_balance(h.slots)
    &&& forall|i: int|
        0 <= i < h.slots.len() && h.slots[i].address != h.slots[0].address ==> (
        #[trigger] after.slots[i]).balance >= h.slots[i].balance
    &&& forall|i: int|
        0 <= i < h.slots.len() ==> (#[trigger] after.slots[i]).signer == h.slots[i].signer
            && after.slots[i].address == h.slots[i].address
}

proof fn lemma_one_payment(h: HostData, to: int, amount: i64)
    requires
        solvent(h),
        coherent(h.slots),
        0 < to < h.slots.len(),
        transferred(h, 0, to, amount) is Ok,
    ensures
        only_the_first_pays(h, transferred(h, 0, to, amount)->Ok_0),
        signs(h, 0),
{
    law_moving_conserves(h, 0, to, amount);
    let after = transferred(h, 0, to, amount)->Ok_0;
    assert forall|i: int|
        0 <= i < h.slots.len() && h.slots[i].address != h.slots[0].address implies (
    #[trigger] after.slots[i]).balance >= h.slots[i].balance by {
        if h.slots[i].address == h.slots[to].address {
            assert(h.slots[i] == h.slots[to]);
            assert(after.slots[i] == after.slots[to]);
        }
    }
}

/// Whatever is called, the contract neither makes nor destroys money, nobody ends in debt,
/// and only the first account, which has to have signed, can end with less than it had. The
/// call names the accounts that it pays.
pub proof fn law_only_the_signer_pays(h: HostData, args: [i64; 4])
    requires
        solvent(h),
        coherent(h.slots),
        h.slots.len() >= accounts_named(args[0]),
        paid(h, args) is Ok,
    ensures
        only_the_first_pays(h, paid(h, args)->Ok_0),
        signs(h, 0),
{
    let sel = args[0];
    let x = args[1];
    let y = args[2];
    let z = args[3];
    if sel == 1 {
        lemma_one_payment(having_said(h, "transfer"@), 1, x);
    } else if sel == 4 {
        lemma_one_payment(having_said(h, "sweep"@), 1, balance_at(h, 0) as i64);
    } else if sel == 5 {
        lemma_one_payment(
            having_said(h, "pct"@),
            1,
            share_of(balance_at(h, 0), x as int) as i64,
        );
    } else {
        let s = if sel == 2 {
            having_said(h, "split2"@)
        } else if sel == 3 {
            having_said(h, "split3"@)
        } else {
            having_said(h, "tip"@)
        };
        lemma_one_payment(s, 1, x);
        let a = transferred(s, 0, 1, x)->Ok_0;
        lemma_one_payment(a, 2, y);
        let b = transferred(a, 0, 2, y)->Ok_0;
        assert(a.slots[0].address == s.slots[0].address);
        assert forall|i: int|
            0 <= i < h.slots.len() && h.slots[i].address != h.slots[0].address implies (
        #[trigger] b.slots[i]).balance >= h.slots[i].balance by {
            assert(a.slots[i].balance >= s.slots[i].balance);
        }
        assert forall|i: int| 0 <= i < h.slots.len() implies (#[trigger] b.slots[i]).signer
            == h.slots[i].signer && b.slots[i].address == h.slots[i].address by {
            assert(a.slots[i].signer == s.slots[i].signer);
        }
        if sel == 3 {
            lemma_one_payment(b, 3, z);
            let c = transferred(b, 0, 3, z)->Ok_0;
            assert(b.slots[0].address == h.slots[0].address);
            assert forall|i: int|
                0 <= i < h.slots.len() && h.slots[i].address != h.slots[0].address implies (
            #[trigger] c.slots[i]).balance >= h.slots[i].balance by {
                assert(b.slots[i].balance >= h.slots[i].balance);
            }
            assert forall|i: int| 0 <= i < h.slots.len() implies (#[trigger] c.slots[i]).signer
                == h.slots[i].signer && c.slots[i].address == h.slots[i].address by {
                assert(b.slots[i].signer == h.slots[i].signer);
            }
        }
    }
}

} // verus!
