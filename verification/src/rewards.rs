//! Staking rewards: at the end of an epoch the reserve pays the active stakes, each by its
//! part of the whole stake.
use crate::account::AccountData;
use crate::keymap::{ascending, lemma_key_lt_asymmetric};
use crate::ledger::{set_balance, Ledger};
use crate::pubkey::Pubkey;
use crate::stake::{
    stake_bytes, stake_error, stake_program, stake_program_id, status_tag, StakeState, StakeStatus,
};
use crate::supply::{lemma_balance_in_total, lemma_total_insert, lemma_total_remove, total};
use vstd::prelude::*;

verus! {

/// The account is a stake that earns rewards.
pub open spec fn is_active_stake(a: AccountData) -> bool {
    &&& a.owner == stake_program()
    &&& stake_error(a.data) is None
    &&& a.data[64] == status_tag(StakeStatus::Active)
}

/// The address is one of an active stake; the reserve itself is none.
pub open spec fn earns(m: Map<[u8; 32], AccountData>, pool: Pubkey, k: [u8; 32]) -> bool {
    m.contains_key(k) && k != pool.0 && is_active_stake(m[k])
}

/// The accounts that earn rewards.
pub open spec fn stakes(m: Map<[u8; 32], AccountData>, pool: Pubkey) -> Map<
    [u8; 32],
    AccountData,
> {
    m.restrict(Set::new(|k: [u8; 32]| earns(m, pool, k)))
}

/// What is shared out: the amount that was named, or what the reserve has left.
pub open spec fn payout(m: Map<[u8; 32], AccountData>, pool: Pubkey, units: u64) -> int {
    if !m.contains_key(pool.0) {
        0
    } else if units <= m[pool.0].balance {
        units as int
    } else {
        m[pool.0].balance as int
    }
}

/// The part of `amount` that a stake gets by its part of the whole stake, rounded down.
pub open spec fn share_of(amount: int, stake: int, whole: int) -> int {
    if whole > 0 {
        amount * stake / whole
    } else {
        0
    }
}

/// What each active stake gets, as its account with that balance.
pub open spec fn rewards(m: Map<[u8; 32], AccountData>, pool: Pubkey, units: u64) -> Map<
    [u8; 32],
    AccountData,
> {
    stakes(m, pool).map_values(
        |a: AccountData|
            AccountData {
                balance: share_of(
                    payout(m, pool, units),
                    a.balance as int,
                    total(stakes(m, pool)) as int,
                ) as u64,
                ..a
            },
    )
}

/// The accounts after the rewards were paid: every active stake has its share more, and the
/// reserve has their sum less.
pub open spec fn rewarded(m: Map<[u8; 32], AccountData>, pool: Pubkey, units: u64) -> Map<
    [u8; 32],
    AccountData,
> {
    Map::new(
        |k: [u8; 32]| m.contains_key(k),
        |k: [u8; 32]|
            if earns(m, pool, k) {
                AccountData {
                    balance: (m[k].balance + rewards(m, pool, units)[k].balance) as u64,
                    ..m[k]
                }
            } else if k == pool.0 {
                AccountData {
                    balance: (m[k].balance - total(rewards(m, pool, units))) as u64,
                    ..m[k]
                }
            } else {
                m[k]
            },
    )
}

pub proof fn lemma_share(amount: int, stake: int, whole: int)
    requires
        0 <= amount,
        0 <= stake <= whole,
        0 < whole,
    ensures
        0 <= share_of(amount, stake, whole) <= amount,
        share_of(amount, stake, whole) * whole <= amount * stake,
{
    let s = amount * stake / whole;
    assert(0 <= amount * stake <= amount * whole) by (nonlinear_arith)
        requires
            0 <= amount,
            0 <= stake <= whole,
    ;
    vstd::arithmetic::div_mod::lemma_fundamental_div_mod(amount * stake, whole);
    vstd::arithmetic::div_mod::lemma_mod_bound(amount * stake, whole);
    assert(s * whole <= amount * stake) by (nonlinear_arith)
        requires
            amount * stake == whole * s + (amount * stake) % whole,
            (amount * stake) % whole >= 0,
    ;
    vstd::arithmetic::div_mod::lemma_div_pos_is_pos(amount * stake, whole);
    assert(s <= amount) by (nonlinear_arith)
        requires
            s * whole <= amount * stake,
            amount * stake <= amount * whole,
            0 < whole,
    ;
}

pub proof fn lemma_two_in_total(m: Map<[u8; 32], AccountData>, a: [u8; 32], b: [u8; 32])
    requires
        m.dom().finite(),
        m.contains_key(a),
        m.contains_key(b),
        a != b,
    ensures
        m[a].balance + m[b].balance <= total(m),
{
    lemma_total_remove(m, a);
    assert(m.remove(a).dom() =~= m.dom().remove(a));
    lemma_balance_in_total(m.remove(a), b);
}

pub proof fn lemma_total_of_nothing(m: Map<[u8; 32], AccountData>)
    requires
        m.dom().finite(),
        forall|k: [u8; 32]| #[trigger] m.contains_key(k) ==> m[k].balance == 0,
    ensures
        total(m) == 0,
    decreases m.dom().len(),
{
    if m.dom().len() > 0 {
        let k = m.dom().choose();
        assert(m.dom().contains(k));
        assert(m.remove(k).dom() =~= m.dom().remove(k));
        lemma_total_of_nothing(m.remove(k));
        lemma_total_remove(m, k);
    }
}

/// The accounts with what was paid so far: `done` says what to whom.
spec fn partly_rewarded(
    m: Map<[u8; 32], AccountData>,
    done: Map<[u8; 32], AccountData>,
) -> Map<[u8; 32], AccountData> {
    Map::new(
        |k: [u8; 32]| m.contains_key(k),
        |k: [u8; 32]|
            if done.contains_key(k) {
                AccountData { balance: (m[k].balance + done[k].balance) as u64, ..m[k] }
            } else {
                m[k]
            },
    )
}

fn active_stake(ledger: &Ledger, i: usize, pool: &Pubkey) -> (stake: Option<u64>)
    requires
        ledger.wf(),
        i < ledger.accounts.listed().len(),
    ensures
        ({
            let k = ledger.accounts.listed()[i as int].0;
            &&& ledger.data().contains_key(k)
            &&& stake is Some <==> earns(ledger.data(), *pool, k)
            &&& stake is Some ==> stake->0 == ledger.data()[k].balance
        }),
{
    let entry = ledger.accounts.entry(i);
    proof {
        ledger.accounts.lemma_listed();
        let k = ledger.accounts.listed()[i as int].0;
        assert(ledger.accounts@[k] == entry.1);
    }
    let key = Pubkey(entry.0);
    if key.same_as(pool) || !entry.1.owner.same_as(&stake_program_id()) {
        return None;
    }
    match StakeState::decode(entry.1.data.as_slice()) {
        Err(_) => None,
        Ok(s) => {
            proof {
                assert(stake_bytes(s)[64] == status_tag(s.status));
            }
            match s.status {
                StakeStatus::Active => Some(entry.1.balance),
                StakeStatus::Deactivated => None,
            }
        },
    }
}

spec fn listed_as(list: Seq<([u8; 32], u64)>, k: [u8; 32]) -> bool {
    exists|j: int| 0 <= j < list.len() && (#[trigger] list[j]).0 == k
}

/// The active stakes, each with its address, and their sum.
fn list_stakes(ledger: &Ledger, pool: &Pubkey) -> (found: (Vec<([u8; 32], u64)>, u128))
    requires
        ledger.wf(),
    ensures
        forall|k: [u8; 32]| #[trigger]
            earns(ledger.data(), *pool, k) <==> listed_as(found.0@, k),
        forall|j: int|
            0 <= j < found.0@.len() ==> (#[trigger] found.0@[j]).1
                == ledger.data()[found.0@[j].0].balance,
        forall|i: int, j: int|
            0 <= i < j < found.0@.len() ==> (#[trigger] found.0@[i]).0 != (#[trigger] found.0@[j]).0,
        found.1 == total(stakes(ledger.data(), *pool)),
{
    let n: usize = ledger.accounts.len();
    let ghost m = ledger.data();
    let ghost all = ledger.accounts.listed();
    let mut list: Vec<([u8; 32], u64)> = Vec::new();
    let mut sum: u128 = 0;
    let mut i: usize = 0;
    let ghost mut seen: Map<[u8; 32], AccountData> = Map::empty();
    proof {
        ledger.accounts.lemma_listed();
        assert(total(seen) == 0);
    }
    while i < n
        invariant
            ledger.wf(),
            m == ledger.data(),
            i <= n == all.len(),
            all == ledger.accounts.listed(),
            ascending(all),
            seen.dom().finite(),
            sum == total(seen),
            sum <= i * u64::MAX,
            forall|k: [u8; 32]| #[trigger]
                seen.contains_key(k) <==> exists|j: int|
                    0 <= j < list@.len() && (#[trigger] list@[j]).0 == k,
            forall|k: [u8; 32]| #[trigger]
                seen.contains_key(k) <==> (earns(m, *pool, k) && exists|j: int|
                    0 <= j < i && (#[trigger] all[j]).0 == k),
            forall|k: [u8; 32]| #[trigger] seen.contains_key(k) ==> seen[k] == m[k],
            forall|j: int|
                0 <= j < list@.len() ==> (#[trigger] list@[j]).1 == m[list@[j].0].balance,
            forall|a: int, b: int|
                0 <= a < b < list@.len() ==> (#[trigger] list@[a]).0 != (#[trigger] list@[b]).0,
        decreases n - i,
    {
        let ghost key = all[i as int].0;
        proof {
            assert(!seen.contains_key(key)) by {
                if seen.contains_key(key) {
                    let j = choose|j: int| 0 <= j < i && (#[trigger] all[j]).0 == key;
                    lemma_key_lt_asymmetric(all[j].0, all[i as int].0);
                }
            }
            assert(i * u64::MAX + u64::MAX == (i + 1) * u64::MAX) by (nonlinear_arith);
            assert((i + 1) * u64::MAX <= u128::MAX) by (nonlinear_arith)
                requires
                    i + 1 <= usize::MAX,
                    usize::MAX <= u64::MAX,
            ;
        }
        let ghost before = seen;
        let ghost old_list = list@;
        if let Some(stake) = active_stake(ledger, i, pool) {
            let entry = ledger.accounts.entry(i);
            list.push((entry.0, stake));
            sum = sum + stake as u128;
            proof {
                lemma_total_insert(seen, key, m[key]);
                seen = seen.insert(key, m[key]);
                assert forall|k: [u8; 32]| #[trigger] seen.contains_key(k) <==> exists|j: int|
                    0 <= j < list@.len() && (#[trigger] list@[j]).0 == k by {
                    if before.contains_key(k) {
                        let j = choose|j: int|
                            0 <= j < old_list.len() && (#[trigger] old_list[j]).0 == k;
                        assert(list@[j] == old_list[j]);
                    } else if k == key {
                        assert(list@[old_list.len() as int].0 == k);
                    }
                    if exists|j: int| 0 <= j < list@.len() && (#[trigger] list@[j]).0 == k {
                        let j = choose|j: int| 0 <= j < list@.len() && (#[trigger] list@[j]).0 == k;
                        if j < old_list.len() {
                            assert(old_list[j].0 == k);
                            assert(before.contains_key(k));
                        }
                    }
                }
                assert forall|a: int, b: int| 0 <= a < b < list@.len() implies (
                #[trigger] list@[a]).0 != (#[trigger] list@[b]).0 by {
                    if b == old_list.len() {
                        assert(before.contains_key(old_list[a].0));
                    }
                }
            }
        }
        proof {
            assert forall|k: [u8; 32]| #[trigger] seen.contains_key(k) <==> (earns(m, *pool, k)
                && exists|j: int| 0 <= j < i + 1 && (#[trigger] all[j]).0 == k) by {
                if before.contains_key(k) {
                    let j = choose|j: int| 0 <= j < i && (#[trigger] all[j]).0 == k;
                    assert(all[j].0 == k);
                } else if k == key {
                    assert(all[i as int].0 == k);
                }
                if earns(m, *pool, k) && exists|j: int| 0 <= j < i + 1 && (#[trigger] all[j]).0 == k {
                    let j = choose|j: int| 0 <= j < i + 1 && (#[trigger] all[j]).0 == k;
                    if j < i {
                        assert(before.contains_key(k));
                    }
                }
            }
        }
        i += 1;
    }
    proof {
        ledger.accounts.lemma_listed();
        assert forall|k: [u8; 32]| #[trigger] earns(m, *pool, k) <==> seen.contains_key(k) by {
            if earns(m, *pool, k) {
                assert(ledger.accounts@.contains_key(k));
            }
        }
        assert(stakes(m, *pool) =~= seen);
        assert forall|k: [u8; 32]| #[trigger] earns(ledger.data(), *pool, k) <==> listed_as(
            list@,
            k,
        ) by {
            assert(earns(m, *pool, k) <==> seen.contains_key(k));
        }
    }
    (list, sum)
}

impl Ledger {
    /// Pays the active stakes out of the reserve `pool`: at most `units`, and at most what the
    /// reserve has. What rounding leaves over stays in the reserve.
    pub fn distribute_staking_rewards(&mut self, pool: Pubkey, units: u64) -> (paid: u64)
        requires
            old(self).wf(),
            total(old(self).data()) <= u64::MAX,
        ensures
            final(self).wf(),
            final(self).blocks == old(self).blocks,
            final(self).data() == rewarded(old(self).data(), pool, units),
            paid == total(rewards(old(self).data(), pool, units)),
            paid <= payout(old(self).data(), pool, units),
            final(self).data().dom().finite(),
            total(final(self).data()) == total(old(self).data()),
    {
        let ghost m = self.data();
        let (list, whole) = list_stakes(self, &pool);
        let left: u64 = self.get_balance(&pool);
        let amount: u64 = if units <= left {
            units
        } else {
            left
        };
        let ghost wanted = rewards(m, pool, units);
        let ghost mut done: Map<[u8; 32], AccountData> = Map::empty();
        let mut paid: u64 = 0;
        let mut given: u128 = 0;
        let mut i: usize = 0;
        proof {
            self.accounts.lemma_listed();
            assert(m.dom() =~= self.accounts@.dom());
            assert(total(done) == 0);
            assert(self.data() =~= partly_rewarded(m, done));
            assert(amount == payout(m, pool, units));
            assert(stakes(m, pool).dom().subset_of(m.dom()));
            vstd::set_lib::lemma_len_subset(stakes(m, pool).dom(), m.dom());
            assert(0 * whole <= amount * 0) by (nonlinear_arith);
            assert(stakes(m, pool).remove_keys(done.dom()) =~= stakes(m, pool));
            assert(wanted.dom() =~= stakes(m, pool).dom());
        }
        if whole > 0 {
            while i < list.len()
                invariant
                    i <= list@.len(),
                    whole > 0,
                    whole == total(stakes(m, pool)),
                    m.dom().finite(),
                    stakes(m, pool).dom().finite(),
                    total(m) <= u64::MAX,
                    amount == payout(m, pool, units),
                    wanted == rewards(m, pool, units),
                    self.wf(),
                    self.blocks == old(self).blocks,
                    self.data() == partly_rewarded(m, done),
                    self.data().dom().finite(),
                    total(self.data()) == total(m) + paid,
                    done.dom().finite(),
                    paid == total(done),
                    given <= whole,
                    paid * whole <= amount * given,
                    forall|k: [u8; 32]| #[trigger]
                        earns(m, pool, k) <==> listed_as(list@, k),
                    forall|j: int|
                        0 <= j < list@.len() ==> (#[trigger] list@[j]).1 == m[list@[j].0].balance,
                    forall|a: int, b: int|
                        0 <= a < b < list@.len() ==> (#[trigger] list@[a]).0 != (
                        #[trigger] list@[b]).0,
                    forall|k: [u8; 32]| #[trigger]
                        done.contains_key(k) <==> exists|j: int|
                            0 <= j < i && (#[trigger] list@[j]).0 == k,
                    forall|k: [u8; 32]| #[trigger]
                        done.contains_key(k) ==> earns(m, pool, k) && done[k] == wanted[k],
                    given + total(stakes(m, pool).remove_keys(done.dom())) == whole,
                decreases list@.len() - i,
            {
                let (key, stake): ([u8; 32], u64) = list[i];
                let ghost rest = stakes(m, pool).remove_keys(done.dom());
                proof {
                    assert(list@[i as int].0 == key);
                    assert(earns(m, pool, key));
                    assert(stakes(m, pool).contains_key(key));
                    assert(!done.contains_key(key)) by {
                        if done.contains_key(key) {
                            let j = choose|j: int| 0 <= j < i && (#[trigger] list@[j]).0 == key;
                            assert(list@[j].0 != list@[i as int].0);
                        }
                    }
                    lemma_balance_in_total(stakes(m, pool), key);
                    lemma_share(amount as int, stake as int, whole as int);
                    if amount > 0 {
                        lemma_two_in_total(m, pool.0, key);
                    } else {
                        lemma_balance_in_total(m, key);
                    }
                    assert(rest.dom().subset_of(stakes(m, pool).dom()));
                    vstd::set_lib::lemma_len_subset(rest.dom(), stakes(m, pool).dom());
                    assert(rest.contains_key(key));
                    lemma_total_remove(rest, key);
                    assert(amount as u128 * stake as u128 <= u128::MAX) by (nonlinear_arith)
                        requires
                            amount <= u64::MAX,
                            stake <= u64::MAX,
                    ;
                    assert(amount * stake >= 0) by (nonlinear_arith);
                }
                let share: u64 = ((amount as u128 * stake as u128) / whole) as u64;
                let ghost paid_before = paid;
                let ghost given_before = given;
                let ghost before = done;
                proof {
                    assert(share == share_of(amount as int, stake as int, whole as int));
                    assert(wanted[key].balance == share);
                    assert((paid + share) * whole <= amount * (given + stake)) by (nonlinear_arith)
                        requires
                            paid * whole <= amount * given,
                            share * whole <= amount * stake,
                    ;
                    assert(amount * (given + stake) <= amount * whole) by (nonlinear_arith)
                        requires
                            given + stake <= whole,
                            0 <= amount,
                    ;
                    assert(paid + share <= amount) by (nonlinear_arith)
                        requires
                            (paid + share) * whole <= amount * whole,
                            whole > 0,
                    ;
                }
                let ghost c = self.data();
                proof {
                    assert(c[key] == m[key]);
                    lemma_total_insert(
                        c,
                        key,
                        AccountData { balance: (stake + share) as u64, ..c[key] },
                    );
                }
                set_balance(&mut self.accounts, &Pubkey(key), stake + share);
                paid = paid + share;
                given = given + stake as u128;
                proof {
                    lemma_total_insert(done, key, wanted[key]);
                    done = done.insert(key, wanted[key]);
                    assert(self.data() =~= partly_rewarded(m, done));
                    assert(stakes(m, pool).remove_keys(done.dom()) =~= rest.remove(key));
                    assert forall|k: [u8; 32]| #[trigger] done.contains_key(k) <==> exists|j: int|
                        0 <= j < i + 1 && (#[trigger] list@[j]).0 == k by {
                        if before.contains_key(k) {
                            let j = choose|j: int| 0 <= j < i && (#[trigger] list@[j]).0 == k;
                            assert(list@[j].0 == k);
                        } else if k == key {
                            assert(list@[i as int].0 == k);
                        }
                        if exists|j: int| 0 <= j < i + 1 && (#[trigger] list@[j]).0 == k {
                            let j = choose|j: int| 0 <= j < i + 1 && (#[trigger] list@[j]).0 == k;
                            if j < i {
                                assert(before.contains_key(k));
                            }
                        }
                    }
                }
                i += 1;
            }
            proof {
                assert(wanted =~= done);
                assert(paid <= amount) by (nonlinear_arith)
                    requires
                        paid * whole <= amount * given,
                        given <= whole,
                        whole > 0,
                        0 <= amount,
                ;
            }
            if paid > 0 {
                proof {
                    assert(m.contains_key(pool.0));
                    assert(!done.contains_key(pool.0));
                }
                let ghost c = self.data();
                proof {
                    assert(c[pool.0] == m[pool.0]);
                    lemma_total_insert(
                        c,
                        pool.0,
                        AccountData { balance: (left - paid) as u64, ..c[pool.0] },
                    );
                }
                set_balance(&mut self.accounts, &pool, left - paid);
            }
        } else {
            proof {
                lemma_total_of_nothing(wanted);
            }
        }
        proof {
            assert(self.data() =~= rewarded(m, pool, units));
        }
        paid
    }
}

} // verus!
