//! No units come from nowhere: what the programs and the fee do to the sum of all
//! balances.
use crate::account::{wallet, AccountData};
use crate::ledger::{
    all_in_range, applied, applies_in_range, charged, fee_fits, run_all, saturated, with_account, with_balance,
    with_wallet, Ledger, Program, TxFailure,
};
use crate::keymap::{ascending, lemma_key_lt_asymmetric};
use crate::memo_program::memo_outcome;
use crate::pubkey::{system_program, Pubkey};
use crate::stake_program::{stake_outcome, withdraw_failure, withdrawal_fits};
use crate::system_program::{system_outcome, transferred};
use crate::transaction::{transaction_good, InstructionData, Transaction};
use vstd::prelude::*;

verus! {

/// The sum of all balances.
pub open spec fn total(m: Map<[u8; 32], AccountData>) -> nat
    decreases m.dom().len(),
    when m.dom().finite()
{
    if m.dom().len() == 0 {
        0
    } else {
        let k = m.dom().choose();
        m[k].balance as nat + total(m.remove(k))
    }
}

/// Any account can be taken out of the sum.
pub proof fn lemma_total_remove(m: Map<[u8; 32], AccountData>, k: [u8; 32])
    requires
        m.dom().finite(),
        m.contains_key(k),
    ensures
        total(m) == m[k].balance as nat + total(m.remove(k)),
    decreases m.dom().len(),
{
    let c = m.dom().choose();
    assert(m.dom().contains(k));
    assert(m.dom().len() > 0) by {
        if m.dom().len() == 0 {
            assert(m.dom() =~= Set::empty());
        }
    }
    assert(m.dom().contains(c));
    assert(m.remove(c).dom() =~= m.dom().remove(c));
    assert(m.remove(k).dom() =~= m.dom().remove(k));
    if c != k {
        lemma_total_remove(m.remove(c), k);
        lemma_total_remove(m.remove(k), c);
        assert(m.remove(c).remove(k) =~= m.remove(k).remove(c));
    }
}

/// Changing or adding an account changes the sum by what its balance changed.
pub proof fn lemma_total_insert(m: Map<[u8; 32], AccountData>, k: [u8; 32], a: AccountData)
    requires
        m.dom().finite(),
    ensures
        m.insert(k, a).dom().finite(),
        total(m.insert(k, a)) == total(m) + a.balance as nat - (if m.contains_key(k) {
            m[k].balance as nat
        } else {
            0
        }),
{
    let n = m.insert(k, a);
    assert(n.dom() =~= m.dom().insert(k));
    lemma_total_remove(n, k);
    if m.contains_key(k) {
        lemma_total_remove(m, k);
        assert(n.remove(k) =~= m.remove(k));
    } else {
        assert(n.remove(k) =~= m);
    }
}

/// A balance is part of the sum.
pub proof fn lemma_balance_in_total(m: Map<[u8; 32], AccountData>, a: [u8; 32])
    requires
        m.dom().finite(),
        m.contains_key(a),
    ensures
        m[a].balance <= total(m),
{
    lemma_total_remove(m, a);
}

proof fn lemma_total_account(m: Map<[u8; 32], AccountData>, key: Pubkey, owner: Pubkey)
    requires
        m.dom().finite(),
    ensures
        with_account(m, key, owner).dom().finite(),
        total(with_account(m, key, owner)) == total(m),
        with_account(m, key, owner).contains_key(key.0),
{
    if !m.contains_key(key.0) {
        lemma_total_insert(m, key.0, wallet(owner));
    }
}

/// The sum stays the same when a balance that is there moves from one account to
/// another, and the moved amount fits.
proof fn lemma_move(m: Map<[u8; 32], AccountData>, from: Pubkey, to: Pubkey, amount: u64)
    requires
        m.dom().finite(),
        total(m) <= u64::MAX,
        m.contains_key(from.0),
        m[from.0].balance >= amount,
    ensures
        ({
            let paid = with_balance(m, from, (m[from.0].balance - amount) as u64);
            let both = with_wallet(paid, to);
            let after = with_balance(both, to, (both[to.0].balance + amount) as u64);
            &&& both[to.0].balance + amount <= u64::MAX
            &&& after.dom().finite()
            &&& total(after) == total(m)
        }),
{
    let paid = with_balance(m, from, (m[from.0].balance - amount) as u64);
    lemma_balance_in_total(m, from.0);
    lemma_total_insert(
        m,
        from.0,
        AccountData { balance: (m[from.0].balance - amount) as u64, ..m[from.0] },
    );
    let both = with_wallet(paid, to);
    lemma_total_account(paid, to, system_program());
    lemma_balance_in_total(both, to.0);
    lemma_total_insert(
        both,
        to.0,
        AccountData { balance: (both[to.0].balance + amount) as u64, ..both[to.0] },
    );
}

/// Charging a fee keeps the sum of all balances, and the fee always fits.
pub proof fn law_fee_keeps_the_sum(
    m: Map<[u8; 32], AccountData>,
    payer: Pubkey,
    collector: Pubkey,
    fee: u64,
)
    requires
        m.dom().finite(),
        total(m) <= u64::MAX,
        m.contains_key(payer.0),
        m[payer.0].balance >= fee,
    ensures
        fee_fits(m, payer, collector, fee),
        charged(m, payer, collector, fee).dom().finite(),
        total(charged(m, payer, collector, fee)) == total(m),
{
    lemma_move(m, payer, collector, fee);
}

/// A transfer keeps the sum of all balances, whether it succeeds or fails.
pub proof fn law_transfer_keeps_the_sum(
    m: Map<[u8; 32], AccountData>,
    from: Pubkey,
    to: Pubkey,
    amount: u64,
)
    requires
        m.dom().finite(),
        total(m) <= u64::MAX,
    ensures
        transferred(m, from, to, amount).0.dom().finite(),
        total(transferred(m, from, to, amount).0) == total(m),
{
    if m.contains_key(from.0) && m[from.0].balance >= amount {
        lemma_move(m, from, to, amount);
    }
}

/// A transfer between two accounts takes the amount from the one, gives it to the
/// other, and leaves every other account as it was.
pub proof fn law_transfer_moves_the_amount(
    m: Map<[u8; 32], AccountData>,
    from: Pubkey,
    to: Pubkey,
    amount: u64,
)
    requires
        m.dom().finite(),
        total(m) <= u64::MAX,
        m.contains_key(from.0),
        m[from.0].balance >= amount,
        from != to,
    ensures
        ({
            let after = transferred(m, from, to, amount).0;
            &&& transferred(m, from, to, amount).1 is None
            &&& after[from.0].balance == m[from.0].balance - amount
            &&& after[to.0].balance == amount + (if m.contains_key(to.0) {
                m[to.0].balance as int
            } else {
                0
            })
            &&& forall|k: [u8; 32]|
                k != from.0 && k != to.0 ==> (#[trigger] after.contains_key(k) == m.contains_key(k)) && after[k]
                    == m[k]
        }),
{
    lemma_move(m, from, to, amount);
    assert(from.0 != to.0);
}

/// The system program keeps the sum of all balances.
pub proof fn law_system_keeps_the_sum(
    m: Map<[u8; 32], AccountData>,
    i: InstructionData,
    payer: Pubkey,
)
    requires
        m.dom().finite(),
        total(m) <= u64::MAX,
    ensures
        system_outcome(m, i, payer).0.dom().finite(),
        total(system_outcome(m, i, payer).0) == total(m),
{
    let number = crate::codec::le_value(i.data.subrange(1, 9)) as u64;
    if i.accounts.len() >= 1 {
        let fresh = i.accounts[0];
        let owner = crate::pubkey::key_at(i.data, 9);
        lemma_total_account(m, fresh, owner);
        law_transfer_keeps_the_sum(with_account(m, fresh, owner), payer, fresh, number);
        if i.accounts.len() >= 2 {
            law_transfer_keeps_the_sum(m, i.accounts[0], i.accounts[1], number);
        }
    }
}

/// The memo program keeps the sum of all balances.
pub proof fn law_memo_keeps_the_sum(m: Map<[u8; 32], AccountData>, i: InstructionData)
    requires
        m.dom().finite(),
    ensures
        memo_outcome(m, i).0.dom().finite(),
        total(memo_outcome(m, i).0) == total(m),
{
    if i.accounts.len() >= 1 && m.contains_key(i.accounts[0].0) {
        let t = i.accounts[0];
        lemma_total_insert(m, t.0, AccountData { data: i.data, ..m[t.0] });
    }
}

/// The stake program keeps the sum of all balances, and a withdrawal always fits.
pub proof fn law_stake_keeps_the_sum(
    m: Map<[u8; 32], AccountData>,
    i: InstructionData,
    payer: Pubkey,
)
    requires
        m.dom().finite(),
        total(m) <= u64::MAX,
    ensures
        withdrawal_fits(m, i, payer),
        stake_outcome(m, i, payer).0.dom().finite(),
        total(stake_outcome(m, i, payer).0) == total(m),
{
    let amount = crate::codec::le_value(i.data.subrange(1, 9)) as u64;
    if i.accounts.len() >= 1 {
        let t = i.accounts[0];
        let state = crate::stake_program::stake_state_of(m[t.0].data);
        let opened = crate::stake::StakeState {
            authority: crate::pubkey::key_at(i.data, 1),
            validator: crate::pubkey::key_at(i.data, 33),
            status: crate::stake::StakeStatus::Active,
        };
        let stopped = crate::stake::StakeState {
            status: crate::stake::StakeStatus::Deactivated,
            ..state
        };
        lemma_total_insert(
            m,
            t.0,
            AccountData { data: crate::stake::stake_bytes(opened), ..m[t.0] },
        );
        lemma_total_insert(
            m,
            t.0,
            AccountData { data: crate::stake::stake_bytes(stopped), ..m[t.0] },
        );
        if withdraw_failure(m, i.accounts, payer, amount) is None {
            lemma_move(m, t, i.accounts[1], amount);
        }
    }
}

/// A program neither makes nor destroys units.
pub open spec fn keeps_the_sum(p: Program) -> bool {
    forall|m: Map<[u8; 32], AccountData>, i: InstructionData, payer: Pubkey|
        m.dom().finite() && total(m) <= u64::MAX ==> (#[trigger] p.code.outcome(m, i, payer)).0.dom().finite()
            && total(p.code.outcome(m, i, payer).0) == total(m)
}

proof fn lemma_run_keeps_the_sum(
    programs: Map<[u8; 32], Program>,
    m: Map<[u8; 32], AccountData>,
    instructions: Seq<InstructionData>,
    payer: Pubkey,
)
    requires
        m.dom().finite(),
        total(m) <= u64::MAX,
        forall|k: [u8; 32]| #[trigger] programs.contains_key(k) ==> keeps_the_sum(programs[k]),
    ensures
        run_all(programs, m, instructions, payer).0.dom().finite(),
        total(run_all(programs, m, instructions, payer).0) == total(m),
    decreases instructions.len(),
{
    if instructions.len() > 0 {
        let i = instructions[0];
        if programs.contains_key(i.program_id.0) {
            assert(keeps_the_sum(programs[i.program_id.0]));
            let r = programs[i.program_id.0].code.outcome(m, i, payer);
            assert(r.0.dom().finite() && total(r.0) == total(m));
            lemma_run_keeps_the_sum(programs, r.0, instructions.skip(1), payer);
        }
    }
}

/// Applying a transaction keeps the sum of all balances, whatever becomes of it, where
/// every program does.
pub proof fn law_transactions_keep_the_sum(
    m: Map<[u8; 32], AccountData>,
    tx: Transaction,
    programs: Map<[u8; 32], Program>,
    collector: Pubkey,
    fee: u64,
)
    requires
        m.dom().finite(),
        total(m) <= u64::MAX,
        forall|k: [u8; 32]| #[trigger] programs.contains_key(k) ==> keeps_the_sum(programs[k]),
    ensures
        applied(m, tx, programs, collector, fee).0.dom().finite(),
        total(applied(m, tx, programs, collector, fee).0) == total(m),
{
    let payer = tx.message.payer;
    let known = with_wallet(m, payer);
    lemma_total_account(m, payer, system_program());
    if known[payer.0].balance >= fee {
        law_fee_keeps_the_sum(known, payer, collector, fee);
        lemma_run_keeps_the_sum(
            programs,
            charged(known, payer, collector, fee),
            tx.message@.instructions,
            payer,
        );
    }
}

/// An instruction that fails costs the payer the fee and nothing else.
pub proof fn law_failure_costs_the_fee(
    m: Map<[u8; 32], AccountData>,
    tx: Transaction,
    programs: Map<[u8; 32], Program>,
    collector: Pubkey,
    fee: u64,
)
    requires
        transaction_good(tx),
        with_wallet(m, tx.message.payer)[tx.message.payer.0].balance >= fee,
        run_all(
            programs,
            charged(with_wallet(m, tx.message.payer), tx.message.payer, collector, fee),
            tx.message@.instructions,
            tx.message.payer,
        ).1 is Some,
    ensures
        applied(m, tx, programs, collector, fee).1 is Some,
        applied(m, tx, programs, collector, fee).0 == charged(
            with_wallet(m, tx.message.payer),
            tx.message.payer,
            collector,
            fee,
        ),
{
}

/// An airdrop adds exactly its amount to the sum of all balances, as long as the balance
/// has room.
pub proof fn law_airdrop_adds_its_amount(
    m: Map<[u8; 32], AccountData>,
    key: Pubkey,
    amount: u64,
)
    requires
        m.dom().finite(),
        with_wallet(m, key)[key.0].balance + amount <= u64::MAX,
    ensures
        ({
            let known = with_wallet(m, key);
            total(with_balance(known, key, saturated(known[key.0].balance + amount))) == total(m)
                + amount
        }),
{
    let known = with_wallet(m, key);
    lemma_total_account(m, key, system_program());
    lemma_total_insert(
        known,
        key.0,
        AccountData { balance: saturated(known[key.0].balance + amount), ..known[key.0] },
    );
}

/// A program stays in the range of balances, as long as the sum of them is in it.
pub open spec fn stays_in_range(p: Program) -> bool {
    forall|m: Map<[u8; 32], AccountData>, i: InstructionData, payer: Pubkey|
        m.dom().finite() && total(m) <= u64::MAX ==> #[trigger] p.code.in_range(m, i, payer)
}

/// Every program neither makes nor destroys units, and stays in range.
pub open spec fn programs_are_sound(programs: Map<[u8; 32], Program>) -> bool {
    forall|k: [u8; 32]| #[trigger]
        programs.contains_key(k) ==> keeps_the_sum(programs[k]) && stays_in_range(programs[k])
}

proof fn lemma_all_in_range(
    programs: Map<[u8; 32], Program>,
    m: Map<[u8; 32], AccountData>,
    instructions: Seq<InstructionData>,
    payer: Pubkey,
)
    requires
        m.dom().finite(),
        total(m) <= u64::MAX,
        programs_are_sound(programs),
    ensures
        all_in_range(programs, m, instructions, payer),
    decreases instructions.len(),
{
    if instructions.len() > 0 {
        let i = instructions[0];
        if programs.contains_key(i.program_id.0) {
            let p = programs[i.program_id.0];
            assert(keeps_the_sum(p) && stays_in_range(p));
            assert(p.code.in_range(m, i, payer));
            let r = p.code.outcome(m, i, payer);
            assert(r.0.dom().finite() && total(r.0) == total(m));
            lemma_all_in_range(programs, r.0, instructions.skip(1), payer);
        }
    }
}

/// With sound programs every transaction can be applied, as long as the sum of all balances
/// is in range, and the sum stays what it is.
pub proof fn law_sound_programs_apply(
    m: Map<[u8; 32], AccountData>,
    tx: Transaction,
    programs: Map<[u8; 32], Program>,
    collector: Pubkey,
    fee: u64,
)
    requires
        m.dom().finite(),
        total(m) <= u64::MAX,
        programs_are_sound(programs),
    ensures
        applies_in_range(m, tx, programs, collector, fee),
        applied(m, tx, programs, collector, fee).0.dom().finite(),
        total(applied(m, tx, programs, collector, fee).0) == total(m),
{
    assert forall|k: [u8; 32]| #[trigger] programs.contains_key(k) implies keeps_the_sum(
        programs[k],
    ) by {}
    law_transactions_keep_the_sum(m, tx, programs, collector, fee);
    let payer = tx.message.payer;
    let known = with_wallet(m, payer);
    lemma_total_account(m, payer, system_program());
    if known[payer.0].balance >= fee {
        law_fee_keeps_the_sum(known, payer, collector, fee);
        lemma_all_in_range(
            programs,
            charged(known, payer, collector, fee),
            tx.message@.instructions,
            payer,
        );
    }
}

/// A program that does what the system program does is sound.
pub proof fn lemma_system_is_sound(p: Program)
    requires
        forall|a, i, y| #[trigger] p.code.outcome(a, i, y) == system_outcome(a, i, y),
        forall|a, i, y| #[trigger] p.code.in_range(a, i, y),
    ensures
        keeps_the_sum(p),
        stays_in_range(p),
{
    assert forall|m: Map<[u8; 32], AccountData>, i: InstructionData, payer: Pubkey|
        m.dom().finite() && total(m) <= u64::MAX implies (#[trigger] p.code.outcome(
        m,
        i,
        payer,
    )).0.dom().finite() && total(p.code.outcome(m, i, payer).0) == total(m) by {
        law_system_keeps_the_sum(m, i, payer);
    }
}

/// A program that does what the memo program does is sound.
pub proof fn lemma_memo_is_sound(p: Program)
    requires
        forall|a, i, y| #[trigger] p.code.outcome(a, i, y) == memo_outcome(a, i),
        forall|a, i, y| #[trigger] p.code.in_range(a, i, y),
    ensures
        keeps_the_sum(p),
        stays_in_range(p),
{
    assert forall|m: Map<[u8; 32], AccountData>, i: InstructionData, payer: Pubkey|
        m.dom().finite() && total(m) <= u64::MAX implies (#[trigger] p.code.outcome(
        m,
        i,
        payer,
    )).0.dom().finite() && total(p.code.outcome(m, i, payer).0) == total(m) by {
        law_memo_keeps_the_sum(m, i);
    }
}

/// What is moved out of one account into another, where there is enough of it: what the
/// treasury pays out.
pub open spec fn disbursed(
    m: Map<[u8; 32], AccountData>,
    treasury: Pubkey,
    to: Pubkey,
    amount: u64,
) -> (Map<[u8; 32], AccountData>, Option<TxFailure>) {
    if !m.contains_key(treasury.0) || m[treasury.0].balance < amount {
        (m, Some(TxFailure::InsufficientFunds))
    } else {
        let paid = with_balance(m, treasury, (m[treasury.0].balance - amount) as u64);
        let both = with_wallet(paid, to);
        (with_balance(both, to, (both[to.0].balance + amount) as u64), None)
    }
}

/// The treasury pays out what it has and makes nothing: the sum of all balances stays what
/// it is.
pub proof fn law_treasury_keeps_the_sum(
    m: Map<[u8; 32], AccountData>,
    treasury: Pubkey,
    to: Pubkey,
    amount: u64,
)
    requires
        m.dom().finite(),
        total(m) <= u64::MAX,
    ensures
        disbursed(m, treasury, to, amount).0.dom().finite(),
        total(disbursed(m, treasury, to, amount).0) == total(m),
        disbursed(m, treasury, to, amount).1 is None ==> ({
            let paid = with_balance(m, treasury, (m[treasury.0].balance - amount) as u64);
            with_wallet(paid, to)[to.0].balance + amount <= u64::MAX
        }),
{
    if m.contains_key(treasury.0) && m[treasury.0].balance >= amount {
        lemma_move(m, treasury, to, amount);
    }
}

/// The sum of all balances of a ledger.
pub fn total_units(ledger: &Ledger) -> (sum: u128)
    requires
        ledger.wf(),
    ensures
        sum == total(ledger.data()),
        ledger.data().dom().finite(),
{
    let n: usize = ledger.accounts.len();
    let mut sum: u128 = 0;
    let mut i: usize = 0;
    let ghost mut seen: Map<[u8; 32], AccountData> = Map::empty();
    proof {
        ledger.accounts.lemma_listed();
        assert(total(seen) == 0);
    }
    let ghost all = ledger.accounts.listed();
    while i < n
        invariant
            ledger.wf(),
            i <= n == all.len(),
            all == ledger.accounts.listed(),
            ascending(all),
            seen.dom().finite(),
            sum == total(seen),
            sum <= i * u64::MAX,
            forall|k: [u8; 32]| #[trigger]
                seen.contains_key(k) <==> exists|j: int| 0 <= j < i && (#[trigger] all[j]).0 == k,
            forall|j: int|
                0 <= j < i ==> seen[(#[trigger] all[j]).0] == all[j].1@,
        decreases n - i,
    {
        let entry = ledger.accounts.entry(i);
        proof {
            let key = all[i as int].0;
            assert(!seen.contains_key(key)) by {
                if seen.contains_key(key) {
                    let j = choose|j: int| 0 <= j < i && (#[trigger] all[j]).0 == key;
                    lemma_key_lt_asymmetric(all[j].0, all[i as int].0);
                }
            }
            lemma_total_insert(seen, key, entry.1@);
            assert(i * u64::MAX + u64::MAX == (i + 1) * u64::MAX) by (nonlinear_arith);
            assert((i + 1) * u64::MAX <= u128::MAX) by (nonlinear_arith)
                requires
                    i + 1 <= usize::MAX,
                    usize::MAX <= u64::MAX,
            ;
            let before = seen;
            seen = seen.insert(key, entry.1@);
            assert forall|k: [u8; 32]| #[trigger] seen.contains_key(k) <==> exists|j: int|
                0 <= j < i + 1 && (#[trigger] all[j]).0 == k by {
                if before.contains_key(k) {
                    let j = choose|j: int| 0 <= j < i && (#[trigger] all[j]).0 == k;
                    assert(all[j].0 == k);
                } else if k == key {
                    assert(all[i as int].0 == k);
                }
            }
            assert forall|j: int| 0 <= j < i + 1 implies seen[(#[trigger] all[j]).0]
                == all[j].1@ by {
                if j < i {
                    assert(before.contains_key(all[j].0));
                }
            }
        }
        sum = sum + entry.1.balance as u128;
        i += 1;
    }
    proof {
        ledger.accounts.lemma_listed();
        let m = ledger.data();
        assert forall|k: [u8; 32]| #[trigger] m.contains_key(k) <==> seen.contains_key(k) by {
            assert(m.contains_key(k) == ledger.accounts@.contains_key(k));
        }
        assert forall|k: [u8; 32]| #[trigger] m.contains_key(k) implies m[k] == seen[k] by {
            let j = choose|j: int| 0 <= j < n && (#[trigger] all[j]).0 == k;
            assert(ledger.accounts@[all[j].0] == all[j].1);
        }
        assert(m =~= seen);
    }
    sum
}

} // verus!
