//! What a contract works with: the accounts that a call names, by their places in its list,
//! and the calls that the ledger offers.
use crate::codec::{array_at, le_bytes, le_decode, le_encode, le_value};
use crate::hash::{digests_equal, sha3_256, sha3_256_digest};
use crate::pubkey::Pubkey;
use crate::wallet_derive::{pda_derivation, PDA_DOMAIN};
use vstd::prelude::*;
use vstd::string::*;

verus! {

/// An account that a call names.
#[derive(Debug)]
pub struct Slot {
    pub address: Pubkey,
    pub balance: i64,
    pub data: Vec<u8>,
    /// It signed the transaction.
    pub signer: bool,
    /// It belongs to the program that is called.
    pub owned: bool,
}

/// What an account holds.
#[verifier::ext_equal]
pub ghost struct SlotData {
    pub address: Pubkey,
    pub balance: i64,
    pub data: Seq<u8>,
    pub signer: bool,
    pub owned: bool,
}

impl Slot {
    /// What the account holds.
    pub open spec fn view(&self) -> SlotData {
        SlotData {
            address: self.address,
            balance: self.balance,
            data: self.data@,
            signer: self.signer,
            owned: self.owned,
        }
    }

    fn duplicate(&self) -> (copy: Self)
        ensures
            copy@ == self@,
    {
        let data = self.data.clone();
        proof {
            assert(data@ =~= self.data@);
        }
        Slot {
            address: self.address,
            balance: self.balance,
            data,
            signer: self.signer,
            owned: self.owned,
        }
    }
}

/// What the ledger keeps while a contract runs.
#[derive(Debug)]
pub struct Host {
    /// The program that is called.
    pub program: Pubkey,
    /// Who published it.
    pub deployer: Pubkey,
    /// The accounts that the call names.
    pub slots: Vec<Slot>,
    /// What the contract has said.
    pub log: Vec<String>,
    /// The balances that were written to places at which the call names no account, for the
    /// ledger to judge.
    pub stray: Vec<(u32, i64)>,
}

/// What the ledger keeps while a contract runs.
#[verifier::ext_equal]
pub ghost struct HostData {
    pub program: Pubkey,
    pub deployer: Pubkey,
    pub slots: Seq<SlotData>,
    pub log: Seq<Seq<char>>,
    pub stray: Seq<(u32, i64)>,
}

/// What the accounts hold.
pub open spec fn slots_data(slots: Seq<Slot>) -> Seq<SlotData> {
    slots.map_values(|s: Slot| s@)
}

impl Host {
    /// What is kept.
    pub open spec fn view(&self) -> HostData {
        HostData {
            program: self.program,
            deployer: self.deployer,
            slots: slots_data(self.slots@),
            log: crate::text::texts(self.log@),
            stray: self.stray@,
        }
    }

    /// A second host with the same contents.
    pub fn duplicate(&self) -> (copy: Self)
        ensures
            copy@ == self@,
    {
        let mut slots: Vec<Slot> = Vec::new();
        let mut i: usize = 0;
        while i < self.slots.len()
            invariant
                i <= self.slots@.len(),
                slots@.len() == i,
                forall|j: int| 0 <= j < i ==> (#[trigger] slots@[j])@ == self.slots@[j]@,
            decreases self.slots@.len() - i,
        {
            slots.push(self.slots[i].duplicate());
            i += 1;
        }
        let mut log: Vec<String> = Vec::new();
        let mut k: usize = 0;
        while k < self.log.len()
            invariant
                k <= self.log@.len(),
                log@.len() == k,
                forall|j: int| 0 <= j < k ==> (#[trigger] log@[j])@ == self.log@[j]@,
            decreases self.log@.len() - k,
        {
            log.push(self.log[k].clone());
            k += 1;
        }
        let mut stray: Vec<(u32, i64)> = Vec::new();
        let mut n: usize = 0;
        while n < self.stray.len()
            invariant
                n <= self.stray@.len(),
                stray@ == self.stray@.take(n as int),
            decreases self.stray@.len() - n,
        {
            stray.push(self.stray[n]);
            n += 1;
        }
        proof {
            assert(stray@ =~= self.stray@);
        }
        let copy = Host { program: self.program, deployer: self.deployer, slots, log, stray };
        proof {
            assert(copy@.slots =~= self@.slots);
            assert(copy@.log =~= self@.log);
        }
        copy
    }
}

/// The contract gave up: what it has done is discarded, but for what it has said.
#[derive(Clone, Copy, Debug, PartialEq, Eq)]
pub struct Abort;

/// Giving up.
pub fn abort() -> (given_up: Abort)
    ensures
        given_up == Abort,
{
    Abort
}

/// No account owes anything.
pub open spec fn solvent(h: HostData) -> bool {
    forall|i: int| 0 <= i < h.slots.len() ==> (#[trigger] h.slots[i]).balance >= 0
}

/// The call names an account at this place.
pub open spec fn present(h: HostData, i: int) -> bool {
    0 <= i < h.slots.len()
}

/// The balance at a place; minus one where there is no account.
pub open spec fn balance_at(h: HostData, i: int) -> int {
    if present(h, i) {
        h.slots[i].balance as int
    } else {
        -1
    }
}

/// The account at a place signed.
pub open spec fn signs(h: HostData, i: int) -> bool {
    present(h, i) && h.slots[i].signer
}

/// Every place at which the call names this account, with other contents there.
pub open spec fn at_account(
    slots: Seq<SlotData>,
    address: Pubkey,
    change: spec_fn(SlotData) -> SlotData,
) -> Seq<SlotData> {
    slots.map_values(
        |s: SlotData|
            if s.address == address {
                change(s)
            } else {
                s
            },
    )
}

/// The account at a place with another balance, wherever the call names it; where the call
/// names none there, the ledger is told.
pub open spec fn with_balance(h: HostData, i: int, balance: int) -> HostData {
    if present(h, i) {
        HostData {
            slots: at_account(
                h.slots,
                h.slots[i].address,
                |s: SlotData| SlotData { balance: balance as i64, ..s },
            ),
            ..h
        }
    } else {
        HostData { stray: h.stray.push((i as u32, balance as i64)), ..h }
    }
}

/// The account at a place with other data, wherever the call names it.
pub open spec fn with_data(h: HostData, i: int, data: Seq<u8>) -> HostData {
    HostData {
        slots: at_account(h.slots, h.slots[i].address, |s: SlotData| SlotData { data, ..s }),
        ..h
    }
}

/// The account at a place belongs to the program, wherever the call names it.
pub open spec fn claimed(h: HostData, i: int) -> HostData {
    HostData {
        slots: at_account(h.slots, h.slots[i].address, |s: SlotData| SlotData { owned: true, ..s }),
        ..h
    }
}

/// An account holds the same at every place at which the call names it.
pub open spec fn coherent(slots: Seq<SlotData>) -> bool {
    forall|i: int, j: int|
        #![trigger slots[i], slots[j]]
        0 <= i < slots.len() && 0 <= j < slots.len() && slots[i].address == slots[j].address
            ==> slots[i] == slots[j]
}

/// One more thing said.
pub open spec fn having_said(h: HostData, text: Seq<char>) -> HostData {
    HostData { log: h.log.push(text), ..h }
}

/// The balance at a place; minus one where there is no account.
pub fn balance(host: &Host, idx: u32) -> (units: i64)
    ensures
        units == balance_at(host@, idx as int),
{
    if (idx as usize) < host.slots.len() {
        host.slots[idx as usize].balance
    } else {
        -1
    }
}

/// What is changed in an account.
enum Change {
    Balance(i64),
    Data(Vec<u8>),
    Owned,
}

impl Change {
    spec fn made(&self, s: SlotData) -> SlotData {
        match self {
            Change::Balance(balance) => SlotData { balance: *balance, ..s },
            Change::Data(data) => SlotData { data: data@, ..s },
            Change::Owned => SlotData { owned: true, ..s },
        }
    }

    fn make(&self, slot: &Slot) -> (changed: Slot)
        ensures
            changed@ == self.made(slot@),
    {
        let copy = slot.duplicate();
        match self {
            Change::Balance(balance) => Slot { balance: *balance, ..copy },
            Change::Data(data) => {
                let data = data.clone();
                proof {
                    assert(data@ =~= self->Data_0@);
                }
                Slot { data, ..copy }
            },
            Change::Owned => Slot { owned: true, ..copy },
        }
    }
}

fn change_account(host: &mut Host, at: usize, change: &Change)
    requires
        at < old(host).slots@.len(),
    ensures
        final(host)@ == (HostData {
            slots: at_account(
                old(host)@.slots,
                old(host)@.slots[at as int].address,
                |s: SlotData| change.made(s),
            ),
            ..old(host)@
        }),
{
    let ghost before = host@;
    let address: Pubkey = host.slots[at].address;
    let mut j: usize = 0;
    while j < host.slots.len()
        invariant
            j <= host.slots@.len(),
            host.slots@.len() == before.slots.len(),
            host.program == before.program,
            host.deployer == before.deployer,
            crate::text::texts(host.log@) == before.log,
            host.stray@ == before.stray,
            forall|k: int| j <= k < before.slots.len() ==> (#[trigger] host.slots@[k])@ == before.slots[k],
            forall|k: int|
                0 <= k < j ==> (#[trigger] host.slots@[k])@ == (if before.slots[k].address == address {
                    change.made(before.slots[k])
                } else {
                    before.slots[k]
                }),
        decreases before.slots.len() - j,
    {
        proof {
            assert(host.slots@[j as int]@ == before.slots[j as int]);
        }
        if host.slots[j].address.same_as(&address) {
            let changed = change.make(&host.slots[j]);
            host.slots[j] = changed;
        }
        j += 1;
    }
    proof {
        let after = HostData {
            slots: at_account(before.slots, address, |s: SlotData| change.made(s)),
            ..before
        };
        assert(host@.slots =~= after.slots);
        assert(host@ =~= after);
    }
}

/// Writes the balance of the account at a place.
pub fn set_balance(host: &mut Host, idx: u32, value: i64)
    ensures
        final(host)@ == with_balance(old(host)@, idx as int, value as int),
{
    let ghost before = host@;
    let i: usize = idx as usize;
    if i < host.slots.len() {
        change_account(host, i, &Change::Balance(value));
        proof {
            assert(host@.slots =~= with_balance(before, idx as int, value as int).slots);
        }
    } else {
        host.stray.push((idx, value));
    }
    proof {
        assert(host@ =~= with_balance(before, idx as int, value as int));
    }
}

/// Whether the account at a place signed.
pub fn is_signer(host: &Host, idx: u32) -> (yes: bool)
    ensures
        yes == signs(host@, idx as int),
{
    (idx as usize) < host.slots.len() && host.slots[idx as usize].signer
}

/// Says something.
pub fn log(host: &mut Host, text: &str)
    ensures
        final(host)@ == having_said(old(host)@, text@),
{
    let ghost before = host@;
    host.log.push(text.to_owned());
    proof {
        assert(host@.log =~= before.log.push(text@));
        assert(host@ =~= having_said(before, text@));
    }
}

/// What is said where a signature is missing.
pub const SIGNATURE_WANTED: &'static str = "qchain-sdk: se requiere firma";

/// Gives up where the condition does not hold, and says why.
pub fn require(host: &mut Host, holds: bool, reason: &str) -> (passed: Result<(), Abort>)
    ensures
        holds ==> passed is Ok && final(host)@ == old(host)@,
        !holds ==> passed is Err && final(host)@ == having_said(old(host)@, reason@),
{
    if holds {
        Ok(())
    } else {
        log(host, reason);
        Err(abort())
    }
}

/// Gives up where the account at a place did not sign, and says so.
pub fn require_signer(host: &mut Host, idx: u32) -> (passed: Result<(), Abort>)
    ensures
        signs(old(host)@, idx as int) ==> passed is Ok && final(host)@ == old(host)@,
        !signs(old(host)@, idx as int) ==> passed is Err && final(host)@ == having_said(
            old(host)@,
            SIGNATURE_WANTED@,
        ),
{
    let signed = is_signer(host, idx);
    require(host, signed, SIGNATURE_WANTED)
}

/// The accounts after a credit, where it is possible.
pub open spec fn credited(h: HostData, i: int, amount: i64) -> Option<HostData> {
    let b = if balance_at(h, i) < 0 {
        0
    } else {
        balance_at(h, i)
    };
    if amount < 0 || b + amount > i64::MAX {
        None
    } else {
        Some(with_balance(h, i, b + amount))
    }
}

/// The accounts after a debit, where it is possible.
pub open spec fn debited(h: HostData, i: int, amount: i64) -> Option<HostData> {
    if amount < 0 || balance_at(h, i) < amount {
        None
    } else {
        Some(with_balance(h, i, balance_at(h, i) - amount))
    }
}

/// The accounts after `amount` has moved from one place to another.
pub open spec fn moved(h: HostData, from: int, to: int, amount: i64) -> Option<HostData> {
    match debited(h, from, amount) {
        None => None,
        Some(d) => credited(d, to, amount),
    }
}

/// What a transfer leaves behind that does not come about: `amount` may have been taken
/// already; the call, which gives up then, undoes it.
pub open spec fn broken_off(h: HostData, from: int, amount: i64) -> HostData {
    match debited(h, from, amount) {
        None => h,
        Some(d) => d,
    }
}

/// The accounts after `amount` has moved from a place that signed to another, or all that
/// was said where it did not come to that.
pub open spec fn transferred(h: HostData, from: int, to: int, amount: i64) -> Result<
    HostData,
    Seq<Seq<char>>,
> {
    if !signs(h, from) {
        Err(h.log.push(SIGNATURE_WANTED@))
    } else {
        match moved(h, from, to, amount) {
            Some(after) => Ok(after),
            None => Err(h.log),
        }
    }
}

/// The call ended as `outcome` says: with these accounts, or given up with all this said.
pub open spec fn ended(
    outcome: Result<HostData, Seq<Seq<char>>>,
    done: Result<(), Abort>,
    after: HostData,
) -> bool {
    match outcome {
        Ok(h) => done is Ok && after == h,
        Err(log) => done is Err && after.log == log,
    }
}

/// The call ended as `outcome` says; where it was given up, everything but the log is as it
/// was before.
pub open spec fn settled(
    outcome: Result<HostData, Seq<Seq<char>>>,
    done: Result<(), Abort>,
    before: HostData,
    after: HostData,
) -> bool {
    match outcome {
        Ok(h) => done is Ok && after == h,
        Err(log) => done is Err && after == (HostData { log, ..before }),
    }
}

/// Takes over what a call has done on a copy: all of it, or only what was said where the
/// contract gave up.
pub(crate) fn settle(host: &mut Host, work: Host, done: Result<(), Abort>) -> (same: Result<
    (),
    Abort,
>)
    ensures
        same == done,
        done is Ok ==> final(host)@ == work@,
        done is Err ==> final(host)@ == (HostData { log: work@.log, ..old(host)@ }),
{
    let ghost before = host@;
    match done {
        Ok(_) => {
            *host = work;
        },
        Err(_) => {
            host.log = work.log;
            proof {
                assert(host@ =~= HostData { log: work@.log, ..before });
            }
        },
    }
    done
}

/// Adds `amount` to the account at a place.
pub fn credit(host: &mut Host, idx: u32, amount: i64) -> (done: Result<(), Abort>)
    ensures
        match credited(old(host)@, idx as int, amount) {
            Some(h) => done is Ok && final(host)@ == h,
            None => done is Err && final(host)@ == old(host)@,
        },
{
    if amount < 0 {
        return Err(abort());
    }
    let found: i64 = balance(host, idx);
    let b: i64 = if found < 0 {
        0
    } else {
        found
    };
    match b.checked_add(amount) {
        Some(v) => {
            set_balance(host, idx, v);
            Ok(())
        },
        None => Err(abort()),
    }
}

/// Takes `amount` from the account at a place.
pub fn debit(host: &mut Host, idx: u32, amount: i64) -> (done: Result<(), Abort>)
    ensures
        match debited(old(host)@, idx as int, amount) {
            Some(h) => done is Ok && final(host)@ == h,
            None => done is Err && final(host)@ == old(host)@,
        },
{
    if amount < 0 {
        return Err(abort());
    }
    let b: i64 = balance(host, idx);
    if b < amount {
        return Err(abort());
    }
    set_balance(host, idx, b - amount);
    Ok(())
}

/// Moves `amount` from one place to another, without asking who signed.
pub fn pda_transfer(host: &mut Host, from: u32, to: u32, amount: i64) -> (done: Result<(), Abort>)
    ensures
        match moved(old(host)@, from as int, to as int, amount) {
            Some(h) => done is Ok && final(host)@ == h,
            None => done is Err && final(host)@ == broken_off(old(host)@, from as int, amount),
        },
{
    match debit(host, from, amount) {
        Ok(_) => credit(host, to, amount),
        Err(a) => Err(a),
    }
}

/// Moves `amount` from a place that signed to another.
pub fn transfer(host: &mut Host, from: u32, to: u32, amount: i64) -> (done: Result<(), Abort>)
    ensures
        ended(transferred(old(host)@, from as int, to as int, amount), done, final(host)@),
        done is Err ==> final(host)@ == if signs(old(host)@, from as int) {
            broken_off(old(host)@, from as int, amount)
        } else {
            having_said(old(host)@, SIGNATURE_WANTED@)
        },
{
    match require_signer(host, from) {
        Ok(_) => pda_transfer(host, from, to, amount),
        Err(a) => Err(a),
    }
}

/// One of the places names this account.
pub open spec fn names(slots: Seq<SlotData>, address: Pubkey) -> bool {
    exists|i: int| 0 <= i < slots.len() && (#[trigger] slots[i]).address == address
}

/// The sum of the balances of all accounts, each counted once.
pub open spec fn total_balance(slots: Seq<SlotData>) -> int
    decreases slots.len(),
{
    if slots.len() == 0 {
        0
    } else if names(slots.drop_last(), slots.last().address) {
        total_balance(slots.drop_last())
    } else {
        total_balance(slots.drop_last()) + slots.last().balance
    }
}

/// The accounts have the same addresses and balances, and so the same sum.
pub proof fn lemma_same_balances(a: Seq<SlotData>, b: Seq<SlotData>)
    requires
        a.len() == b.len(),
        forall|i: int|
            0 <= i < a.len() ==> (#[trigger] a[i]).balance == b[i].balance && a[i].address
                == b[i].address,
    ensures
        total_balance(a) == total_balance(b),
    decreases a.len(),
{
    if a.len() > 0 {
        let n = a.len() - 1;
        let c = a.drop_last();
        let d = b.drop_last();
        assert(a[n].balance == b[n].balance && a[n].address == b[n].address);
        assert forall|i: int| 0 <= i < c.len() implies (#[trigger] c[i]).balance == d[i].balance
            && c[i].address == d[i].address by {
            assert(a[i].balance == b[i].balance);
        }
        lemma_same_balances(c, d);
        lemma_same_names(c, d, a[n].address);
    }
}

proof fn lemma_same_names(a: Seq<SlotData>, b: Seq<SlotData>, address: Pubkey)
    requires
        a.len() == b.len(),
        forall|i: int| 0 <= i < a.len() ==> (#[trigger] a[i]).address == b[i].address,
    ensures
        names(a, address) == names(b, address),
{
    if names(a, address) {
        let i = choose|i: int| 0 <= i < a.len() && (#[trigger] a[i]).address == address;
        assert(b[i].address == address);
    }
    if names(b, address) {
        let i = choose|i: int| 0 <= i < b.len() && (#[trigger] b[i]).address == address;
        assert(a[i].address == b[i].address);
    }
}

spec fn rebalanced(slots: Seq<SlotData>, address: Pubkey, balance: int) -> Seq<SlotData> {
    at_account(slots, address, |s: SlotData| SlotData { balance: balance as i64, ..s })
}

proof fn lemma_total_rebalanced(slots: Seq<SlotData>, address: Pubkey, old_balance: int, balance: int)
    requires
        i64::MIN <= balance <= i64::MAX,
        forall|i: int|
            0 <= i < slots.len() && (#[trigger] slots[i]).address == address ==> slots[i].balance
                == old_balance,
    ensures
        total_balance(rebalanced(slots, address, balance)) == total_balance(slots) + if names(
            slots,
            address,
        ) {
            balance - old_balance
        } else {
            0
        },
    decreases slots.len(),
{
    if slots.len() > 0 {
        let n = slots.len() - 1;
        let rest = slots.drop_last();
        let new = rebalanced(slots, address, balance);
        assert(new.drop_last() =~= rebalanced(rest, address, balance));
        assert forall|i: int| 0 <= i < rest.len() && (#[trigger] rest[i]).address
            == address implies rest[i].balance == old_balance by {
            assert(slots[i].address == address);
        }
        lemma_total_rebalanced(rest, address, old_balance, balance);
        lemma_same_names(rest, new.drop_last(), slots[n].address);
        assert(new.last().address == slots.last().address);
        if names(rest, address) {
            let i = choose|i: int| 0 <= i < rest.len() && (#[trigger] rest[i]).address == address;
            assert(slots[i].address == address);
        } else if names(slots, address) {
            let i = choose|i: int| 0 <= i < slots.len() && (#[trigger] slots[i]).address == address;
            if i < n {
                assert(rest[i].address == address);
            }
        } else {
            assert(slots[n].address != address);
        }
    }
}

/// Moving an amount changes neither the sum of all balances nor any account but the two,
/// and leaves nobody in debt; moving it from an account to itself changes nothing.
pub proof fn law_moving_conserves(h: HostData, from: int, to: int, amount: i64)
    requires
        solvent(h),
        coherent(h.slots),
        present(h, to),
        moved(h, from, to, amount) is Some,
    ensures
        ({
            let after = moved(h, from, to, amount)->0;
            let one = h.slots[from].address == h.slots[to].address;
            &&& present(h, from)
            &&& total_balance(after.slots) == total_balance(h.slots)
            &&& solvent(after)
            &&& coherent(after.slots)
            &&& after.slots.len() == h.slots.len()
            &&& forall|i: int|
                0 <= i < h.slots.len() ==> (#[trigger] after.slots[i]) == (SlotData {
                    balance: after.slots[i].balance,
                    ..h.slots[i]
                })
            &&& forall|i: int|
                0 <= i < h.slots.len() && h.slots[i].address != h.slots[from].address
                    && h.slots[i].address != h.slots[to].address ==> #[trigger] after.slots[i]
                    == h.slots[i]
            &&& one ==> after.slots == h.slots
            &&& !one ==> after.slots[from].balance == h.slots[from].balance - amount
                && after.slots[to].balance == h.slots[to].balance + amount
        }),
{
    let a = h.slots[from].address;
    let b = h.slots[to].address;
    let d = debited(h, from, amount)->0;
    let after = moved(h, from, to, amount)->0;
    assert(h.slots[from].balance >= 0 && h.slots[to].balance >= 0);
    assert(names(h.slots, a)) by {
        assert(h.slots[from].address == a);
    }
    lemma_total_rebalanced(
        h.slots,
        a,
        h.slots[from].balance as int,
        h.slots[from].balance - amount,
    );
    assert(d.slots =~= rebalanced(h.slots, a, h.slots[from].balance - amount));
    assert(d.slots[to].address == b);
    assert(names(d.slots, b));
    assert forall|i: int| 0 <= i < d.slots.len() && (#[trigger] d.slots[i]).address
        == b implies d.slots[i].balance == d.slots[to].balance by {
        assert(h.slots[i] == h.slots[to]);
    }
    lemma_total_rebalanced(d.slots, b, d.slots[to].balance as int, d.slots[to].balance + amount);
    assert(d.slots[to].balance >= 0);
    assert(after.slots =~= rebalanced(d.slots, b, d.slots[to].balance + amount));
    assert forall|i: int| 0 <= i < after.slots.len() implies (#[trigger] after.slots[i]).balance
        >= 0 by {
        assert(h.slots[i].balance >= 0);
        assert(d.slots[i].balance >= 0);
    }
    assert forall|i: int, j: int|
        #![trigger after.slots[i], after.slots[j]]
        0 <= i < after.slots.len() && 0 <= j < after.slots.len() && after.slots[i].address
            == after.slots[j].address implies after.slots[i] == after.slots[j] by {
        assert(h.slots[i] == h.slots[j]);
    }
    assert(after.slots[to].balance == d.slots[to].balance + amount);
    if a == b {
        assert(h.slots[from] == h.slots[to]);
        assert forall|i: int| 0 <= i < h.slots.len() implies after.slots[i] == h.slots[i] by {
            if h.slots[i].address == a {
                assert(h.slots[i] == h.slots[from]);
            }
        }
        assert(after.slots =~= h.slots);
    }
}

/// Claiming an account changes no balance, no address, no data and no signature.
pub proof fn lemma_claimed_keeps(h: HostData, i: int)
    requires
        present(h, i),
    ensures
        claimed(h, i).slots.len() == h.slots.len(),
        forall|j: int|
            0 <= j < h.slots.len() ==> (#[trigger] claimed(h, i).slots[j]) == (SlotData {
                owned: claimed(h, i).slots[j].owned,
                ..h.slots[j]
            }),
        forall|j: int|
            0 <= j < h.slots.len() && h.slots[j].address != h.slots[i].address
                ==> #[trigger] claimed(h, i).slots[j] == h.slots[j],
        solvent(h) ==> solvent(claimed(h, i)),
        coherent(h.slots) ==> coherent(claimed(h, i).slots),
        total_balance(claimed(h, i).slots) == total_balance(h.slots),
{
    let after = claimed(h, i);
    lemma_same_balances(h.slots, after.slots);
    if solvent(h) {
        assert forall|j: int| 0 <= j < after.slots.len() implies (
        #[trigger] after.slots[j]).balance >= 0 by {
            assert(h.slots[j].balance >= 0);
        }
    }
    if coherent(h.slots) {
        assert forall|j: int, k: int|
            #![trigger after.slots[j], after.slots[k]]
            0 <= j < after.slots.len() && 0 <= k < after.slots.len() && after.slots[j].address
                == after.slots[k].address implies after.slots[j] == after.slots[k] by {
            assert(h.slots[j] == h.slots[k]);
        }
    }
}

/// Writing data changes no balance, no address and no signature, and no data but that of the
/// one account.
pub proof fn lemma_with_data_keeps(h: HostData, i: int, data: Seq<u8>)
    requires
        present(h, i),
    ensures
        with_data(h, i, data).slots.len() == h.slots.len(),
        forall|j: int|
            0 <= j < h.slots.len() ==> (#[trigger] with_data(h, i, data).slots[j]) == (SlotData {
                data: with_data(h, i, data).slots[j].data,
                ..h.slots[j]
            }),
        forall|j: int|
            0 <= j < h.slots.len() && h.slots[j].address != h.slots[i].address
                ==> #[trigger] with_data(h, i, data).slots[j] == h.slots[j],
        forall|j: int|
            0 <= j < h.slots.len() && h.slots[j].address == h.slots[i].address
                ==> (#[trigger] with_data(h, i, data).slots[j]).data == data,
        solvent(h) ==> solvent(with_data(h, i, data)),
        coherent(h.slots) ==> coherent(with_data(h, i, data).slots),
        total_balance(with_data(h, i, data).slots) == total_balance(h.slots),
{
    let after = with_data(h, i, data);
    lemma_same_balances(h.slots, after.slots);
    if solvent(h) {
        assert forall|j: int| 0 <= j < after.slots.len() implies (
        #[trigger] after.slots[j]).balance >= 0 by {
            assert(h.slots[j].balance >= 0);
        }
    }
    if coherent(h.slots) {
        assert forall|j: int, k: int|
            #![trigger after.slots[j], after.slots[k]]
            0 <= j < after.slots.len() && 0 <= k < after.slots.len() && after.slots[j].address
                == after.slots[k].address implies after.slots[j] == after.slots[k] by {
            assert(h.slots[j] == h.slots[k]);
        }
    }
}

/// The address of an account of a program.
pub open spec fn pda(program: Pubkey, seed: Seq<u8>) -> Pubkey {
    Pubkey(sha3_256(pda_derivation(program, seed)))
}

/// The account at a place is the program's own under a seed.
pub open spec fn is_pda(h: HostData, i: int, seed: Seq<u8>) -> bool {
    present(h, i) && h.slots[i].address == pda(h.program, seed)
}

/// Claims the account at a place, where it is the program's own under a seed.
pub fn use_pda(host: &mut Host, idx: u32, seed: &[u8]) -> (own: bool)
    ensures
        own == is_pda(old(host)@, idx as int, seed@),
        final(host)@ == if own {
            claimed(old(host)@, idx as int)
        } else {
            old(host)@
        },
{
    let ghost before = host@;
    let i: usize = idx as usize;
    if i >= host.slots.len() {
        return false;
    }
    let mut data: Vec<u8> = Vec::new();
    data.extend_from_slice(PDA_DOMAIN.as_bytes());
    data.extend_from_slice(host.program.0.as_slice());
    data.extend_from_slice(seed);
    proof {
        assert(data@ =~= pda_derivation(host.program, seed@));
    }
    let address: [u8; 32] = sha3_256_digest(data.as_slice());
    if !digests_equal(&host.slots[i].address.0, &address) {
        return false;
    }
    change_account(host, i, &Change::Owned);
    proof {
        assert(host@.slots =~= claimed(before, idx as int).slots);
        assert(host@ =~= claimed(before, idx as int));
    }
    true
}

/// The address at a place.
pub fn pubkey(host: &Host, idx: u32) -> (address: Result<Pubkey, Abort>)
    ensures
        match address {
            Ok(k) => present(host@, idx as int) && k == host@.slots[idx as int].address,
            Err(_) => !present(host@, idx as int),
        },
{
    if (idx as usize) < host.slots.len() {
        Ok(host.slots[idx as usize].address)
    } else {
        Err(abort())
    }
}

/// A copy of the data at a place.
pub fn get_data(host: &Host, idx: u32) -> (data: Vec<u8>)
    requires
        present(host@, idx as int),
    ensures
        data@ == host@.slots[idx as int].data,
{
    let data = host.slots[idx as usize].data.clone();
    proof {
        assert(data@ =~= host.slots@[idx as int].data@);
    }
    data
}

/// Writes the data at a place.
pub fn set_data(host: &mut Host, idx: u32, data: Vec<u8>)
    requires
        present(old(host)@, idx as int),
    ensures
        final(host)@ == with_data(old(host)@, idx as int, data@),
{
    let ghost before = host@;
    let ghost bytes = data@;
    change_account(host, idx as usize, &Change::Data(data));
    proof {
        assert(host@.slots =~= with_data(before, idx as int, bytes).slots);
        assert(host@ =~= with_data(before, idx as int, bytes));
    }
}

/// The publisher of the program stands first and signed.
pub open spec fn deployer_signs(h: HostData) -> bool {
    signs(h, 0) && h.slots[0].address == h.deployer
}

/// All that has been said where the publisher does not stand first or did not sign.
pub open spec fn deployer_missed(h: HostData) -> Seq<Seq<char>> {
    if signs(h, 0) {
        h.log
    } else {
        h.log.push(SIGNATURE_WANTED@)
    }
}

/// Gives up unless the publisher of the program stands first and signed.
pub fn require_deployer(host: &mut Host) -> (passed: Result<(), Abort>)
    ensures
        deployer_signs(old(host)@) ==> passed is Ok && final(host)@ == old(host)@,
        !deployer_signs(old(host)@) ==> passed is Err && final(host)@ == (HostData {
            log: deployer_missed(old(host)@),
            ..old(host)@
        }),
{
    let ghost before = host@;
    match require_signer(host, 0) {
        Err(a) => Err(a),
        Ok(_) => {
            if host.slots[0].address.same_as(&host.deployer) {
                Ok(())
            } else {
                proof {
                    assert(host@ =~= HostData { log: deployer_missed(before), ..before });
                }
                Err(abort())
            }
        },
    }
}

/// The number in the eight bytes of `data` that begin at `at`.
pub open spec fn number_at(data: Seq<u8>, at: int) -> u64 {
    le_value(data.subrange(at, at + 8)) as u64
}

/// The number in the eight bytes of `data` that begin at `at`.
pub fn read_u64(data: &[u8], at: usize) -> (n: u64)
    requires
        at + 8 <= data@.len(),
    ensures
        n == number_at(data@, at as int),
        n == le_value(data@.subrange(at as int, at + 8)),
{
    let len: usize = data.len();
    assert(at + 8 <= len);
    le_decode(vstd::slice::slice_subrange(data, at, at + 8))
}

/// The address in the 32 bytes of `data` that begin at `at`.
pub fn read_pubkey(data: &[u8], at: usize) -> (key: Pubkey)
    requires
        at + 32 <= data@.len(),
    ensures
        key.0@ == data@.subrange(at as int, at + 32),
{
    Pubkey(array_at(data, at))
}

/// The bytes of an address and of some numbers behind it.
pub fn record(owner: &Pubkey, numbers: &[u64]) -> (data: Vec<u8>)
    ensures
        data@ == owner.0@ + numbers_bytes(numbers@),
{
    let mut data: Vec<u8> = Vec::new();
    data.extend_from_slice(owner.0.as_slice());
    let mut tail = number_record(numbers);
    data.append(&mut tail);
    proof {
        assert(data@ =~= owner.0@ + numbers_bytes(numbers@));
    }
    data
}

/// The bytes of some numbers, eight for each.
pub open spec fn numbers_bytes(numbers: Seq<u64>) -> Seq<u8>
    decreases numbers.len(),
{
    if numbers.len() == 0 {
        Seq::empty()
    } else {
        numbers_bytes(numbers.drop_last()) + le_bytes(numbers.last() as nat, 8)
    }
}

/// The bytes of some numbers.
pub fn number_record(numbers: &[u64]) -> (data: Vec<u8>)
    ensures
        data@ == numbers_bytes(numbers@),
{
    let mut data: Vec<u8> = Vec::new();
    let mut i: usize = 0;
    proof {
        assert(numbers@.take(0) =~= Seq::empty());
        assert(data@ =~= Seq::empty());
    }
    while i < numbers.len()
        invariant
            i <= numbers@.len(),
            data@ == numbers_bytes(numbers@.take(i as int)),
        decreases numbers@.len() - i,
    {
        let mut word = le_encode(numbers[i], 8);
        data.append(&mut word);
        proof {
            let t = numbers@.take(i + 1);
            assert(t.drop_last() =~= numbers@.take(i as int));
            assert(t.last() == numbers@[i as int]);
        }
        i += 1;
    }
    proof {
        assert(numbers@.take(numbers@.len() as int) =~= numbers@);
    }
    data
}

/// The sum, up to the largest number.
pub open spec fn capped_sum(a: u64, b: u64) -> u64 {
    if a + b <= u64::MAX {
        (a + b) as u64
    } else {
        u64::MAX
    }
}

} // verus!
