//! A log of keyed entries beside a database: what is buffered, and the numbers under which
//! entries are filed.
use crate::codec::{
    le_bytes, le_decode, le_encode, le_value, lemma_le_bytes_len, lemma_le_round_trip, lemma_pow256,
    pow256,
};
use crate::store::StoreError;
use vstd::prelude::*;

verus! {

/// The eight bytes of a number, most significant first.
pub open spec fn be_bytes(n: u64) -> Seq<u8> {
    le_bytes(n as nat, 8).reverse()
}

/// The number that bytes spell, most significant first.
pub open spec fn be_value(s: Seq<u8>) -> nat {
    le_value(s.reverse())
}

/// Reading back what was written gives the number.
pub proof fn lemma_be_round_trip(n: u64)
    ensures
        be_value(be_bytes(n)) == n,
        be_bytes(n).len() == 8,
{
    lemma_le_bytes_len(n as nat, 8);
    lemma_pow256();
    lemma_le_round_trip(n as nat, 8);
    assert(be_bytes(n).reverse() =~= le_bytes(n as nat, 8));
}

fn reversed(s: &[u8]) -> (out: Vec<u8>)
    ensures
        out@ == s@.reverse(),
{
    let n: usize = s.len();
    let mut out: Vec<u8> = Vec::with_capacity(n);
    let mut i: usize = 0;
    while i < n
        invariant
            i <= n == s@.len(),
            out@.len() == i,
            forall|j: int| 0 <= j < i ==> out@[j] == s@[n - 1 - j],
        decreases n - i,
    {
        out.push(s[n - 1 - i]);
        i += 1;
    }
    proof {
        assert(out@ =~= s@.reverse());
    }
    out
}

/// `a` comes before `b` in the order of their bytes.
pub open spec fn comes_before(a: Seq<u8>, b: Seq<u8>) -> bool {
    exists|i: int| parts_at(a, b, i)
}

/// `i` is the first place at which `a` and `b` differ, and `a` is smaller there.
pub open spec fn parts_at(a: Seq<u8>, b: Seq<u8>, i: int) -> bool {
    &&& 0 <= i < a.len()
    &&& i < b.len()
    &&& a[i] < b[i]
    &&& a.take(i) == b.take(i)
}

/// Numbers of one width stand in the order of their bytes, most significant first.
proof fn lemma_order(x: nat, y: nat, n: nat)
    requires
        x < y < pow256(n),
    ensures
        comes_before(le_bytes(x, n).reverse(), le_bytes(y, n).reverse()),
    decreases n,
{
    lemma_le_bytes_len(x, n);
    lemma_le_bytes_len(y, n);
    let a = le_bytes(x, n).reverse();
    let b = le_bytes(y, n).reverse();
    let m = (n - 1) as nat;
    lemma_le_bytes_len(x / 256, m);
    lemma_le_bytes_len(y / 256, m);
    let p = le_bytes(x / 256, m).reverse();
    let q = le_bytes(y / 256, m).reverse();
    assert(a =~= p.push((x % 256) as u8));
    assert(b =~= q.push((y % 256) as u8));
    if x / 256 == y / 256 {
        assert(x % 256 < y % 256);
        assert(a.take(m as int) =~= p);
        assert(b.take(m as int) =~= q);
        assert(parts_at(a, b, m as int));
    } else {
        assert(y / 256 < pow256(m)) by (nonlinear_arith)
            requires
                y < 256 * pow256(m),
        ;
        lemma_order(x / 256, y / 256, m);
        let i = choose|i: int| parts_at(p, q, i);
        assert(a.take(i) =~= p.take(i));
        assert(b.take(i) =~= q.take(i));
        assert(parts_at(a, b, i));
    }
}

/// Entries that are filed under later numbers come later in the order of their keys.
pub proof fn law_numbers_are_in_order(a: u64, b: u64)
    requires
        a < b,
    ensures
        comes_before(be_bytes(a), be_bytes(b)),
{
    lemma_pow256();
    lemma_order(a as nat, b as nat, 8);
}

/// A buffered change: the key, and the value that is put there; none where the entry is
/// dropped.
pub type PendingWrite = (Vec<u8>, Option<Vec<u8>>);

/// What a buffered change does.
pub open spec fn change_of(w: PendingWrite) -> (Seq<u8>, Option<Seq<u8>>) {
    (
        w.0@,
        match w.1 {
            Some(v) => Some(v@),
            None => None,
        },
    )
}

/// The buffered changes, oldest first.
pub open spec fn changes(pending: Seq<PendingWrite>) -> Seq<(Seq<u8>, Option<Seq<u8>>)> {
    pending.map_values(|w: PendingWrite| change_of(w))
}

/// The entries after a change.
pub open spec fn changed(
    entries: Map<Seq<u8>, Seq<u8>>,
    change: (Seq<u8>, Option<Seq<u8>>),
) -> Map<Seq<u8>, Seq<u8>> {
    match change.1 {
        Some(v) => entries.insert(change.0, v),
        None => entries.remove(change.0),
    }
}

/// The entries after all changes, one after the other.
pub open spec fn all_changed(
    entries: Map<Seq<u8>, Seq<u8>>,
    list: Seq<(Seq<u8>, Option<Seq<u8>>)>,
) -> Map<Seq<u8>, Seq<u8>>
    decreases list.len(),
{
    if list.len() == 0 {
        entries
    } else {
        changed(all_changed(entries, list.drop_last()), list.last())
    }
}

/// What the newest change of a key does, where there is one.
pub open spec fn newest(list: Seq<(Seq<u8>, Option<Seq<u8>>)>, key: Seq<u8>) -> Option<
    Option<Seq<u8>>,
>
    decreases list.len(),
{
    if list.len() == 0 {
        None
    } else if list.last().0 == key {
        Some(list.last().1)
    } else {
        newest(list.drop_last(), key)
    }
}

/// What is read under a key where the database holds `committed` there: the newest buffered
/// change hides it.
pub open spec fn read_under(
    list: Seq<(Seq<u8>, Option<Seq<u8>>)>,
    key: Seq<u8>,
    committed: Option<Seq<u8>>,
) -> Option<Seq<u8>> {
    match newest(list, key) {
        Some(v) => v,
        None => committed,
    }
}

/// What a database holds under a key.
pub open spec fn held(entries: Map<Seq<u8>, Seq<u8>>, key: Seq<u8>) -> Option<Seq<u8>> {
    if entries.contains_key(key) {
        Some(entries[key])
    } else {
        None
    }
}

/// What is read under a key does not change when the buffered changes are committed.
pub proof fn law_reads_see_what_a_commit_will_write(
    entries: Map<Seq<u8>, Seq<u8>>,
    list: Seq<(Seq<u8>, Option<Seq<u8>>)>,
    key: Seq<u8>,
)
    ensures
        read_under(list, key, held(entries, key)) == held(all_changed(entries, list), key),
    decreases list.len(),
{
    if list.len() > 0 {
        law_reads_see_what_a_commit_will_write(entries, list.drop_last(), key);
    }
}

/// The bytes of an optional value.
pub open spec fn value_bytes(value: Option<Vec<u8>>) -> Option<Seq<u8>> {
    match value {
        Some(v) => Some(v@),
        None => None,
    }
}

/// `next` lies behind every number that a key is.
pub open spec fn is_past(next: u64, keys: Seq<Vec<u8>>) -> bool {
    forall|i: int|
        0 <= i < keys.len() && (#[trigger] keys[i])@.len() == 8 ==> be_value(keys[i]@) < next
}

/// `next` is zero or lies just behind the number that some key is.
pub open spec fn is_tight(next: u64, keys: Seq<Vec<u8>>) -> bool {
    next == 0 || exists|i: int|
        0 <= i < keys.len() && (#[trigger] keys[i])@.len() == 8 && be_value(keys[i]@) == next - 1
}

fn same_bytes(a: &[u8], b: &[u8]) -> (same: bool)
    ensures
        same == (a@ == b@),
{
    if a.len() != b.len() {
        return false;
    }
    let mut i: usize = 0;
    while i < a.len()
        invariant
            i <= a@.len() == b@.len(),
            forall|j: int| 0 <= j < i ==> a@[j] == b@[j],
        decreases a@.len() - i,
    {
        if a[i] != b[i] {
            return false;
        }
        i += 1;
    }
    proof {
        assert(a@ =~= b@);
    }
    true
}

/// The buffer of a log and the next number.
pub struct RedbLog {
    pending: Vec<PendingWrite>,
    next_id: u64,
}

impl RedbLog {
    /// The buffered changes, oldest first.
    pub closed spec fn view(&self) -> Seq<(Seq<u8>, Option<Seq<u8>>)> {
        changes(self.pending@)
    }

    /// The next number.
    pub closed spec fn next(&self) -> u64 {
        self.next_id
    }

    /// The log of a database that holds entries under these keys. The next number lies
    /// behind all that are taken; the last number there is must be free.
    pub fn open(keys: &Vec<Vec<u8>>) -> (log: Self)
        requires
            forall|i: int|
                0 <= i < keys@.len() && (#[trigger] keys@[i])@.len() == 8 ==> be_value(keys@[i]@)
                    < u64::MAX,
        ensures
            log@ == Seq::<(Seq<u8>, Option<Seq<u8>>)>::empty(),
            is_past(log.next(), keys@),
            is_tight(log.next(), keys@),
    {
        let mut next: u64 = 0;
        let mut i: usize = 0;
        while i < keys.len()
            invariant
                i <= keys@.len(),
                forall|j: int|
                    0 <= j < keys@.len() && (#[trigger] keys@[j])@.len() == 8 ==> be_value(
                        keys@[j]@,
                    ) < u64::MAX,
                forall|j: int|
                    0 <= j < i && (#[trigger] keys@[j])@.len() == 8 ==> be_value(keys@[j]@) < next,
                is_tight(next, keys@),
            decreases keys@.len() - i,
        {
            if keys[i].len() == 8 {
                let id: u64 = le_decode(reversed(keys[i].as_slice()).as_slice());
                if id >= next {
                    next = id + 1;
                    proof {
                        assert(be_value(keys@[i as int]@) == next - 1);
                    }
                }
            }
            i += 1;
        }
        let log = RedbLog { pending: Vec::new(), next_id: next };
        proof {
            assert(log@ =~= Seq::<(Seq<u8>, Option<Seq<u8>>)>::empty());
        }
        log
    }

    /// The next number in eight bytes, most significant first. After the last number the
    /// count begins anew.
    pub fn generate_id(&mut self) -> (id: [u8; 8])
        ensures
            id@ == be_bytes(old(self).next()),
            final(self)@ == old(self)@,
            final(self).next() == if old(self).next() == u64::MAX {
                0
            } else {
                (old(self).next() + 1) as u64
            },
    {
        let bytes = reversed(le_encode(self.next_id, 8).as_slice());
        proof {
            lemma_le_bytes_len(self.next_id as nat, 8);
        }
        self.next_id = if self.next_id == u64::MAX {
            0
        } else {
            self.next_id + 1
        };
        let id: [u8; 8] = [
            bytes[0],
            bytes[1],
            bytes[2],
            bytes[3],
            bytes[4],
            bytes[5],
            bytes[6],
            bytes[7],
        ];
        proof {
            assert(id@ =~= bytes@);
        }
        id
    }

    /// Puts `value` under `key`.
    pub fn insert(&mut self, key: &[u8], value: Vec<u8>)
        ensures
            final(self)@ == old(self)@.push((key@, Some(value@))),
            final(self).next() == old(self).next(),
    {
        let ghost before = self@;
        let mut k: Vec<u8> = Vec::new();
        k.extend_from_slice(key);
        proof {
            assert(k@ =~= key@);
        }
        self.pending.push((k, Some(value)));
        proof {
            assert(self@ =~= before.push((key@, Some(value@))));
        }
    }

    /// Drops the entry under `key`.
    pub fn remove(&mut self, key: &[u8])
        ensures
            final(self)@ == old(self)@.push((key@, None)),
            final(self).next() == old(self).next(),
    {
        let ghost before = self@;
        let mut k: Vec<u8> = Vec::new();
        k.extend_from_slice(key);
        proof {
            assert(k@ =~= key@);
        }
        self.pending.push((k, None));
        proof {
            assert(self@ =~= before.push((key@, None)));
        }
    }

    /// What stands under `key`, where the database holds `committed` there.
    pub fn get(&self, key: &[u8], committed: Option<Vec<u8>>) -> (value: Option<Vec<u8>>)
        ensures
            value_bytes(value) == read_under(self@, key@, value_bytes(committed)),
    {
        let ghost list = self@;
        let mut i: usize = self.pending.len();
        proof {
            assert(list.take(i as int) =~= list);
        }
        while i > 0
            invariant
                i <= self.pending@.len(),
                list == changes(self.pending@),
                newest(list, key@) == newest(list.take(i as int), key@),
            decreases i,
        {
            proof {
                let t = list.take(i as int);
                assert(t.last() == change_of(self.pending@[i - 1]));
                assert(t.drop_last() =~= list.take(i - 1));
            }
            if same_bytes(self.pending[i - 1].0.as_slice(), key) {
                return match &self.pending[i - 1].1 {
                    Some(v) => {
                        let copy = v.clone();
                        proof {
                            assert(copy@ =~= v@);
                        }
                        Some(copy)
                    },
                    None => None,
                };
            }
            i -= 1;
        }
        proof {
            assert(list.take(0) =~= Seq::empty());
        }
        committed
    }

    /// The buffered changes, oldest first.
    pub fn pending(&self) -> (list: &Vec<PendingWrite>)
        ensures
            changes(list@) == self@,
    {
        &self.pending
    }

    /// Takes note of how the transaction with the buffered changes ended: where it failed,
    /// they stay.
    pub fn flush(&mut self, committed: Result<(), StoreError>)
        ensures
            final(self).next() == old(self).next(),
            final(self)@ == if committed is Ok {
                Seq::empty()
            } else {
                old(self)@
            },
    {
        match committed {
            Ok(_) => {
                self.pending = Vec::new();
                proof {
                    assert(self@ =~= Seq::empty());
                }
            },
            Err(_) => {},
        }
    }
}

/// A fresh number is the key of no entry that was there when the log was opened.
pub proof fn law_fresh_numbers_are_free(next: u64, keys: Seq<Vec<u8>>, i: int)
    requires
        is_past(next, keys),
        0 <= i < keys.len(),
    ensures
        keys[i]@ != be_bytes(next),
{
    lemma_be_round_trip(next);
}

} // verus!
