//! A map from 32-byte keys, kept in ascending key order.
use crate::hash::digests_equal;
use vstd::prelude::*;

verus! {

/// `a` comes before `b` in the order of their bytes.
pub open spec fn key_lt(a: [u8; 32], b: [u8; 32]) -> bool {
    exists|i: int| differ_first_at(a, b, i) && a[i] < b[i]
}

/// `i` is the first byte at which `a` and `b` differ.
pub open spec fn differ_first_at(a: [u8; 32], b: [u8; 32], i: int) -> bool {
    &&& 0 <= i < 32
    &&& a[i] != b[i]
    &&& forall|j: int| 0 <= j < i ==> a[j] == b[j]
}

proof fn lemma_first_difference_unique(a: [u8; 32], b: [u8; 32], i: int, j: int)
    requires
        differ_first_at(a, b, i),
        differ_first_at(a, b, j),
    ensures
        i == j,
{
    if i < j {
        assert(a[i] == b[i]);
    }
    if j < i {
        assert(a[j] == b[j]);
    }
}

/// The order is a strict one.
pub proof fn lemma_key_lt_asymmetric(a: [u8; 32], b: [u8; 32])
    requires
        key_lt(a, b),
    ensures
        !key_lt(b, a),
        a != b,
{
    let i = choose|i: int| differ_first_at(a, b, i) && a[i] < b[i];
    if key_lt(b, a) {
        let j = choose|j: int| differ_first_at(b, a, j) && b[j] < a[j];
        assert(differ_first_at(a, b, j));
        lemma_first_difference_unique(a, b, i, j);
    }
}

/// The order is transitive.
pub proof fn lemma_key_lt_transitive(a: [u8; 32], b: [u8; 32], c: [u8; 32])
    requires
        key_lt(a, b),
        key_lt(b, c),
    ensures
        key_lt(a, c),
{
    let i = choose|i: int| differ_first_at(a, b, i) && a[i] < b[i];
    let j = choose|j: int| differ_first_at(b, c, j) && b[j] < c[j];
    let n = if i < j {
        i
    } else {
        j
    };
    assert(differ_first_at(a, c, n) && a[n] < c[n]);
}

/// Whether `a` comes before `b`.
pub fn key_before(a: &[u8; 32], b: &[u8; 32]) -> (before: bool)
    ensures
        before == key_lt(*a, *b),
        !before ==> *a == *b || key_lt(*b, *a),
{
    let mut i: usize = 0;
    while i < 32
        invariant
            i <= 32,
            forall|j: int| 0 <= j < i ==> a[j] == b[j],
        decreases 32 - i,
    {
        if a[i] < b[i] {
            proof {
                assert(differ_first_at(*a, *b, i as int));
            }
            return true;
        }
        if b[i] < a[i] {
            proof {
                assert(differ_first_at(*b, *a, i as int));
                lemma_key_lt_asymmetric(*b, *a);
            }
            return false;
        }
        i += 1;
    }
    proof {
        assert(*a =~= *b);
        if key_lt(*a, *b) {
            lemma_key_lt_asymmetric(*a, *b);
        }
    }
    false
}

/// A map whose entries are stored in ascending key order, each key once.
pub struct KeyMap<V> {
    entries: Vec<([u8; 32], V)>,
}

/// The keys of `s` ascend.
pub open spec fn ascending<V>(s: Seq<([u8; 32], V)>) -> bool {
    forall|i: int, j: int| 0 <= i < j < s.len() ==> key_lt(#[trigger] s[i].0, #[trigger] s[j].0)
}

/// The map that a list of entries stands for; of two entries with one key the
/// later counts.
pub open spec fn entries_map<V>(s: Seq<([u8; 32], V)>) -> Map<[u8; 32], V>
    decreases s.len(),
{
    if s.len() == 0 {
        Map::empty()
    } else {
        entries_map(s.drop_last()).insert(s.last().0, s.last().1)
    }
}

/// A list with ascending keys holds exactly the pairs of its map.
pub proof fn lemma_entries_map<V>(s: Seq<([u8; 32], V)>)
    requires
        ascending(s),
    ensures
        forall|k: [u8; 32]| #[trigger]
            entries_map(s).contains_key(k) <==> exists|i: int| 0 <= i < s.len() && #[trigger] s[i].0 == k,
        forall|i: int| 0 <= i < s.len() ==> entries_map(s).contains_key(#[trigger] s[i].0)
            && entries_map(s)[s[i].0] == s[i].1,
        entries_map(s).dom().finite(),
        entries_map(s).len() == s.len(),
    decreases s.len(),
{
    if s.len() > 0 {
        let t = s.drop_last();
        assert(ascending(t)) by {
            assert forall|i: int, j: int| 0 <= i < j < t.len() implies key_lt(
                #[trigger] t[i].0,
                #[trigger] t[j].0,
            ) by {
                assert(t[i] == s[i] && t[j] == s[j]);
            }
        }
        lemma_entries_map(t);
        let m = entries_map(t);
        assert forall|i: int| 0 <= i < t.len() implies #[trigger] t[i].0 != s.last().0 by {
            assert(key_lt(s[i].0, s[s.len() - 1].0));
            lemma_key_lt_asymmetric(s[i].0, s[s.len() - 1].0);
        }
        assert(!m.contains_key(s.last().0));
        assert forall|k: [u8; 32]| #[trigger] entries_map(s).contains_key(k) implies exists|i: int|
            0 <= i < s.len() && #[trigger] s[i].0 == k by {
            if k == s.last().0 {
                assert(s[s.len() - 1].0 == k);
            } else {
                let i = choose|i: int| 0 <= i < t.len() && #[trigger] t[i].0 == k;
                assert(s[i].0 == k);
            }
        }
        assert forall|i: int| 0 <= i < s.len() implies entries_map(s).contains_key(#[trigger] s[i].0)
            && entries_map(s)[s[i].0] == s[i].1 by {
            if i < s.len() - 1 {
                assert(t[i] == s[i]);
                assert(m.contains_key(t[i].0));
            }
        }
    }
}

/// Taking an entry out of an ascending list takes its key out of the map.
proof fn lemma_removed<V>(before: Seq<([u8; 32], V)>, at: int)
    requires
        ascending(before),
        0 <= at < before.len(),
    ensures
        ascending(before.remove(at)),
        entries_map(before.remove(at)) == entries_map(before).remove(before[at].0),
{
    let after = before.remove(at);
    let key = before[at].0;
    lemma_entries_map(before);
    assert(ascending(after)) by {
        assert forall|i: int, j: int| 0 <= i < j < after.len() implies key_lt(
            #[trigger] after[i].0,
            #[trigger] after[j].0,
        ) by {
            let x = if i < at {
                i
            } else {
                i + 1
            };
            let y = if j < at {
                j
            } else {
                j + 1
            };
            assert(key_lt(before[x].0, before[y].0));
        }
    }
    lemma_entries_map(after);
    assert forall|k: [u8; 32]| #[trigger] entries_map(after).contains_key(k) implies k != key
        && entries_map(before).contains_key(k) && entries_map(after)[k] == entries_map(before)[k] by {
        let i = choose|i: int| 0 <= i < after.len() && #[trigger] after[i].0 == k;
        let x = if i < at {
            i
        } else {
            i + 1
        };
        assert(after[i] == before[x]);
        if x < at {
            lemma_key_lt_asymmetric(before[x].0, before[at].0);
        } else {
            lemma_key_lt_asymmetric(before[at].0, before[x].0);
        }
    }
    assert forall|k: [u8; 32]| k != key && #[trigger] entries_map(before).contains_key(k) implies entries_map(
        after,
    ).contains_key(k) by {
        let i = choose|i: int| 0 <= i < before.len() && #[trigger] before[i].0 == k;
        if i < at {
            assert(after[i].0 == k);
        } else {
            assert(after[i - 1].0 == k);
        }
    }
    assert(entries_map(after) =~= entries_map(before).remove(key));
}

impl<V> KeyMap<V> {
    /// The entries in the order in which they are stored.
    pub closed spec fn listed(&self) -> Seq<([u8; 32], V)> {
        self.entries@
    }

    /// The keys ascend.
    pub closed spec fn wf(&self) -> bool {
        ascending(self.entries@)
    }

    /// The contents.
    pub open spec fn view(&self) -> Map<[u8; 32], V> {
        entries_map(self.listed())
    }

    /// The map without entries.
    pub fn new() -> (map: Self)
        ensures
            map.wf(),
            map@ == Map::<[u8; 32], V>::empty(),
            map.listed() == Seq::<([u8; 32], V)>::empty(),
    {
        KeyMap { entries: Vec::new() }
    }

    /// How many entries there are.
    pub fn len(&self) -> (n: usize)
        requires
            self.wf(),
        ensures
            n == self@.len(),
            n == self.listed().len(),
    {
        proof {
            lemma_entries_map(self.entries@);
        }
        self.entries.len()
    }

    /// The first place whose key does not come before `key`.
    fn position(&self, key: &[u8; 32]) -> (at: usize)
        requires
            self.wf(),
        ensures
            at <= self.entries@.len(),
            forall|i: int| 0 <= i < at ==> key_lt(#[trigger] self.entries@[i].0, *key),
            forall|i: int| at <= i < self.entries@.len() ==> !key_lt(#[trigger] self.entries@[i].0, *key),
    {
        let mut lo: usize = 0;
        let mut hi: usize = self.entries.len();
        while lo < hi
            invariant
                lo <= hi <= self.entries@.len(),
                self.wf(),
                forall|i: int| 0 <= i < lo ==> key_lt(#[trigger] self.entries@[i].0, *key),
                forall|i: int| hi <= i < self.entries@.len() ==> !key_lt(
                    #[trigger] self.entries@[i].0,
                    *key,
                ),
            decreases hi - lo,
        {
            let mid: usize = lo + (hi - lo) / 2;
            if key_before(&self.entries[mid].0, key) {
                proof {
                    assert forall|i: int| 0 <= i < mid + 1 implies key_lt(
                        #[trigger] self.entries@[i].0,
                        *key,
                    ) by {
                        if i < mid {
                            lemma_key_lt_transitive(
                                self.entries@[i].0,
                                self.entries@[mid as int].0,
                                *key,
                            );
                        }
                    }
                }
                lo = mid + 1;
            } else {
                proof {
                    assert forall|i: int| mid <= i < self.entries@.len() implies !key_lt(
                        #[trigger] self.entries@[i].0,
                        *key,
                    ) by {
                        if i > mid && key_lt(self.entries@[i].0, *key) {
                            lemma_key_lt_transitive(
                                self.entries@[mid as int].0,
                                self.entries@[i].0,
                                *key,
                            );
                        }
                    }
                }
                hi = mid;
            }
        }
        lo
    }

    /// The value under `key`, where there is one.
    pub fn get(&self, key: &[u8; 32]) -> (value: Option<&V>)
        requires
            self.wf(),
        ensures
            match value {
                Some(v) => self@.contains_key(*key) && *v == self@[*key],
                None => !self@.contains_key(*key),
            },
    {
        let at: usize = self.position(key);
        proof {
            lemma_entries_map(self.entries@);
        }
        if at < self.entries.len() && digests_equal(&self.entries[at].0, key) {
            Some(&self.entries[at].1)
        } else {
            proof {
                self.lemma_absent(*key, at as int);
            }
            None
        }
    }

    proof fn lemma_absent(&self, key: [u8; 32], at: int)
        requires
            self.wf(),
            0 <= at <= self.entries@.len(),
            forall|i: int| 0 <= i < at ==> key_lt(#[trigger] self.entries@[i].0, key),
            forall|i: int| at <= i < self.entries@.len() ==> !key_lt(#[trigger] self.entries@[i].0, key),
            at < self.entries@.len() ==> self.entries@[at].0 != key,
        ensures
            forall|i: int| 0 <= i < self.entries@.len() ==> #[trigger] self.entries@[i].0 != key,
            !self@.contains_key(key),
    {
        lemma_entries_map(self.entries@);
        assert forall|i: int| 0 <= i < self.entries@.len() implies #[trigger] self.entries@[i].0
            != key by {
            if i < at {
                lemma_key_lt_asymmetric(self.entries@[i].0, key);
            } else if i > at && self.entries@[i].0 == key {
                assert(key_lt(self.entries@[at].0, self.entries@[i].0));
            }
        }
    }

    /// Whether there is a value under `key`.
    pub fn contains_key(&self, key: &[u8; 32]) -> (found: bool)
        requires
            self.wf(),
        ensures
            found == self@.contains_key(*key),
    {
        self.get(key).is_some()
    }

    /// Puts `value` under `key`, in place of what was there.
    pub fn insert(&mut self, key: [u8; 32], value: V)
        requires
            old(self).wf(),
        ensures
            final(self).wf(),
            final(self)@ == old(self)@.insert(key, value),
    {
        let at: usize = self.position(&key);
        let ghost before = self.entries@;
        proof {
            lemma_entries_map(before);
        }
        if at < self.entries.len() && digests_equal(&self.entries[at].0, &key) {
            self.entries[at] = (key, value);
            proof {
                assert(self.entries@ =~= before.update(at as int, (key, value)));
            }
        } else {
            proof {
                self.lemma_absent(key, at as int);
                if at < before.len() {
                    assert forall|i: int| at <= i < before.len() implies key_lt(key, #[trigger] before[i].0) by {
                        lemma_key_order_total(before[i].0, key);
                    }
                }
            }
            self.entries.insert(at, (key, value));
            proof {
                assert(self.entries@ =~= before.insert(at as int, (key, value)));
            }
        }
        proof {
            let after = self.entries@;
            assert(ascending(after));
            lemma_entries_map(after);
            let m = entries_map(before).insert(key, value);
            assert forall|k: [u8; 32]| #[trigger] entries_map(after).contains_key(k) == m.contains_key(k) by {
                if entries_map(after).contains_key(k) {
                    let i = choose|i: int| 0 <= i < after.len() && #[trigger] after[i].0 == k;
                    if k != key {
                        if i < before.len() && before[i].0 == k {
                        } else {
                            assert(before[i - 1].0 == k);
                        }
                    }
                }
                if m.contains_key(k) {
                    if k == key {
                        assert(after[at as int].0 == k);
                    } else {
                        let i = choose|i: int| 0 <= i < before.len() && #[trigger] before[i].0 == k;
                        if after[i].0 == k {
                        } else {
                            assert(after[i + 1].0 == k);
                        }
                    }
                }
            }
            assert forall|k: [u8; 32]| #[trigger] entries_map(after).contains_key(k) implies entries_map(
                after,
            )[k] == m[k] by {
                let i = choose|i: int| 0 <= i < after.len() && #[trigger] after[i].0 == k;
                if k == key {
                    if i != at {
                        assert(key_lt(after[i].0, after[at as int].0) || key_lt(
                            after[at as int].0,
                            after[i].0,
                        ));
                        if key_lt(after[i].0, after[at as int].0) {
                            lemma_key_lt_asymmetric(after[i].0, after[at as int].0);
                        } else {
                            lemma_key_lt_asymmetric(after[at as int].0, after[i].0);
                        }
                    }
                } else {
                    if after.len() == before.len() || i < at {
                        assert(after[i] == before[i]);
                    } else {
                        assert(after[i] == before[i - 1]);
                    }
                }
            }
            assert(entries_map(after) =~= m);
        }
    }

    /// Takes `key` and its value out.
    pub fn remove(&mut self, key: &[u8; 32]) -> (removed: bool)
        requires
            old(self).wf(),
        ensures
            final(self).wf(),
            final(self)@ == old(self)@.remove(*key),
            removed == old(self)@.contains_key(*key),
    {
        self.take(key).is_some()
    }

    /// Takes `key` out and hands its value over.
    pub fn take(&mut self, key: &[u8; 32]) -> (value: Option<V>)
        requires
            old(self).wf(),
        ensures
            final(self).wf(),
            final(self)@ == old(self)@.remove(*key),
            match value {
                Some(v) => old(self)@.contains_key(*key) && v == old(self)@[*key],
                None => !old(self)@.contains_key(*key),
            },
    {
        let at: usize = self.position(key);
        let ghost before = self.entries@;
        proof {
            lemma_entries_map(before);
        }
        if at < self.entries.len() && digests_equal(&self.entries[at].0, key) {
            let entry = self.entries.remove(at);
            proof {
                let after = self.entries@;
                assert(after =~= before.remove(at as int));
                lemma_removed(before, at as int);
            }
            Some(entry.1)
        } else {
            proof {
                self.lemma_absent(*key, at as int);
                assert(entries_map(before) =~= entries_map(before).remove(*key));
            }
            None
        }
    }

    /// The entry at place `i` of the ascending order.
    pub fn entry(&self, i: usize) -> (entry: &([u8; 32], V))
        requires
            self.wf(),
            i < self.listed().len(),
        ensures
            *entry == self.listed()[i as int],
    {
        &self.entries[i]
    }

    /// The listed entries ascend and are exactly the pairs of the map.
    pub proof fn lemma_listed(&self)
        requires
            self.wf(),
        ensures
            ascending(self.listed()),
            self.listed().len() == self@.len(),
            self@.dom().finite(),
            forall|k: [u8; 32]| #[trigger]
                self@.contains_key(k) <==> exists|i: int|
                    0 <= i < self.listed().len() && #[trigger] self.listed()[i].0 == k,
            forall|i: int| 0 <= i < self.listed().len() ==> self@.contains_key(
                #[trigger] self.listed()[i].0,
            ) && self@[self.listed()[i].0] == self.listed()[i].1,
    {
        lemma_entries_map(self.entries@);
    }
}

impl<V: Copy> KeyMap<V> {
    /// A second map with the same entries.
    pub fn duplicate(&self) -> (copy: Self)
        requires
            self.wf(),
        ensures
            copy.wf(),
            copy.listed() == self.listed(),
            copy@ == self@,
    {
        let mut entries: Vec<([u8; 32], V)> = Vec::with_capacity(self.entries.len());
        let mut i: usize = 0;
        while i < self.entries.len()
            invariant
                i <= self.entries@.len(),
                entries@ == self.entries@.take(i as int),
            decreases self.entries@.len() - i,
        {
            entries.push(self.entries[i]);
            proof {
                assert(entries@ =~= self.entries@.take(i + 1));
            }
            i += 1;
        }
        proof {
            assert(entries@ =~= self.entries@);
        }
        KeyMap { entries }
    }
}

/// Of two different keys one comes first.
pub proof fn lemma_key_order_total(a: [u8; 32], b: [u8; 32])
    ensures
        key_lt(a, b) || key_lt(b, a) || a == b,
{
    if a != b {
        if forall|i: int| 0 <= i < 32 ==> a[i] == b[i] {
            assert(a =~= b);
        }
        let i = choose|i: int| 0 <= i < 32 && a[i] != b[i];
        lemma_first_difference(a, b, i);
    }
}

proof fn lemma_first_difference(a: [u8; 32], b: [u8; 32], i: int)
    requires
        0 <= i < 32,
        a[i] != b[i],
    ensures
        key_lt(a, b) || key_lt(b, a),
    decreases i,
{
    if exists|j: int| 0 <= j < i && a[j] != b[j] {
        let j = choose|j: int| 0 <= j < i && a[j] != b[j];
        lemma_first_difference(a, b, j);
    } else {
        assert(differ_first_at(a, b, i) && differ_first_at(b, a, i));
    }
}

} // verus!
