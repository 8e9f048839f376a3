//! A map from a round and an author.
use crate::pubkey::Pubkey;
use vstd::prelude::*;

verus! {

/// A map whose keys are rounds with authors, each key once, in the order in which the keys
/// came.
pub struct RoundMap<V> {
    entries: Vec<(u64, Pubkey, V)>,
}

/// The keys of `s` are different.
pub open spec fn distinct_rounds<V>(s: Seq<(u64, Pubkey, V)>) -> bool {
    forall|i: int, j: int|
        0 <= i < j < s.len() ==> !same_key(#[trigger] s[i], #[trigger] s[j])
}

/// Two entries have one key.
pub open spec fn same_key<V>(a: (u64, Pubkey, V), b: (u64, Pubkey, V)) -> bool {
    a.0 == b.0 && a.1 == b.1
}

/// The map that a list of entries stands for.
pub open spec fn rounds_map<V>(s: Seq<(u64, Pubkey, V)>) -> Map<(u64, Pubkey), V>
    decreases s.len(),
{
    if s.len() == 0 {
        Map::empty()
    } else {
        rounds_map(s.drop_last()).insert((s.last().0, s.last().1), s.last().2)
    }
}

proof fn lemma_rounds_map<V>(s: Seq<(u64, Pubkey, V)>)
    requires
        distinct_rounds(s),
    ensures
        forall|k: (u64, Pubkey)| #[trigger]
            rounds_map(s).contains_key(k) ==> exists|i: int|
                0 <= i < s.len() && (#[trigger] s[i]).0 == k.0 && s[i].1 == k.1,
        forall|i: int|
            0 <= i < s.len() ==> rounds_map(s).contains_key(((#[trigger] s[i]).0, s[i].1))
                && rounds_map(s)[(s[i].0, s[i].1)] == s[i].2,
    decreases s.len(),
{
    if s.len() > 0 {
        let t = s.drop_last();
        assert(distinct_rounds(t)) by {
            assert forall|i: int, j: int| 0 <= i < j < t.len() implies !same_key(
                #[trigger] t[i],
                #[trigger] t[j],
            ) by {
                assert(!same_key(s[i], s[j]));
            }
        }
        lemma_rounds_map(t);
        assert forall|k: (u64, Pubkey)| #[trigger] rounds_map(s).contains_key(k) implies exists|
            i: int,
        |
            0 <= i < s.len() && (#[trigger] s[i]).0 == k.0 && s[i].1 == k.1 by {
            if rounds_map(t).contains_key(k) {
                let i = choose|i: int|
                    0 <= i < t.len() && (#[trigger] t[i]).0 == k.0 && t[i].1 == k.1;
                assert(s[i].0 == k.0 && s[i].1 == k.1);
            } else {
                assert(s[s.len() - 1].0 == k.0);
            }
        }
        assert forall|i: int| 0 <= i < s.len() implies rounds_map(s).contains_key(
            ((#[trigger] s[i]).0, s[i].1),
        ) && rounds_map(s)[(s[i].0, s[i].1)] == s[i].2 by {
            if i < s.len() - 1 {
                assert(t[i] == s[i]);
                assert(!same_key(s[i], s[s.len() - 1]));
                assert(rounds_map(t).contains_key((t[i].0, t[i].1)));
            }
        }
    }
}

impl<V> RoundMap<V> {
    /// The keys are different.
    pub closed spec fn wf(&self) -> bool {
        distinct_rounds(self.entries@)
    }

    /// The contents.
    pub closed spec fn view(&self) -> Map<(u64, Pubkey), V> {
        rounds_map(self.entries@)
    }

    /// The map without entries.
    pub fn new() -> (map: Self)
        ensures
            map.wf(),
            map@ == Map::<(u64, Pubkey), V>::empty(),
    {
        RoundMap { entries: Vec::new() }
    }

    /// Whether there are no entries.
    pub fn is_empty(&self) -> (empty: bool)
        requires
            self.wf(),
        ensures
            empty == (self@ == Map::<(u64, Pubkey), V>::empty()),
    {
        proof {
            lemma_rounds_map(self.entries@);
            if self.entries@.len() > 0 {
                let e = self.entries@[0];
                assert(self@.contains_key((e.0, e.1)));
            }
        }
        self.entries.len() == 0
    }

    fn position(&self, round: u64, author: &Pubkey) -> (at: usize)
        requires
            self.wf(),
        ensures
            at <= self.entries@.len(),
            at < self.entries@.len() ==> self.entries@[at as int].0 == round
                && self.entries@[at as int].1 == *author,
            at == self.entries@.len() ==> !self@.contains_key((round, *author)),
    {
        let mut i: usize = 0;
        while i < self.entries.len()
            invariant
                i <= self.entries@.len(),
                forall|j: int|
                    0 <= j < i ==> (#[trigger] self.entries@[j]).0 != round || self.entries@[j].1
                        != *author,
            decreases self.entries@.len() - i,
        {
            if self.entries[i].0 == round && self.entries[i].1.same_as(author) {
                return i;
            }
            i += 1;
        }
        proof {
            lemma_rounds_map(self.entries@);
        }
        i
    }

    /// The value under a round and an author, where there is one.
    pub fn get(&self, round: u64, author: &Pubkey) -> (value: Option<&V>)
        requires
            self.wf(),
        ensures
            match value {
                Some(v) => self@.contains_key((round, *author)) && *v == self@[(round, *author)],
                None => !self@.contains_key((round, *author)),
            },
    {
        let at: usize = self.position(round, author);
        if at < self.entries.len() {
            proof {
                lemma_rounds_map(self.entries@);
            }
            Some(&self.entries[at].2)
        } else {
            None
        }
    }

    /// Puts `value` under a round and an author, in place of what was there.
    pub fn insert(&mut self, round: u64, author: Pubkey, value: V)
        requires
            old(self).wf(),
        ensures
            final(self).wf(),
            final(self)@ == old(self)@.insert((round, author), value),
    {
        let at: usize = self.position(round, &author);
        let ghost before = self.entries@;
        if at < self.entries.len() {
            self.entries[at] = (round, author, value);
            proof {
                let after = self.entries@;
                assert(after =~= before.update(at as int, (round, author, value)));
                lemma_updated(before, at as int, value);
            }
        } else {
            self.entries.push((round, author, value));
            proof {
                let after = self.entries@;
                lemma_rounds_map(before);
                assert(after.drop_last() =~= before);
                assert forall|i: int, j: int| 0 <= i < j < after.len() implies !same_key(
                    #[trigger] after[i],
                    #[trigger] after[j],
                ) by {
                    if j < before.len() {
                        assert(!same_key(before[i], before[j]));
                    } else if same_key(after[i], after[j]) {
                        assert(rounds_map(before).contains_key((before[i].0, before[i].1)));
                    }
                }
            }
        }
    }
}

proof fn lemma_updated<V>(s: Seq<(u64, Pubkey, V)>, at: int, value: V)
    requires
        distinct_rounds(s),
        0 <= at < s.len(),
    ensures
        distinct_rounds(s.update(at, (s[at].0, s[at].1, value))),
        rounds_map(s.update(at, (s[at].0, s[at].1, value))) == rounds_map(s).insert(
            (s[at].0, s[at].1),
            value,
        ),
{
    let key = (s[at].0, s[at].1);
    let after = s.update(at, (s[at].0, s[at].1, value));
    assert(distinct_rounds(after)) by {
        assert forall|i: int, j: int| 0 <= i < j < after.len() implies !same_key(
            #[trigger] after[i],
            #[trigger] after[j],
        ) by {
            assert(!same_key(s[i], s[j]));
        }
    }
    lemma_rounds_map(s);
    lemma_rounds_map(after);
    let m = rounds_map(s).insert(key, value);
    assert forall|k: (u64, Pubkey)| #[trigger] rounds_map(after).contains_key(k) implies m.contains_key(k)
        && m[k] == rounds_map(after)[k] by {
        let i = choose|i: int|
            0 <= i < after.len() && (#[trigger] after[i]).0 == k.0 && after[i].1 == k.1;
        assert(s[i].0 == k.0 && s[i].1 == k.1);
        if i != at {
            assert(after[i] == s[i]);
            if i < at {
                assert(!same_key(s[i], s[at]));
            } else {
                assert(!same_key(s[at], s[i]));
            }
        }
    }
    assert forall|k: (u64, Pubkey)| #[trigger] m.contains_key(k) implies rounds_map(after).contains_key(k) by {
        if k == key {
            assert(after[at].0 == k.0);
        } else {
            let i = choose|i: int| 0 <= i < s.len() && (#[trigger] s[i]).0 == k.0 && s[i].1 == k.1;
            assert(after[i].0 == k.0 && after[i].1 == k.1);
        }
    }
    assert(rounds_map(after) =~= m);
}

} // verus!
