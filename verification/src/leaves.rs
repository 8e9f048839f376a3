//! Lists of leaves, and how they split below a branch.
use crate::bits::{bit, bit_at, lemma_under_push, under};
use vstd::prelude::*;

verus! {

/// A key and the hash of the value under it.
pub type Leaf = ([u8; 32], [u8; 32]);

/// The map that a list of leaves stands for. Where a key occurs more than once,
/// its first leaf counts.
pub open spec fn leaf_map(leaves: Seq<Leaf>) -> Map<[u8; 32], [u8; 32]>
    decreases leaves.len(),
{
    if leaves.len() == 0 {
        Map::empty()
    } else {
        let m = leaf_map(leaves.drop_last());
        if m.contains_key(leaves.last().0) {
            m
        } else {
            m.insert(leaves.last().0, leaves.last().1)
        }
    }
}

/// `m1` and `m2` hold the same under `k`.
pub open spec fn same_at(
    m1: Map<[u8; 32], [u8; 32]>,
    m2: Map<[u8; 32], [u8; 32]>,
    k: [u8; 32],
) -> bool {
    &&& m1.contains_key(k) == m2.contains_key(k)
    &&& m1.contains_key(k) ==> m1[k] == m2[k]
}

/// Every leaf lies under the prefix `p`.
pub open spec fn all_under(leaves: Seq<Leaf>, p: Seq<bool>) -> bool {
    forall|i: int| 0 <= i < leaves.len() ==> under(#[trigger] leaves[i].0, p)
}

/// No key occurs twice.
pub open spec fn distinct_keys(leaves: Seq<Leaf>) -> bool {
    forall|i: int, j: int| 0 <= i < j < leaves.len() ==> #[trigger] leaves[i].0 != #[trigger] leaves[j].0
}

/// The keys of the map are the keys of the list.
pub proof fn lemma_leaf_map_keys(leaves: Seq<Leaf>)
    ensures
        forall|k: [u8; 32]| #[trigger]
            leaf_map(leaves).contains_key(k) ==> exists|i: int|
                0 <= i < leaves.len() && #[trigger] leaves[i].0 == k,
        forall|i: int| 0 <= i < leaves.len() ==> leaf_map(leaves).contains_key(#[trigger] leaves[i].0),
        leaves.len() > 0 ==> leaf_map(leaves)[leaves[0].0] == leaves[0].1,
        leaf_map(leaves).dom().finite(),
    decreases leaves.len(),
{
    if leaves.len() > 0 {
        let t = leaves.drop_last();
        lemma_leaf_map_keys(t);
        assert forall|k: [u8; 32]| #[trigger] leaf_map(leaves).contains_key(k) implies exists|i: int|
            0 <= i < leaves.len() && #[trigger] leaves[i].0 == k by {
            if leaf_map(t).contains_key(k) {
                let i = choose|i: int| 0 <= i < t.len() && #[trigger] t[i].0 == k;
                assert(leaves[i].0 == k);
            } else {
                assert(leaves[leaves.len() - 1].0 == k);
            }
        }
        assert forall|i: int| 0 <= i < leaves.len() implies leaf_map(leaves).contains_key(
            #[trigger] leaves[i].0,
        ) by {
            if i < t.len() {
                assert(t[i] == leaves[i]);
            }
        }
        if t.len() > 0 {
            assert(t[0] == leaves[0]);
            assert(leaf_map(t).contains_key(t[0].0));
        }
    }
}

/// In a list without repeated keys every leaf is in the map.
pub proof fn lemma_leaf_map_distinct(leaves: Seq<Leaf>)
    requires
        distinct_keys(leaves),
    ensures
        forall|i: int| 0 <= i < leaves.len() ==> leaf_map(leaves).contains_key(#[trigger] leaves[i].0)
            && leaf_map(leaves)[leaves[i].0] == leaves[i].1,
        leaf_map(leaves).len() == leaves.len(),
        leaf_map(leaves).dom().finite(),
    decreases leaves.len(),
{
    if leaves.len() > 0 {
        let t = leaves.drop_last();
        assert(distinct_keys(t)) by {
            assert forall|i: int, j: int| 0 <= i < j < t.len() implies #[trigger] t[i].0
                != #[trigger] t[j].0 by {
                assert(t[i] == leaves[i] && t[j] == leaves[j]);
            }
        }
        lemma_leaf_map_distinct(t);
        lemma_leaf_map_keys(t);
        let n = leaves.len() - 1;
        if leaf_map(t).contains_key(leaves[n].0) {
            let i = choose|i: int| 0 <= i < t.len() && #[trigger] t[i].0 == leaves[n].0;
            assert(leaves[i].0 == leaves[n].0);
        }
        assert forall|i: int| 0 <= i < leaves.len() implies leaf_map(leaves).contains_key(
            #[trigger] leaves[i].0,
        ) && leaf_map(leaves)[leaves[i].0] == leaves[i].1 by {
            if i < n {
                assert(t[i] == leaves[i]);
            }
        }
    }
}

/// One list is the part of another whose keys have the bit `b` at `depth`.
pub open spec fn is_side(side: Seq<Leaf>, leaves: Seq<Leaf>, depth: int, b: bool) -> bool {
    &&& side.len() <= leaves.len()
    &&& forall|i: int| 0 <= i < side.len() ==> bit(#[trigger] side[i].0, depth) == b
    &&& forall|k: [u8; 32]|
        bit(k, depth) == b ==> same_at(leaf_map(side), #[trigger] leaf_map_of(leaves, k), k)
    &&& forall|p: Seq<bool>| #[trigger] all_under(leaves, p) ==> all_under(side, p)
    &&& distinct_keys(leaves) ==> distinct_keys(side)
}

/// `leaf_map`, with the key as a second argument for the quantifiers to hold on to.
pub open spec fn leaf_map_of(leaves: Seq<Leaf>, k: [u8; 32]) -> Map<[u8; 32], [u8; 32]> {
    leaf_map(leaves)
}

/// The side of a branch lies under the longer prefix.
pub proof fn lemma_side_under(side: Seq<Leaf>, leaves: Seq<Leaf>, p: Seq<bool>, b: bool)
    requires
        p.len() < 256,
        is_side(side, leaves, p.len() as int, b),
        all_under(leaves, p),
    ensures
        all_under(side, p.push(b)),
{
    assert(all_under(side, p));
    assert forall|i: int| 0 <= i < side.len() implies under(#[trigger] side[i].0, p.push(b)) by {
        lemma_under_push(side[i].0, p, b);
    }
}

/// The leaves whose keys have a zero at `depth`, and those that have a one, each in
/// the order in which they stood.
pub(crate) fn partition(leaves: &Vec<Leaf>, depth: usize) -> (sides: (Vec<Leaf>, Vec<Leaf>))
    requires
        depth < 256,
    ensures
        is_side(sides.0@, leaves@, depth as int, false),
        is_side(sides.1@, leaves@, depth as int, true),
        sides.0@.len() + sides.1@.len() == leaves@.len(),
{
    let mut left: Vec<Leaf> = Vec::new();
    let mut right: Vec<Leaf> = Vec::new();
    let mut n: usize = 0;
    while n < leaves.len()
        invariant
            n <= leaves@.len(),
            depth < 256,
            is_side(left@, leaves@.take(n as int), depth as int, false),
            is_side(right@, leaves@.take(n as int), depth as int, true),
            left@.len() + right@.len() == n,
        decreases leaves@.len() - n,
    {
        let leaf: Leaf = leaves[n];
        let ghost prev = leaves@.take(n as int);
        let ghost next = leaves@.take(n + 1);
        proof {
            assert(next.drop_last() =~= prev);
            assert(next =~= prev.push(leaf));
        }
        if bit_at(&leaf.0, depth) {
            proof {
                lemma_side_push(right@, prev, leaf, depth as int, true);
                lemma_side_skip(left@, prev, leaf, depth as int, false);
            }
            right.push(leaf);
        } else {
            proof {
                lemma_side_push(left@, prev, leaf, depth as int, false);
                lemma_side_skip(right@, prev, leaf, depth as int, true);
            }
            left.push(leaf);
        }
        n += 1;
    }
    proof {
        assert(leaves@.take(n as int) =~= leaves@);
    }
    (left, right)
}

proof fn lemma_all_under_push(leaves: Seq<Leaf>, leaf: Leaf, p: Seq<bool>)
    requires
        all_under(leaves.push(leaf), p),
    ensures
        all_under(leaves, p),
        under(leaf.0, p),
{
    let s = leaves.push(leaf);
    assert forall|i: int| 0 <= i < leaves.len() implies under(#[trigger] leaves[i].0, p) by {
        assert(s[i] == leaves[i]);
    }
    assert(s[leaves.len() as int] == leaf);
}

proof fn lemma_distinct_push(leaves: Seq<Leaf>, leaf: Leaf)
    requires
        distinct_keys(leaves.push(leaf)),
    ensures
        distinct_keys(leaves),
        !leaf_map(leaves).contains_key(leaf.0),
{
    let s = leaves.push(leaf);
    assert forall|i: int, j: int| 0 <= i < j < leaves.len() implies #[trigger] leaves[i].0
        != #[trigger] leaves[j].0 by {
        assert(s[i] == leaves[i] && s[j] == leaves[j]);
    }
    lemma_leaf_map_keys(leaves);
    if leaf_map(leaves).contains_key(leaf.0) {
        let i = choose|i: int| 0 <= i < leaves.len() && #[trigger] leaves[i].0 == leaf.0;
        assert(s[i].0 == s[leaves.len() as int].0);
    }
}

proof fn lemma_side_push(side: Seq<Leaf>, leaves: Seq<Leaf>, leaf: Leaf, depth: int, b: bool)
    requires
        is_side(side, leaves, depth, b),
        bit(leaf.0, depth) == b,
    ensures
        is_side(side.push(leaf), leaves.push(leaf), depth, b),
{
    let s2 = side.push(leaf);
    let l2 = leaves.push(leaf);
    assert(s2.drop_last() =~= side);
    assert(l2.drop_last() =~= leaves);
    assert(same_at(leaf_map(side), leaf_map_of(leaves, leaf.0), leaf.0));
    assert forall|k: [u8; 32]| bit(k, depth) == b implies same_at(
        leaf_map(s2),
        #[trigger] leaf_map_of(l2, k),
        k,
    ) by {
        assert(same_at(leaf_map(side), leaf_map_of(leaves, k), k));
    }
    assert forall|p: Seq<bool>| #[trigger] all_under(l2, p) implies all_under(s2, p) by {
        lemma_all_under_push(leaves, leaf, p);
        assert forall|i: int| 0 <= i < s2.len() implies under(#[trigger] s2[i].0, p) by {
            if i < side.len() {
                assert(s2[i] == side[i]);
            }
        }
    }
    if distinct_keys(l2) {
        lemma_distinct_push(leaves, leaf);
        assert(!leaf_map(side).contains_key(leaf.0));
        lemma_leaf_map_keys(side);
        assert forall|i: int, j: int| 0 <= i < j < s2.len() implies #[trigger] s2[i].0
            != #[trigger] s2[j].0 by {
            assert(s2[i] == side[i]);
            if j < side.len() {
                assert(s2[j] == side[j]);
            }
        }
    }
}

proof fn lemma_side_skip(side: Seq<Leaf>, leaves: Seq<Leaf>, leaf: Leaf, depth: int, b: bool)
    requires
        is_side(side, leaves, depth, b),
        bit(leaf.0, depth) != b,
    ensures
        is_side(side, leaves.push(leaf), depth, b),
{
    let l2 = leaves.push(leaf);
    assert(l2.drop_last() =~= leaves);
    assert forall|k: [u8; 32]| bit(k, depth) == b implies same_at(
        leaf_map(side),
        #[trigger] leaf_map_of(l2, k),
        k,
    ) by {
        assert(same_at(leaf_map(side), leaf_map_of(leaves, k), k));
    }
    assert forall|p: Seq<bool>| #[trigger] all_under(l2, p) implies all_under(side, p) by {
        lemma_all_under_push(leaves, leaf, p);
    }
    if distinct_keys(l2) {
        lemma_distinct_push(leaves, leaf);
    }
}

} // verus!
