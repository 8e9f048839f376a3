//! A path-compressed sparse Merkle tree over 256-bit addresses. A subtree with one
//! leaf is that leaf, and only a place where two populated subtrees part is hashed.
use crate::bits::{bit, bit_at, lemma_full_prefix_unique, lemma_under_push, under};
use crate::codec::{le_bytes, le_encode, lemma_le_bytes_len, lemma_le_injective, lemma_pow256};
use crate::hash::{
    collide, digests_equal, hash_tagged_pair, lemma_tagged_pair_injective, sha3_256,
    sha3_256_digest,
};
use crate::leaves::{
    all_under, distinct_keys, is_side, leaf_map, leaf_map_of, lemma_leaf_map_distinct,
    lemma_leaf_map_keys, lemma_side_under, partition, same_at, Leaf,
};
use crate::incremental::{change_leaves, changes_encodable, hash_changes};
use crate::pubkey::Pubkey;
use crate::state_account::StateAccount;
use vstd::prelude::*;

verus! {

/// What is hashed for a subtree without leaves.
pub open spec fn empty_input() -> Seq<u8> {
    seq![5u8]
}

/// What is hashed for a leaf: its key and the hash of its value behind a three byte.
pub open spec fn leaf_input(key: [u8; 32], value: [u8; 32]) -> Seq<u8> {
    seq![3u8] + key@ + value@
}

/// What is hashed for a branch: its depth in two bytes and the hashes of its sides behind a
/// four byte. The depth is what keeps a branch from being taken for one at another place.
pub open spec fn branch_input(depth: nat, left: [u8; 32], right: [u8; 32]) -> Seq<u8> {
    seq![4u8] + le_bytes(depth, 2) + left@ + right@
}

/// The hash of a subtree without leaves.
pub open spec fn empty_node_hash() -> [u8; 32] {
    sha3_256(empty_input())
}

/// The hash of a leaf.
pub open spec fn leaf_node_hash(key: [u8; 32], value: [u8; 32]) -> [u8; 32] {
    sha3_256(leaf_input(key, value))
}

/// The hash of a branch.
pub open spec fn branch_hash(depth: nat, left: [u8; 32], right: [u8; 32]) -> [u8; 32] {
    sha3_256(branch_input(depth, left, right))
}

proof fn lemma_inputs_apart(key: [u8; 32], v: [u8; 32], d: nat, l: [u8; 32], r: [u8; 32])
    ensures
        leaf_input(key, v).len() == 65,
        leaf_input(key, v)[0] == 3,
        branch_input(d, l, r).len() == 67,
        branch_input(d, l, r)[0] == 4,
        empty_input().len() == 1,
{
    lemma_le_bytes_len(d, 2);
}

proof fn lemma_branch_input_injective(
    d: nat,
    a: [u8; 32],
    b: [u8; 32],
    e: nat,
    x: [u8; 32],
    y: [u8; 32],
)
    requires
        d < 0x1_0000,
        e < 0x1_0000,
        branch_input(d, a, b) == branch_input(e, x, y),
    ensures
        d == e,
        a == x,
        b == y,
{
    let s = branch_input(d, a, b);
    let t = branch_input(e, x, y);
    lemma_le_bytes_len(d, 2);
    lemma_le_bytes_len(e, 2);
    lemma_pow256();
    assert(s.subrange(1, 3) =~= le_bytes(d, 2));
    assert(t.subrange(1, 3) =~= le_bytes(e, 2));
    lemma_le_injective(d, e, 2);
    assert(s.subrange(3, 35) =~= a@);
    assert(t.subrange(3, 35) =~= x@);
    assert(s.subrange(35, 67) =~= b@);
    assert(t.subrange(35, 67) =~= y@);
    assert(a =~= x);
    assert(b =~= y);
}

/// No leaf of `m` lies under `p`.
pub open spec fn none_under(m: Map<[u8; 32], [u8; 32]>, p: Seq<bool>) -> bool {
    forall|k: [u8; 32]| #[trigger] m.contains_key(k) ==> !under(k, p)
}

/// `key` is the only leaf of `m` under `p`.
pub open spec fn lone(m: Map<[u8; 32], [u8; 32]>, p: Seq<bool>, key: [u8; 32]) -> bool {
    &&& m.contains_key(key)
    &&& under(key, p)
    &&& forall|k: [u8; 32]| #[trigger] m.contains_key(k) && under(k, p) ==> k == key
}

/// The hash of what lies under `p`.
pub open spec fn node_hash(m: Map<[u8; 32], [u8; 32]>, p: Seq<bool>) -> [u8; 32]
    decreases 256 - p.len(),
{
    if none_under(m, p) {
        empty_node_hash()
    } else if exists|k: [u8; 32]| lone(m, p, k) {
        let k = choose|k: [u8; 32]| lone(m, p, k);
        leaf_node_hash(k, m[k])
    } else if p.len() >= 256 {
        empty_node_hash()
    } else if none_under(m, p.push(false)) {
        node_hash(m, p.push(true))
    } else if none_under(m, p.push(true)) {
        node_hash(m, p.push(false))
    } else {
        branch_hash(p.len(), node_hash(m, p.push(false)), node_hash(m, p.push(true)))
    }
}

/// The root of the tree whose leaves are `m`.
pub open spec fn compressed_root(m: Map<[u8; 32], [u8; 32]>) -> [u8; 32] {
    node_hash(m, Seq::empty())
}

/// One branch on the way from a leaf to the root: its depth and what lies on the
/// other side.
#[derive(Clone, Copy, Debug, PartialEq, Eq)]
pub struct ProofStep {
    pub depth: u16,
    pub sibling: [u8; 32],
}

/// Where a lookup ends.
#[derive(Clone, Copy, Debug, PartialEq, Eq)]
pub enum Terminal {
    /// At the leaf of the key.
    Leaf { value_hash: [u8; 32] },
    /// At the leaf of another key.
    OtherLeaf { key: [u8; 32], value_hash: [u8; 32] },
    /// At an empty subtree.
    Empty,
}

/// A proof that a key has a given value, or none.
#[derive(Debug, PartialEq, Eq)]
pub struct CompressedProof {
    pub key: [u8; 32],
    pub terminal: Terminal,
    /// The branches on the way, leaf first.
    pub steps: Vec<ProofStep>,
}

impl Clone for CompressedProof {
    fn clone(&self) -> (copy: Self)
        ensures
            copy.key == self.key,
            copy.terminal == self.terminal,
            copy.steps@ == self.steps@,
    {
        let steps = self.steps.clone();
        proof {
            assert(steps@ =~= self.steps@);
        }
        CompressedProof { key: self.key, terminal: self.terminal, steps }
    }
}

/// Where the lookup of `target` ends below `p`.
pub open spec fn lookup_end(
    m: Map<[u8; 32], [u8; 32]>,
    p: Seq<bool>,
    target: [u8; 32],
) -> Terminal
    decreases 256 - p.len(),
{
    if none_under(m, p) {
        Terminal::Empty
    } else if exists|k: [u8; 32]| lone(m, p, k) {
        let k = choose|k: [u8; 32]| lone(m, p, k);
        if k == target {
            Terminal::Leaf { value_hash: m[k] }
        } else {
            Terminal::OtherLeaf { key: k, value_hash: m[k] }
        }
    } else if p.len() >= 256 {
        Terminal::Empty
    } else if none_under(m, p.push(false)) {
        lookup_end(m, p.push(true), target)
    } else if none_under(m, p.push(true)) {
        lookup_end(m, p.push(false), target)
    } else {
        lookup_end(m, p.push(bit(target, p.len() as int)), target)
    }
}

/// The branches that the lookup of `target` passes below `p`, deepest first.
pub open spec fn lookup_steps(
    m: Map<[u8; 32], [u8; 32]>,
    p: Seq<bool>,
    target: [u8; 32],
) -> Seq<ProofStep>
    decreases 256 - p.len(),
{
    if none_under(m, p) || (exists|k: [u8; 32]| lone(m, p, k)) || p.len() >= 256 {
        Seq::empty()
    } else if none_under(m, p.push(false)) {
        lookup_steps(m, p.push(true), target)
    } else if none_under(m, p.push(true)) {
        lookup_steps(m, p.push(false), target)
    } else {
        let turn = bit(target, p.len() as int);
        lookup_steps(m, p.push(turn), target).push(
            ProofStep { depth: p.len() as u16, sibling: node_hash(m, p.push(!turn)) },
        )
    }
}

/// `proof` is the proof for `key` in the tree whose leaves are `m`.
pub open spec fn is_compressed_proof_of(
    proof: CompressedProof,
    m: Map<[u8; 32], [u8; 32]>,
    key: [u8; 32],
) -> bool {
    &&& proof.key == key
    &&& proof.terminal == lookup_end(m, Seq::empty(), key)
    &&& proof.steps@ == lookup_steps(m, Seq::empty(), key)
}

/// The hash that a lookup of `key` ended at.
pub open spec fn terminal_hash(key: [u8; 32], terminal: Terminal) -> [u8; 32] {
    match terminal {
        Terminal::Leaf { value_hash } => leaf_node_hash(key, value_hash),
        Terminal::OtherLeaf { key: other, value_hash } => leaf_node_hash(other, value_hash),
        Terminal::Empty => empty_node_hash(),
    }
}

/// The hash reached from `start` through `steps` along `key`.
pub open spec fn fold_steps(key: [u8; 32], start: [u8; 32], steps: Seq<ProofStep>) -> [u8; 32]
    decreases steps.len(),
{
    if steps.len() == 0 {
        start
    } else {
        let below = fold_steps(key, start, steps.drop_last());
        let step = steps.last();
        if bit(key, step.depth as int) {
            branch_hash(step.depth as nat, step.sibling, below)
        } else {
            branch_hash(step.depth as nat, below, step.sibling)
        }
    }
}

/// A proof holds against `root`: it does not call the key's own leaf another one, and
/// its steps lead from where it ends to the root.
pub open spec fn compressed_proof_holds(root: [u8; 32], proof: CompressedProof) -> bool {
    &&& (proof.terminal matches Terminal::OtherLeaf { key, .. } ==> key != proof.key)
    &&& fold_steps(proof.key, terminal_hash(proof.key, proof.terminal), proof.steps@) == root
}

/// Every step stands at a depth that a key has.
pub open spec fn depths_in_range(steps: Seq<ProofStep>) -> bool {
    forall|i: int| 0 <= i < steps.len() ==> (#[trigger] steps[i]).depth < 256
}

/// Two leaves of `m` lie under `p`.
pub open spec fn crowded(m: Map<[u8; 32], [u8; 32]>, p: Seq<bool>, a: [u8; 32], b: [u8; 32]) -> bool {
    &&& a != b
    &&& m.contains_key(a)
    &&& m.contains_key(b)
    &&& under(a, p)
    &&& under(b, p)
}

/// `m1` and `m2` have the same hash, ends and steps under `p`.
pub open spec fn alike(
    m1: Map<[u8; 32], [u8; 32]>,
    p1: Seq<bool>,
    m2: Map<[u8; 32], [u8; 32]>,
    p2: Seq<bool>,
) -> bool {
    &&& node_hash(m1, p1) == node_hash(m2, p2)
    &&& forall|t: [u8; 32]| #[trigger] lookup_end(m1, p1, t) == lookup_end(m2, p2, t)
    &&& forall|t: [u8; 32]| #[trigger] lookup_steps(m1, p1, t) == lookup_steps(m2, p2, t)
}

/// Two leaves make a subtree neither empty nor a lone leaf.
pub proof fn lemma_crowded(m: Map<[u8; 32], [u8; 32]>, p: Seq<bool>, a: [u8; 32], b: [u8; 32])
    requires
        crowded(m, p, a, b),
    ensures
        !none_under(m, p),
        forall|k: [u8; 32]| !#[trigger] lone(m, p, k),
        p.len() < 256,
{
    if p.len() == 256 {
        lemma_full_prefix_unique(a, b, p);
    }
}

/// What lies under `p` is determined by the leaves there.
pub proof fn lemma_alike_local(
    m1: Map<[u8; 32], [u8; 32]>,
    m2: Map<[u8; 32], [u8; 32]>,
    p: Seq<bool>,
)
    requires
        p.len() <= 256,
        forall|k: [u8; 32]| #[trigger] under(k, p) ==> same_at(m1, m2, k),
    ensures
        alike(m1, p, m2, p),
        none_under(m1, p) == none_under(m2, p),
    decreases 256 - p.len(),
{
    assert forall|k: [u8; 32]| #[trigger] m1.contains_key(k) && under(k, p) implies m2.contains_key(k)
        && m1[k] == m2[k] by {
        assert(same_at(m1, m2, k));
    }
    assert forall|k: [u8; 32]| #[trigger] m2.contains_key(k) && under(k, p) implies m1.contains_key(k)
        && m1[k] == m2[k] by {
        assert(same_at(m1, m2, k));
    }
    assert forall|k: [u8; 32]| #[trigger] lone(m1, p, k) == lone(m2, p, k) by {}
    if exists|k: [u8; 32]| lone(m1, p, k) {
        let k1 = choose|k: [u8; 32]| lone(m1, p, k);
        assert(lone(m2, p, k1));
        lemma_lone(m1, p, k1, k1);
        lemma_lone(m2, p, k1, k1);
        assert forall|t: [u8; 32]| #[trigger] lookup_end(m1, p, t) == lookup_end(m2, p, t) by {
            lemma_lone(m1, p, k1, t);
            lemma_lone(m2, p, k1, t);
        }
        assert forall|t: [u8; 32]| #[trigger] lookup_steps(m1, p, t) == lookup_steps(m2, p, t) by {
            lemma_lone(m1, p, k1, t);
            lemma_lone(m2, p, k1, t);
        }
    } else if exists|k: [u8; 32]| lone(m2, p, k) {
        let k2 = choose|k: [u8; 32]| lone(m2, p, k);
        assert(lone(m1, p, k2));
    } else if p.len() < 256 {
        assert forall|k: [u8; 32]| #[trigger] under(k, p.push(false)) implies same_at(m1, m2, k) by {
            lemma_under_push(k, p, false);
            assert(under(k, p));
        }
        assert forall|k: [u8; 32]| #[trigger] under(k, p.push(true)) implies same_at(m1, m2, k) by {
            lemma_under_push(k, p, true);
            assert(under(k, p));
        }
        lemma_alike_local(m1, m2, p.push(false));
        lemma_alike_local(m1, m2, p.push(true));
        assert forall|t: [u8; 32]| #[trigger] lookup_end(m1, p, t) == lookup_end(m2, p, t)
            && lookup_steps(m1, p, t) == lookup_steps(m2, p, t) by {
            assert(lookup_end(m1, p.push(false), t) == lookup_end(m2, p.push(false), t));
            assert(lookup_end(m1, p.push(true), t) == lookup_end(m2, p.push(true), t));
            assert(lookup_steps(m1, p.push(false), t) == lookup_steps(m2, p.push(false), t));
            assert(lookup_steps(m1, p.push(true), t) == lookup_steps(m2, p.push(true), t));
            if bit(t, p.len() as int) {
            } else {
            }
        }
        assert forall|t: [u8; 32]| #[trigger] lookup_steps(m1, p, t) == lookup_steps(m2, p, t) by {
            assert(lookup_end(m1, p, t) == lookup_end(m2, p, t));
        }
    }
}

/// Bits that all the leaves share are passed without a hash.
pub proof fn lemma_descend(
    m: Map<[u8; 32], [u8; 32]>,
    p: Seq<bool>,
    q: Seq<bool>,
    a: [u8; 32],
    b: [u8; 32],
)
    requires
        p.len() <= q.len() <= 256,
        q.take(p.len() as int) == p,
        forall|k: [u8; 32]| #[trigger] m.contains_key(k) && under(k, p) ==> under(k, q),
        crowded(m, p, a, b),
    ensures
        alike(m, p, m, q),
        crowded(m, q, a, b),
    decreases q.len() - p.len(),
{
    assert(under(a, q) && under(b, q));
    lemma_crowded(m, q, a, b);
    lemma_crowded(m, p, a, b);
    if p.len() == q.len() {
        assert(p =~= q);
    } else {
        let turn = q[p.len() as int];
        let next = p.push(turn);
        assert(q.take(next.len() as int) =~= next);
        lemma_under_push(a, p, turn);
        lemma_under_push(b, p, turn);
        assert(bit(a, p.len() as int) == turn && bit(b, p.len() as int) == turn);
        assert(none_under(m, p.push(!turn))) by {
            assert forall|k: [u8; 32]| #[trigger] m.contains_key(k) implies !under(
                k,
                p.push(!turn),
            ) by {
                lemma_under_push(k, p, !turn);
                if under(k, p.push(!turn)) {
                    assert(under(k, q));
                    assert(bit(k, p.len() as int) == q[p.len() as int]);
                }
            }
        }
        assert forall|k: [u8; 32]| #[trigger] m.contains_key(k) && under(k, next) implies under(k, q) by {
            lemma_under_push(k, p, turn);
        }
        assert(!none_under(m, next));
        lemma_descend(m, next, q, a, b);
        if turn {
            assert(none_under(m, p.push(false)));
        } else {
            assert(none_under(m, p.push(true)) && !none_under(m, p.push(false)));
        }
        assert(alike(m, p, m, next));
        assert forall|t: [u8; 32]| #[trigger] lookup_end(m, p, t) == lookup_end(m, q, t) by {
            assert(lookup_end(m, next, t) == lookup_end(m, q, t));
        }
        assert forall|t: [u8; 32]| #[trigger] lookup_steps(m, p, t) == lookup_steps(m, q, t) by {
            assert(lookup_steps(m, next, t) == lookup_steps(m, q, t));
        }
    }
}

/// Where leaves lie on both sides, the hashes of the sides are hashed together.
pub proof fn lemma_split(m: Map<[u8; 32], [u8; 32]>, p: Seq<bool>, a: [u8; 32], b: [u8; 32])
    requires
        p.len() < 256,
        m.contains_key(a),
        m.contains_key(b),
        under(a, p.push(false)),
        under(b, p.push(true)),
    ensures
        node_hash(m, p) == branch_hash(
            p.len(),
            node_hash(m, p.push(false)),
            node_hash(m, p.push(true)),
        ),
        forall|t: [u8; 32]| #[trigger]
            lookup_end(m, p, t) == lookup_end(m, p.push(bit(t, p.len() as int)), t),
        forall|t: [u8; 32]| #[trigger]
            lookup_steps(m, p, t) == lookup_steps(m, p.push(bit(t, p.len() as int)), t).push(
                ProofStep {
                    depth: p.len() as u16,
                    sibling: node_hash(m, p.push(!bit(t, p.len() as int))),
                },
            ),
{
    lemma_under_push(a, p, false);
    lemma_under_push(b, p, true);
    lemma_crowded(m, p, a, b);
    assert(!none_under(m, p.push(false)));
    assert(!none_under(m, p.push(true)));
}

/// A lone leaf is hashed as it is, and every lookup ends at it.
pub proof fn lemma_lone(m: Map<[u8; 32], [u8; 32]>, p: Seq<bool>, key: [u8; 32], target: [u8; 32])
    requires
        lone(m, p, key),
    ensures
        node_hash(m, p) == leaf_node_hash(key, m[key]),
        lookup_end(m, p, target) == (if key == target {
            Terminal::Leaf { value_hash: m[key] }
        } else {
            Terminal::OtherLeaf { key, value_hash: m[key] }
        }),
        lookup_steps(m, p, target) == Seq::<ProofStep>::empty(),
{
    let k = choose|k: [u8; 32]| lone(m, p, k);
    assert(lone(m, p, k));
    assert(k == key);
}

/// The hash of a subtree without leaves.
pub fn empty_node() -> (digest: [u8; 32])
    ensures
        digest == empty_node_hash(),
{
    let mut data: Vec<u8> = Vec::new();
    data.push(0x05);
    proof {
        assert(data@ =~= seq![5u8]);
    }
    sha3_256_digest(data.as_slice())
}

/// The hash of a leaf.
pub fn leaf_node(key: &[u8; 32], value_hash: &[u8; 32]) -> (digest: [u8; 32])
    ensures
        digest == leaf_node_hash(*key, *value_hash),
{
    hash_tagged_pair(0x03, key, value_hash)
}

pub(crate) fn internal_node(depth: usize, left: &[u8; 32], right: &[u8; 32]) -> (digest: [u8; 32])
    ensures
        digest == branch_hash(depth as nat, *left, *right),
{
    let mut data: Vec<u8> = Vec::with_capacity(67);
    data.push(0x04);
    let mut place = le_encode(depth as u64, 2);
    data.append(&mut place);
    data.extend_from_slice(left.as_slice());
    data.extend_from_slice(right.as_slice());
    proof {
        assert(data@ =~= branch_input(depth as nat, *left, *right));
    }
    sha3_256_digest(data.as_slice())
}

proof fn lemma_one_leaf(leaves: Seq<Leaf>, p: Seq<bool>)
    requires
        leaves.len() == 1,
        all_under(leaves, p),
    ensures
        lone(leaf_map(leaves), p, leaves[0].0),
        leaf_map(leaves)[leaves[0].0] == leaves[0].1,
{
    lemma_leaf_map_keys(leaves);
}

proof fn lemma_two_leaves(leaves: Seq<Leaf>, p: Seq<bool>)
    requires
        leaves.len() >= 2,
        all_under(leaves, p),
        distinct_keys(leaves),
    ensures
        crowded(leaf_map(leaves), p, leaves[0].0, leaves[1].0),
        p.len() < 256,
{
    lemma_leaf_map_keys(leaves);
    assert(leaves[0].0 != leaves[1].0);
    lemma_crowded(leaf_map(leaves), p, leaves[0].0, leaves[1].0);
}

/// One side of a list of leaves stands for what lies on that side.
pub proof fn lemma_list_side(side: Seq<Leaf>, leaves: Seq<Leaf>, p: Seq<bool>, b: bool)
    requires
        p.len() < 256,
        is_side(side, leaves, p.len() as int, b),
        all_under(leaves, p),
    ensures
        all_under(side, p.push(b)),
        alike(leaf_map(side), p.push(b), leaf_map(leaves), p.push(b)),
        side.len() == 0 ==> none_under(leaf_map(leaves), p.push(b)),
        side.len() > 0 ==> leaf_map(leaves).contains_key(side[0].0) && under(side[0].0, p.push(b)),
{
    lemma_side_under(side, leaves, p, b);
    let m = leaf_map(leaves);
    assert forall|k: [u8; 32]| #[trigger] under(k, p.push(b)) implies same_at(
        leaf_map(side),
        m,
        k,
    ) by {
        lemma_under_push(k, p, b);
        assert(same_at(leaf_map(side), leaf_map_of(leaves, k), k));
    }
    lemma_alike_local(leaf_map(side), m, p.push(b));
    lemma_leaf_map_keys(side);
    if side.len() > 0 {
        assert(same_at(leaf_map(side), m, side[0].0));
    }
}

/// The leaves of a list on the two sides of `p`, with what follows for the whole list.
proof fn lemma_list_sides(left: Seq<Leaf>, right: Seq<Leaf>, leaves: Seq<Leaf>, p: Seq<bool>)
    requires
        p.len() < 256,
        is_side(left, leaves, p.len() as int, false),
        is_side(right, leaves, p.len() as int, true),
        all_under(leaves, p),
        distinct_keys(leaves),
        leaves.len() >= 2,
    ensures
        all_under(left, p.push(false)),
        all_under(right, p.push(true)),
        alike(leaf_map(left), p.push(false), leaf_map(leaves), p.push(false)),
        alike(leaf_map(right), p.push(true), leaf_map(leaves), p.push(true)),
        left.len() == 0 ==> alike(leaf_map(leaves), p, leaf_map(right), p.push(true)),
        left.len() > 0 && right.len() == 0 ==> alike(
            leaf_map(leaves),
            p,
            leaf_map(left),
            p.push(false),
        ),
        left.len() > 0 && right.len() > 0 ==> {
            &&& node_hash(leaf_map(leaves), p) == branch_hash(
                p.len(),
                node_hash(leaf_map(leaves), p.push(false)),
                node_hash(leaf_map(leaves), p.push(true)),
            )
            &&& forall|t: [u8; 32]| #[trigger]
                lookup_end(leaf_map(leaves), p, t) == lookup_end(
                    leaf_map(leaves),
                    p.push(bit(t, p.len() as int)),
                    t,
                )
            &&& forall|t: [u8; 32]| #[trigger]
                lookup_steps(leaf_map(leaves), p, t) == lookup_steps(
                    leaf_map(leaves),
                    p.push(bit(t, p.len() as int)),
                    t,
                ).push(
                    ProofStep {
                        depth: p.len() as u16,
                        sibling: node_hash(leaf_map(leaves), p.push(!bit(t, p.len() as int))),
                    },
                )
        },
{
    let m = leaf_map(leaves);
    lemma_list_side(left, leaves, p, false);
    lemma_list_side(right, leaves, p, true);
    lemma_two_leaves(leaves, p);
    lemma_crowded(m, p, leaves[0].0, leaves[1].0);
    if left.len() > 0 && right.len() > 0 {
        lemma_split(m, p, left[0].0, right[0].0);
    }
    if left.len() > 0 {
        assert(!none_under(m, p.push(false)));
    }
}

/// The root of the leaves under `p`.
pub(crate) fn compute_root(leaves: &Vec<Leaf>, depth: usize, Ghost(p): Ghost<Seq<bool>>) -> (root: [u8; 32])
    requires
        p.len() == depth,
        depth <= 256,
        all_under(leaves@, p),
        distinct_keys(leaves@),
    ensures
        root == node_hash(leaf_map(leaves@), p),
    decreases 256 - depth,
{
    if leaves.len() == 0 {
        return empty_node();
    }
    if leaves.len() == 1 {
        proof {
            lemma_one_leaf(leaves@, p);
            lemma_lone(leaf_map(leaves@), p, leaves@[0].0, leaves@[0].0);
        }
        return leaf_node(&leaves[0].0, &leaves[0].1);
    }
    proof {
        lemma_two_leaves(leaves@, p);
    }
    let (left, right) = partition(leaves, depth);
    proof {
        lemma_list_sides(left@, right@, leaves@, p);
    }
    if left.len() == 0 {
        compute_root(&right, depth + 1, Ghost(p.push(true)))
    } else if right.len() == 0 {
        compute_root(&left, depth + 1, Ghost(p.push(false)))
    } else {
        let lh: [u8; 32] = compute_root(&left, depth + 1, Ghost(p.push(false)));
        let rh: [u8; 32] = compute_root(&right, depth + 1, Ghost(p.push(true)));
        internal_node(depth, &lh, &rh)
    }
}

/// Where the lookup of `target` ends among the leaves under `p`; the branches on the
/// way are pushed, deepest first.
pub(crate) fn compute_proof(
    leaves: &Vec<Leaf>,
    depth: usize,
    target: &[u8; 32],
    steps: &mut Vec<ProofStep>,
    Ghost(p): Ghost<Seq<bool>>,
) -> (terminal: Terminal)
    requires
        p.len() == depth,
        depth <= 256,
        all_under(leaves@, p),
        distinct_keys(leaves@),
    ensures
        terminal == lookup_end(leaf_map(leaves@), p, *target),
        final(steps)@ == old(steps)@ + lookup_steps(leaf_map(leaves@), p, *target),
    decreases 256 - depth,
{
    let ghost before = steps@;
    let ghost m = leaf_map(leaves@);
    if leaves.len() == 0 {
        proof {
            assert(none_under(m, p));
            assert(before + lookup_steps(m, p, *target) =~= before);
        }
        return Terminal::Empty;
    }
    if leaves.len() == 1 {
        proof {
            lemma_one_leaf(leaves@, p);
            lemma_lone(m, p, leaves@[0].0, *target);
            assert(before + lookup_steps(m, p, *target) =~= before);
        }
        let (k, v) = leaves[0];
        return if digests_equal(&k, target) {
            Terminal::Leaf { value_hash: v }
        } else {
            Terminal::OtherLeaf { key: k, value_hash: v }
        };
    }
    proof {
        lemma_two_leaves(leaves@, p);
    }
    let (left, right) = partition(leaves, depth);
    proof {
        lemma_list_sides(left@, right@, leaves@, p);
    }
    if left.len() == 0 {
        compute_proof(&right, depth + 1, target, steps, Ghost(p.push(true)))
    } else if right.len() == 0 {
        compute_proof(&left, depth + 1, target, steps, Ghost(p.push(false)))
    } else {
        let target_right: bool = bit_at(target, depth);
        let other_hash: [u8; 32] = if target_right {
            compute_root(&left, depth + 1, Ghost(p.push(false)))
        } else {
            compute_root(&right, depth + 1, Ghost(p.push(true)))
        };
        let terminal: Terminal = if target_right {
            compute_proof(&right, depth + 1, target, steps, Ghost(p.push(true)))
        } else {
            compute_proof(&left, depth + 1, target, steps, Ghost(p.push(false)))
        };
        steps.push(ProofStep { depth: depth as u16, sibling: other_hash });
        proof {
            assert(steps@ =~= before + lookup_steps(m, p, *target));
        }
        terminal
    }
}

impl CompressedProof {
    /// Whether the proof says that the key is there.
    pub fn is_inclusion(&self) -> (yes: bool)
        ensures
            yes == (self.terminal is Leaf),
    {
        matches!(self.terminal, Terminal::Leaf { .. })
    }

    /// The value hash that the proof says the key has.
    pub fn value_hash(&self) -> (value: Option<[u8; 32]>)
        ensures
            value == (match self.terminal {
                Terminal::Leaf { value_hash } => Some(value_hash),
                _ => None,
            }),
    {
        match self.terminal {
            Terminal::Leaf { value_hash } => Some(value_hash),
            _ => None,
        }
    }
}

/// Whether a proof holds against `root`.
pub fn verify_proof(root: [u8; 32], proof: &CompressedProof) -> (holds: bool)
    requires
        depths_in_range(proof.steps@),
    ensures
        holds == compressed_proof_holds(root, *proof),
{
    let mut current: [u8; 32] = match &proof.terminal {
        Terminal::Leaf { value_hash } => leaf_node(&proof.key, value_hash),
        Terminal::OtherLeaf { key, value_hash } => {
            if digests_equal(key, &proof.key) {
                return false;
            }
            leaf_node(key, value_hash)
        },
        Terminal::Empty => empty_node(),
    };
    let ghost start = terminal_hash(proof.key, proof.terminal);
    let mut i: usize = 0;
    while i < proof.steps.len()
        invariant
            i <= proof.steps@.len(),
            depths_in_range(proof.steps@),
            current == fold_steps(proof.key, start, proof.steps@.take(i as int)),
        decreases proof.steps@.len() - i,
    {
        let step: ProofStep = proof.steps[i];
        let d: usize = step.depth as usize;
        proof {
            let s = proof.steps@.take(i + 1);
            assert(s.drop_last() =~= proof.steps@.take(i as int));
            assert(s.last() == step);
        }
        current = if bit_at(&proof.key, d) {
            internal_node(d, &step.sibling, &current)
        } else {
            internal_node(d, &current, &step.sibling)
        };
        i += 1;
    }
    proof {
        assert(proof.steps@.take(i as int) =~= proof.steps@);
    }
    digests_equal(&current, &root)
}

/// Roots and proofs computed from all the leaves.
pub struct CompressedStateTree;

impl CompressedStateTree {
    /// The root of a list of leaves in which no key occurs twice.
    pub fn root(leaves: &Vec<Leaf>) -> (root: [u8; 32])
        requires
            distinct_keys(leaves@),
        ensures
            root == compressed_root(leaf_map(leaves@)),
    {
        compute_root(leaves, 0, Ghost(Seq::empty()))
    }

    /// The root of a list of accounts in which no address occurs twice.
    pub fn root_from_accounts(accounts: &Vec<(Pubkey, StateAccount)>) -> (root: [u8; 32])
        requires
            changes_encodable(accounts@),
            distinct_keys(change_leaves(accounts@)),
        ensures
            root == compressed_root(leaf_map(change_leaves(accounts@))),
    {
        let leaves = hash_changes(accounts);
        CompressedStateTree::root(&leaves)
    }

    /// The proof for `key` over a list of leaves in which no key occurs twice.
    pub fn prove(leaves: &Vec<Leaf>, key: &[u8; 32]) -> (proof: CompressedProof)
        requires
            distinct_keys(leaves@),
        ensures
            is_compressed_proof_of(proof, leaf_map(leaves@), *key),
    {
        let mut steps: Vec<ProofStep> = Vec::new();
        let terminal: Terminal = compute_proof(leaves, 0, key, &mut steps, Ghost(Seq::empty()));
        proof {
            assert(steps@ =~= lookup_steps(leaf_map(leaves@), Seq::empty(), *key));
        }
        CompressedProof { key: *key, terminal, steps }
    }
}

proof fn lemma_lookup_holds(m: Map<[u8; 32], [u8; 32]>, p: Seq<bool>, target: [u8; 32])
    requires
        p.len() <= 256,
    ensures
        fold_steps(
            target,
            terminal_hash(target, lookup_end(m, p, target)),
            lookup_steps(m, p, target),
        ) == node_hash(m, p),
        lookup_end(m, p, target) matches Terminal::OtherLeaf { key, .. } ==> key != target,
        lookup_end(m, p, target) matches Terminal::Leaf { value_hash } ==> m.contains_key(target)
            && value_hash == m[target],
        m.contains_key(target) && under(target, p) ==> lookup_end(m, p, target) is Leaf,
        depths_in_range(lookup_steps(m, p, target)),
    decreases 256 - p.len(),
{
    if none_under(m, p) {
    } else if exists|k: [u8; 32]| lone(m, p, k) {
    } else if p.len() < 256 {
        lemma_lookup_holds(m, p.push(false), target);
        lemma_lookup_holds(m, p.push(true), target);
        lemma_under_push(target, p, false);
        lemma_under_push(target, p, true);
        if !none_under(m, p.push(false)) && !none_under(m, p.push(true)) {
            let s = lookup_steps(m, p, target);
            let below = lookup_steps(m, p.push(bit(target, p.len() as int)), target);
            assert(s.drop_last() =~= below);
            assert forall|i: int| 0 <= i < s.len() implies (#[trigger] s[i]).depth < 256 by {
                if i < below.len() {
                    assert(s[i] == below[i]);
                }
            }
        }
    } else {
        let a = choose|k: [u8; 32]| #[trigger] m.contains_key(k) && under(k, p);
        assert(lone(m, p, a)) by {
            assert forall|k: [u8; 32]| #[trigger] m.contains_key(k) && under(k, p) implies k
                == a by {
                lemma_full_prefix_unique(k, a, p);
            }
        }
    }
}

/// A proof holds against the root of the tree that it was made from, and it says
/// that the key is there exactly where it is, with the value that it has.
pub proof fn law_compressed_proofs_hold(
    proof: CompressedProof,
    m: Map<[u8; 32], [u8; 32]>,
    key: [u8; 32],
)
    requires
        is_compressed_proof_of(proof, m, key),
    ensures
        depths_in_range(proof.steps@),
        compressed_proof_holds(compressed_root(m), proof),
        (proof.terminal is Leaf) == m.contains_key(key),
        proof.terminal matches Terminal::Leaf { value_hash } ==> value_hash == m[key],
{
    lemma_lookup_holds(m, Seq::empty(), key);
    assert(under(key, Seq::<bool>::empty()));
}

/// The byte string under the hash of `p`.
pub open spec fn node_input(m: Map<[u8; 32], [u8; 32]>, p: Seq<bool>) -> Seq<u8>
    decreases 256 - p.len(),
{
    if none_under(m, p) {
        empty_input()
    } else if exists|k: [u8; 32]| lone(m, p, k) {
        let k = choose|k: [u8; 32]| lone(m, p, k);
        leaf_input(k, m[k])
    } else if p.len() >= 256 {
        empty_input()
    } else if none_under(m, p.push(false)) {
        node_input(m, p.push(true))
    } else if none_under(m, p.push(true)) {
        node_input(m, p.push(false))
    } else {
        branch_input(p.len(), node_hash(m, p.push(false)), node_hash(m, p.push(true)))
    }
}

/// What is hashed where a lookup of `key` ended.
pub open spec fn terminal_input(key: [u8; 32], terminal: Terminal) -> Seq<u8> {
    match terminal {
        Terminal::Leaf { value_hash } => leaf_input(key, value_hash),
        Terminal::OtherLeaf { key: other, value_hash } => leaf_input(other, value_hash),
        Terminal::Empty => empty_input(),
    }
}

/// What is hashed last on the way from `start` through `steps` along `key`.
pub open spec fn fold_input(key: [u8; 32], start: Seq<u8>, steps: Seq<ProofStep>) -> Seq<u8> {
    if steps.len() == 0 {
        start
    } else {
        let below = fold_steps(key, sha3_256(start), steps.drop_last());
        let step = steps.last();
        if bit(key, step.depth as int) {
            branch_input(step.depth as nat, step.sibling, below)
        } else {
            branch_input(step.depth as nat, below, step.sibling)
        }
    }
}

/// On the way down from `p`, what is hashed for the tree and what is hashed for the proof
/// collide at one of the proof's own levels.
pub open spec fn levels_collide(
    m: Map<[u8; 32], [u8; 32]>,
    p: Seq<bool>,
    key: [u8; 32],
    start: Seq<u8>,
    steps: Seq<ProofStep>,
) -> bool
    decreases 256 - p.len(),
{
    if none_under(m, p) || (exists|k: [u8; 32]| lone(m, p, k)) || p.len() >= 256 {
        collide(fold_input(key, start, steps), node_input(m, p))
    } else if none_under(m, p.push(false)) {
        levels_collide(m, p.push(true), key, start, steps)
    } else if none_under(m, p.push(true)) {
        levels_collide(m, p.push(false), key, start, steps)
    } else {
        ||| collide(fold_input(key, start, steps), node_input(m, p))
        ||| steps.len() > 0 && levels_collide(
            m,
            p.push(bit(key, p.len() as int)),
            key,
            start,
            steps.drop_last(),
        )
    }
}

/// What is hashed for a proof and what is hashed for the tree with the leaves `m` collide at
/// one of the proof's own levels.
pub open spec fn proof_collides(proof: CompressedProof, m: Map<[u8; 32], [u8; 32]>) -> bool {
    levels_collide(
        m,
        Seq::empty(),
        proof.key,
        terminal_input(proof.key, proof.terminal),
        proof.steps@,
    )
}

proof fn lemma_node_input(m: Map<[u8; 32], [u8; 32]>, p: Seq<bool>)
    ensures
        node_hash(m, p) == sha3_256(node_input(m, p)),
    decreases 256 - p.len(),
{
    if none_under(m, p) || (exists|k: [u8; 32]| lone(m, p, k)) || p.len() >= 256 {
    } else if none_under(m, p.push(false)) {
        lemma_node_input(m, p.push(true));
    } else if none_under(m, p.push(true)) {
        lemma_node_input(m, p.push(false));
    }
}

/// The tree says what the end of the lookup says of the key.
spec fn end_is_right(m: Map<[u8; 32], [u8; 32]>, key: [u8; 32], terminal: Terminal) -> bool {
    match terminal {
        Terminal::Leaf { value_hash } => m.contains_key(key) && m[key] == value_hash,
        _ => !m.contains_key(key),
    }
}

proof fn lemma_steps_claim(
    m: Map<[u8; 32], [u8; 32]>,
    p: Seq<bool>,
    key: [u8; 32],
    terminal: Terminal,
    steps: Seq<ProofStep>,
)
    requires
        p.len() <= 256,
        !(terminal is Leaf) && m.contains_key(key) ==> under(key, p),
        terminal matches Terminal::OtherLeaf { key: other, .. } ==> other != key,
        fold_steps(key, terminal_hash(key, terminal), steps) == node_hash(m, p),
    ensures
        end_is_right(m, key, terminal) || levels_collide(
            m,
            p,
            key,
            terminal_input(key, terminal),
            steps,
        ),
    decreases 256 - p.len(),
{
    let start = terminal_input(key, terminal);
    assert(sha3_256(start) == terminal_hash(key, terminal));
    lemma_node_input(m, p);
    let x = fold_input(key, start, steps);
    let y = node_input(m, p);
    assert(sha3_256(x) == sha3_256(y));
    if steps.len() > 0 {
        lemma_inputs_apart(key, key, steps.last().depth as nat, key, key);
        let below = fold_steps(key, sha3_256(start), steps.drop_last());
        let step = steps.last();
        lemma_le_bytes_len(step.depth as nat, 2);
        assert(x.len() == 67 && x[0] == 4);
    } else {
        match terminal {
            Terminal::Leaf { value_hash } => {
                lemma_inputs_apart(key, value_hash, 0, key, key);
            },
            Terminal::OtherLeaf { key: other, value_hash } => {
                lemma_inputs_apart(other, value_hash, 0, key, key);
            },
            Terminal::Empty => {},
        }
    }
    if none_under(m, p) {
        if x == y {
            assert(terminal is Empty);
        }
    } else if exists|k: [u8; 32]| lone(m, p, k) {
        let k = choose|k: [u8; 32]| lone(m, p, k);
        lemma_inputs_apart(k, m[k], 0, k, k);
        if x == y {
            match terminal {
                Terminal::Leaf { value_hash } => {
                    lemma_tagged_pair_injective(3, key, value_hash, 3, k, m[k]);
                },
                Terminal::OtherLeaf { key: other, value_hash } => {
                    lemma_tagged_pair_injective(3, other, value_hash, 3, k, m[k]);
                },
                Terminal::Empty => {},
            }
        }
    } else if p.len() >= 256 {
        lemma_full_place(m, p);
    } else {
        lemma_under_push(key, p, false);
        lemma_under_push(key, p, true);
        if none_under(m, p.push(false)) {
            lemma_steps_claim(m, p.push(true), key, terminal, steps);
        } else if none_under(m, p.push(true)) {
            lemma_steps_claim(m, p.push(false), key, terminal, steps);
        } else {
            let l = node_hash(m, p.push(false));
            let r = node_hash(m, p.push(true));
            lemma_inputs_apart(key, key, p.len(), l, r);
            if x == y {
                assert(steps.len() > 0);
                let step = steps.last();
                let below = fold_steps(key, sha3_256(start), steps.drop_last());
                if bit(key, step.depth as int) {
                    lemma_branch_input_injective(step.depth as nat, step.sibling, below, p.len(), l, r);
                } else {
                    lemma_branch_input_injective(step.depth as nat, below, step.sibling, p.len(), l, r);
                }
                lemma_steps_claim(
                    m,
                    p.push(bit(key, p.len() as int)),
                    key,
                    terminal,
                    steps.drop_last(),
                );
            }
        }
    }
}

/// At a full address there is at most one leaf.
proof fn lemma_full_place(m: Map<[u8; 32], [u8; 32]>, p: Seq<bool>)
    requires
        p.len() == 256,
        !none_under(m, p),
    ensures
        exists|k: [u8; 32]| lone(m, p, k),
{
    let a = choose|k: [u8; 32]| #[trigger] m.contains_key(k) && under(k, p);
    assert(lone(m, p, a)) by {
        assert forall|k: [u8; 32]| #[trigger] m.contains_key(k) && under(k, p) implies k == a by {
            lemma_full_prefix_unique(k, a, p);
        }
    }
}

/// A proof that holds against the root of a tree and says that the key is there with
/// some value is right, unless what is hashed for it collides with what is hashed for the
/// tree at one of its own levels.
pub proof fn law_inclusion_binds(proof: CompressedProof, m: Map<[u8; 32], [u8; 32]>)
    requires
        compressed_proof_holds(compressed_root(m), proof),
        proof.terminal is Leaf,
    ensures
        (m.contains_key(proof.key) && m[proof.key] == proof.terminal->Leaf_value_hash)
            || proof_collides(proof, m),
{
    lemma_steps_claim(m, Seq::empty(), proof.key, proof.terminal, proof.steps@);
}

/// A proof that holds against the root of a tree and says that the key is not there is
/// right, unless what is hashed for it collides with what is hashed for the tree at one of
/// its own levels.
pub proof fn law_exclusion_binds(proof: CompressedProof, m: Map<[u8; 32], [u8; 32]>)
    requires
        compressed_proof_holds(compressed_root(m), proof),
        !(proof.terminal is Leaf),
    ensures
        !m.contains_key(proof.key) || proof_collides(proof, m),
{
    assert(under(proof.key, Seq::<bool>::empty()));
    lemma_steps_claim(m, Seq::empty(), proof.key, proof.terminal, proof.steps@);
}

/// Trees with one root agree on every key, unless what is hashed for the one's proof of the
/// key collides with what is hashed for the other at one of that proof's levels.
pub proof fn law_compressed_roots_commit(
    m1: Map<[u8; 32], [u8; 32]>,
    m2: Map<[u8; 32], [u8; 32]>,
    proof: CompressedProof,
    key: [u8; 32],
)
    requires
        compressed_root(m1) == compressed_root(m2),
        is_compressed_proof_of(proof, m1, key),
    ensures
        same_at(m1, m2, key) || proof_collides(proof, m2),
{
    law_compressed_proofs_hold(proof, m1, key);
    if proof.terminal is Leaf {
        law_inclusion_binds(proof, m2);
    } else {
        law_exclusion_binds(proof, m2);
    }
}

/// The keys of `m` that lie under `p`.
spec fn keys_under(m: Map<[u8; 32], [u8; 32]>, p: Seq<bool>) -> Set<[u8; 32]> {
    m.dom().filter(|k: [u8; 32]| under(k, p))
}

/// The depths of the steps go down, and none is above `lowest` in the tree.
pub open spec fn depths_go_down(steps: Seq<ProofStep>, lowest: int) -> bool {
    &&& forall|i: int| 0 <= i < steps.len() ==> lowest <= (#[trigger] steps[i]).depth < 256
    &&& forall|i: int, j: int|
        0 <= i < j < steps.len() ==> (#[trigger] steps[i]).depth > (#[trigger] steps[j]).depth
}

proof fn lemma_lookup_is_short(m: Map<[u8; 32], [u8; 32]>, p: Seq<bool>, target: [u8; 32])
    requires
        p.len() <= 256,
        m.dom().finite(),
    ensures
        depths_go_down(lookup_steps(m, p, target), p.len() as int),
        none_under(m, p) ==> lookup_steps(m, p, target).len() == 0,
        !none_under(m, p) ==> lookup_steps(m, p, target).len() < keys_under(m, p).len(),
        (lookup_end(m, p, target) is Empty) == none_under(m, p),
        lookup_end(m, p, target) matches Terminal::OtherLeaf { key, value_hash }
            ==> m.contains_key(key) && m[key] == value_hash,
    decreases 256 - p.len(),
{
    let all = keys_under(m, p);
    m.dom().lemma_len_filter(|k: [u8; 32]| under(k, p));
    if none_under(m, p) {
    } else if exists|k: [u8; 32]| lone(m, p, k) {
        let k = choose|k: [u8; 32]| lone(m, p, k);
        assert(all.contains(k));
        vstd::set_lib::lemma_set_empty_equivalency_len(all);
    } else if p.len() >= 256 {
        lemma_full_place(m, p);
    } else {
        let l = keys_under(m, p.push(false));
        let r = keys_under(m, p.push(true));
        m.dom().lemma_len_filter(|k: [u8; 32]| under(k, p.push(false)));
        m.dom().lemma_len_filter(|k: [u8; 32]| under(k, p.push(true)));
        lemma_lookup_is_short(m, p.push(false), target);
        lemma_lookup_is_short(m, p.push(true), target);
        assert forall|k: [u8; 32]| #[trigger] all.contains(k) == (l.contains(k) || r.contains(k)) by {
            lemma_under_push(k, p, false);
            lemma_under_push(k, p, true);
        }
        assert(all =~= l + r);
        assert(l.disjoint(r)) by {
            assert forall|k: [u8; 32]| !(#[trigger] l.contains(k) && r.contains(k)) by {
                lemma_under_push(k, p, false);
                lemma_under_push(k, p, true);
            }
        }
        vstd::set_lib::lemma_set_disjoint_lens(l, r);
        if none_under(m, p.push(false)) {
            assert(l =~= Set::empty());
            if none_under(m, p.push(true)) {
                assert(r =~= Set::empty());
                let k = choose|k: [u8; 32]| #[trigger] m.contains_key(k) && under(k, p);
                assert(all.contains(k));
            }
        } else if none_under(m, p.push(true)) {
            assert(r =~= Set::empty());
        } else {
            let turn = bit(target, p.len() as int);
            let below = lookup_steps(m, p.push(turn), target);
            let s = lookup_steps(m, p, target);
            assert(s.drop_last() =~= below);
            assert forall|i: int, j: int| 0 <= i < j < s.len() implies (#[trigger] s[i]).depth > (
            #[trigger] s[j]).depth by {
                assert(s[i] == below[i]);
                if j < below.len() {
                    assert(s[j] == below[j]);
                }
            }
            assert forall|i: int| 0 <= i < s.len() implies p.len() <= (#[trigger] s[i]).depth < 256 by {
                if i < below.len() {
                    assert(s[i] == below[i]);
                }
            }
        }
    }
}

/// A proof has fewer steps than the tree has leaves, and their depths go down; it ends at
/// nothing exactly where there are no leaves, and at another leaf only where that is one of
/// the tree's.
pub proof fn law_proofs_are_short(proof: CompressedProof, leaves: Seq<Leaf>, key: [u8; 32])
    requires
        distinct_keys(leaves),
        is_compressed_proof_of(proof, leaf_map(leaves), key),
    ensures
        depths_go_down(proof.steps@, 0),
        leaves.len() == 0 ==> proof.steps@.len() == 0,
        leaves.len() > 0 ==> proof.steps@.len() < leaves.len(),
        proof.terminal is Empty <==> leaves.len() == 0,
        proof.terminal matches Terminal::OtherLeaf { key: other, value_hash } ==> leaves.contains(
            (other, value_hash),
        ),
{
    let m = leaf_map(leaves);
    let e = Seq::<bool>::empty();
    let keys = leaves.map_values(|l: Leaf| l.0);
    lemma_leaf_map_keys(leaves);
    lemma_leaf_map_distinct(leaves);
    keys.lemma_cardinality_of_set();
    vstd::seq_lib::seq_to_set_is_finite(keys);
    assert(m.dom() =~= keys.to_set()) by {
        assert forall|k: [u8; 32]| m.dom().contains(k) == keys.to_set().contains(k) by {
            if m.dom().contains(k) {
                let i = choose|i: int| 0 <= i < leaves.len() && #[trigger] leaves[i].0 == k;
                assert(keys[i] == k);
            }
            if keys.contains(k) {
                let i = choose|i: int| 0 <= i < keys.len() && keys[i] == k;
                assert(leaves[i].0 == k);
            }
        }
    }
    lemma_lookup_is_short(m, e, key);
    assert(keys_under(m, e) =~= m.dom());
    if leaves.len() > 0 {
        assert(m.contains_key(leaves[0].0) && under(leaves[0].0, e));
    }
    if let Terminal::OtherLeaf { key: other, value_hash } = proof.terminal {
        let i = choose|i: int| 0 <= i < leaves.len() && #[trigger] leaves[i].0 == other;
        assert(leaves[i] == (other, value_hash));
    }
}

/// The root does not depend on the order in which the leaves are listed.
pub proof fn law_root_is_order_independent(a: Seq<Leaf>, b: Seq<Leaf>)
    requires
        distinct_keys(a),
        distinct_keys(b),
        forall|leaf: Leaf| #[trigger] a.contains(leaf) <==> b.contains(leaf),
    ensures
        leaf_map(a) == leaf_map(b),
        compressed_root(leaf_map(a)) == compressed_root(leaf_map(b)),
{
    lemma_leaf_map_keys(a);
    lemma_leaf_map_keys(b);
    lemma_leaf_map_distinct(a);
    lemma_leaf_map_distinct(b);
    assert forall|k: [u8; 32]| #[trigger] leaf_map(a).contains_key(k) implies leaf_map(b).contains_key(
        k,
    ) && leaf_map(a)[k] == leaf_map(b)[k] by {
        let i = choose|i: int| 0 <= i < a.len() && #[trigger] a[i].0 == k;
        assert(a.contains(a[i]));
        let j = choose|j: int| 0 <= j < b.len() && b[j] == a[i];
        assert(b[j].0 == k);
    }
    assert forall|k: [u8; 32]| #[trigger] leaf_map(b).contains_key(k) implies leaf_map(a).contains_key(
        k,
    ) by {
        let j = choose|j: int| 0 <= j < b.len() && #[trigger] b[j].0 == k;
        assert(b.contains(b[j]));
        assert(a.contains(b[j]));
        let i = choose|i: int| 0 <= i < a.len() && a[i] == b[j];
        assert(a[i].0 == k);
    }
    assert(leaf_map(a) =~= leaf_map(b));
}

} // verus!
