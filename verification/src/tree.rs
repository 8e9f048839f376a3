//! A sparse Merkle tree over 256-bit addresses: every address has a leaf at depth
//! 256, and an address without an account has the empty leaf.
use crate::bits::{
    agree, bit, bit_at, lemma_bits_determine_key, lemma_full_prefix_unique, lemma_prefix_push,
    lemma_under_prefix_of, lemma_under_push, prefix_of, under, KEY_BITS,
};
use crate::hash::{
    collide, copy_digests, digests_equal, hash_tagged_pair, lemma_tagged_pair_injective, sha3_256,
    sha3_256_digest,
};
use crate::leaves::{
    all_under, is_side, leaf_map, leaf_map_of, lemma_leaf_map_distinct,
    lemma_leaf_map_keys, lemma_side_under, partition, same_at, Leaf,
};
use crate::pubkey::Pubkey;
use crate::state_account::{encodable, hash_leaf, leaf_hash, StateAccount, StateAccountData};
use crate::store::{lists, StateStore};
use vstd::prelude::*;

verus! {

/// The hash of a node with two children: their hashes behind a one byte.
pub open spec fn internal_hash(left: [u8; 32], right: [u8; 32]) -> [u8; 32] {
    sha3_256(seq![1u8] + left@ + right@)
}

/// The hash of an empty subtree of `height` levels.
pub open spec fn empty_hash(height: nat) -> [u8; 32]
    decreases height,
{
    if height == 0 {
        sha3_256(seq![0u8])
    } else {
        internal_hash(empty_hash((height - 1) as nat), empty_hash((height - 1) as nat))
    }
}

/// The leaf at the full-length position `p`: what `m` holds there, or the empty leaf.
pub open spec fn leaf_at(m: Map<[u8; 32], [u8; 32]>, p: Seq<bool>) -> [u8; 32] {
    if exists|k: [u8; 32]| #[trigger] m.contains_key(k) && under(k, p) {
        m[choose|k: [u8; 32]| #[trigger] m.contains_key(k) && under(k, p)]
    } else {
        empty_hash(0)
    }
}

/// The hash at the position `p` of the tree whose leaves are `m`.
pub open spec fn subtree(m: Map<[u8; 32], [u8; 32]>, p: Seq<bool>) -> [u8; 32]
    decreases 256 - p.len(),
{
    if p.len() >= 256 {
        leaf_at(m, p)
    } else {
        internal_hash(subtree(m, p.push(false)), subtree(m, p.push(true)))
    }
}

/// The root of the tree whose leaves are `m`.
pub open spec fn root_of(m: Map<[u8; 32], [u8; 32]>) -> [u8; 32] {
    subtree(m, Seq::empty())
}

/// The leaf of `key` in `m`.
pub open spec fn leaf_of(m: Map<[u8; 32], [u8; 32]>, key: [u8; 32]) -> [u8; 32] {
    if m.contains_key(key) {
        m[key]
    } else {
        empty_hash(0)
    }
}

/// Where the path to `key` does not turn at `depth`.
pub open spec fn sibling_prefix(key: [u8; 32], depth: int) -> Seq<bool> {
    prefix_of(key, depth).push(!bit(key, depth))
}

/// The hashes beside the path to `key`, from the leaf up to just below `depth`.
pub open spec fn sibling_path(
    m: Map<[u8; 32], [u8; 32]>,
    key: [u8; 32],
    depth: int,
) -> Seq<[u8; 32]> {
    Seq::new((256 - depth) as nat, |i: int| subtree(m, sibling_prefix(key, 255 - i)))
}

/// The leaves that a store commits to.
pub open spec fn leaves_of(
    contents: Map<[u8; 32], StateAccountData>,
) -> Map<[u8; 32], [u8; 32]> {
    contents.map_values(|a: StateAccountData| leaf_hash(a))
}

/// Every account can be written.
pub open spec fn all_encodable(contents: Map<[u8; 32], StateAccountData>) -> bool {
    forall|k: [u8; 32]| #[trigger] contents.contains_key(k) ==> encodable(contents[k])
}

/// A proof that a key has a given leaf, or the empty one.
#[derive(Debug, PartialEq, Eq)]
pub struct MerkleProof {
    pub key: [u8; 32],
    /// `None` where the key has the empty leaf.
    pub leaf_value_hash: Option<[u8; 32]>,
    /// The hashes beside the path, leaf first.
    pub siblings: Vec<[u8; 32]>,
}

impl Clone for MerkleProof {
    fn clone(&self) -> (copy: Self)
        ensures
            copy.key == self.key,
            copy.leaf_value_hash == self.leaf_value_hash,
            copy.siblings@ == self.siblings@,
    {
        MerkleProof {
            key: self.key,
            leaf_value_hash: self.leaf_value_hash,
            siblings: copy_digests(&self.siblings),
        }
    }
}

/// `proof` is the proof for `key` in the tree whose leaves are `m`.
pub open spec fn is_proof_of(
    proof: MerkleProof,
    m: Map<[u8; 32], [u8; 32]>,
    key: [u8; 32],
) -> bool {
    &&& proof.key == key
    &&& proof.leaf_value_hash == (if leaf_of(m, key) == empty_hash(0) {
        None
    } else {
        Some(leaf_of(m, key))
    })
    &&& proof.siblings@ == sibling_path(m, key, 0)
}

/// The hash reached from `leaf` through `siblings`, leaf first, along `key`.
pub open spec fn fold_path(key: [u8; 32], leaf: [u8; 32], siblings: Seq<[u8; 32]>) -> [u8; 32]
    decreases siblings.len(),
{
    if siblings.len() == 0 {
        leaf
    } else {
        let below = fold_path(key, leaf, siblings.drop_last());
        if bit(key, 256 - siblings.len()) {
            internal_hash(siblings.last(), below)
        } else {
            internal_hash(below, siblings.last())
        }
    }
}

/// The leaf that a proof claims.
pub open spec fn claimed_leaf(proof: MerkleProof, empty_leaf: [u8; 32]) -> [u8; 32] {
    match proof.leaf_value_hash {
        Some(h) => h,
        None => empty_leaf,
    }
}

/// A proof holds against `root`.
pub open spec fn proof_holds(root: [u8; 32], proof: MerkleProof, empty_leaf: [u8; 32]) -> bool {
    &&& proof.siblings@.len() == 256
    &&& fold_path(proof.key, claimed_leaf(proof, empty_leaf), proof.siblings@) == root
}

/// At a full-length position stands the leaf of the one key that lies there.
pub proof fn lemma_leaf_at(m: Map<[u8; 32], [u8; 32]>, key: [u8; 32])
    ensures
        leaf_at(m, prefix_of(key, 256)) == leaf_of(m, key),
        subtree(m, prefix_of(key, 256)) == leaf_of(m, key),
{
    let p = prefix_of(key, 256);
    lemma_under_prefix_of(key, key, 256);
    assert(agree(key, key, 256));
    assert forall|k: [u8; 32]| #[trigger] m.contains_key(k) && under(k, p) implies k == key by {
        lemma_full_prefix_unique(k, key, p);
    }
}

/// The hash at `p` depends only on the leaves under `p`.
pub proof fn lemma_subtree_local(
    m1: Map<[u8; 32], [u8; 32]>,
    m2: Map<[u8; 32], [u8; 32]>,
    p: Seq<bool>,
)
    requires
        p.len() <= 256,
        forall|k: [u8; 32]| #[trigger] under(k, p) ==> same_at(m1, m2, k),
    ensures
        subtree(m1, p) == subtree(m2, p),
    decreases 256 - p.len(),
{
    if p.len() == 256 {
        assert forall|k: [u8; 32]| #[trigger] m1.contains_key(k) && under(k, p) implies m2.contains_key(
            k,
        ) by {
            assert(same_at(m1, m2, k));
        }
        assert forall|k: [u8; 32]| #[trigger] m2.contains_key(k) && under(k, p) implies m1.contains_key(
            k,
        ) by {
            assert(same_at(m1, m2, k));
        }
        if exists|k: [u8; 32]| #[trigger] m1.contains_key(k) && under(k, p) {
            let k1 = choose|k: [u8; 32]| #[trigger] m1.contains_key(k) && under(k, p);
            assert(m2.contains_key(k1));
            let k2 = choose|k: [u8; 32]| #[trigger] m2.contains_key(k) && under(k, p);
            lemma_full_prefix_unique(k1, k2, p);
            assert(same_at(m1, m2, k1));
        }
    } else {
        assert forall|k: [u8; 32]| #[trigger] under(k, p.push(false)) implies same_at(m1, m2, k) by {
            lemma_under_push(k, p, false);
            assert(under(k, p));
        }
        assert forall|k: [u8; 32]| #[trigger] under(k, p.push(true)) implies same_at(m1, m2, k) by {
            lemma_under_push(k, p, true);
            assert(under(k, p));
        }
        lemma_subtree_local(m1, m2, p.push(false));
        lemma_subtree_local(m1, m2, p.push(true));
    }
}

/// A position with no leaf under it has the hash of the empty subtree.
pub proof fn lemma_subtree_empty(m: Map<[u8; 32], [u8; 32]>, p: Seq<bool>)
    requires
        p.len() <= 256,
        forall|k: [u8; 32]| #[trigger] m.contains_key(k) ==> !under(k, p),
    ensures
        subtree(m, p) == empty_hash((256 - p.len()) as nat),
    decreases 256 - p.len(),
{
    if p.len() < 256 {
        assert forall|k: [u8; 32]| #[trigger] m.contains_key(k) implies !under(k, p.push(false))
            && !under(k, p.push(true)) by {
            lemma_under_push(k, p, false);
            lemma_under_push(k, p, true);
        }
        lemma_subtree_empty(m, p.push(false));
        lemma_subtree_empty(m, p.push(true));
    }
}

/// Folding the leaf of a key through the siblings of its path gives the hash at the
/// top of that path.
pub proof fn lemma_fold_siblings(m: Map<[u8; 32], [u8; 32]>, key: [u8; 32], depth: int)
    requires
        0 <= depth <= 256,
    ensures
        fold_path(key, leaf_of(m, key), sibling_path(m, key, depth)) == subtree(
            m,
            prefix_of(key, depth),
        ),
    decreases 256 - depth,
{
    if depth == 256 {
        lemma_leaf_at(m, key);
    } else {
        let s = sibling_path(m, key, depth);
        assert(s.drop_last() =~= sibling_path(m, key, depth + 1));
        lemma_fold_siblings(m, key, depth + 1);
        lemma_prefix_push(key, depth);
    }
}

/// A proof holds against the root of the tree that it was made from, whether the
/// key has an account or not.
pub proof fn law_proofs_hold(proof: MerkleProof, m: Map<[u8; 32], [u8; 32]>, key: [u8; 32])
    requires
        is_proof_of(proof, m, key),
    ensures
        proof_holds(root_of(m), proof, empty_hash(0)),
{
    lemma_fold_siblings(m, key, 0);
    assert(prefix_of(key, 0) =~= Seq::<bool>::empty());
}

/// What is hashed one level up the path to `key`: the hash from below and the one beside it.
pub open spec fn level_input(
    key: [u8; 32],
    depth: int,
    below: [u8; 32],
    sibling: [u8; 32],
) -> Seq<u8> {
    if bit(key, depth) {
        seq![1u8] + sibling@ + below@
    } else {
        seq![1u8] + below@ + sibling@
    }
}

/// On some level of the path, what is hashed on the way up from `leaf` and what is hashed
/// there in the tree of `m` collide.
pub open spec fn path_collides(
    m: Map<[u8; 32], [u8; 32]>,
    key: [u8; 32],
    leaf: [u8; 32],
    siblings: Seq<[u8; 32]>,
) -> bool
    decreases siblings.len(),
{
    if siblings.len() == 0 {
        false
    } else {
        let depth = 256 - siblings.len();
        let below = fold_path(key, leaf, siblings.drop_last());
        let p = prefix_of(key, depth);
        ||| collide(
            level_input(key, depth, below, siblings.last()),
            seq![1u8] + subtree(m, p.push(false))@ + subtree(m, p.push(true))@,
        )
        ||| path_collides(m, key, leaf, siblings.drop_last())
    }
}

proof fn lemma_fold_binding(
    m: Map<[u8; 32], [u8; 32]>,
    key: [u8; 32],
    leaf: [u8; 32],
    siblings: Seq<[u8; 32]>,
)
    requires
        siblings.len() <= 256,
        fold_path(key, leaf, siblings) == subtree(m, prefix_of(key, 256 - siblings.len())),
    ensures
        leaf == leaf_of(m, key) || path_collides(m, key, leaf, siblings),
    decreases siblings.len(),
{
    let depth = 256 - siblings.len();
    if siblings.len() == 0 {
        lemma_leaf_at(m, key);
    } else {
        let below = fold_path(key, leaf, siblings.drop_last());
        lemma_prefix_push(key, depth);
        let p = prefix_of(key, depth);
        let l = subtree(m, p.push(false));
        let r = subtree(m, p.push(true));
        let (a, b) = if bit(key, depth) {
            (siblings.last(), below)
        } else {
            (below, siblings.last())
        };
        let x = seq![1u8] + a@ + b@;
        let y = seq![1u8] + l@ + r@;
        assert(sha3_256(x) == sha3_256(y));
        if x == y {
            lemma_tagged_pair_injective(1, a, b, 1, l, r);
            lemma_fold_binding(m, key, leaf, siblings.drop_last());
        }
    }
}

/// A proof that holds against the root of a tree claims the leaf that the key has
/// there, unless two byte strings on the path collide.
pub proof fn law_proofs_bind(proof: MerkleProof, m: Map<[u8; 32], [u8; 32]>)
    requires
        proof_holds(root_of(m), proof, empty_hash(0)),
    ensures
        claimed_leaf(proof, empty_hash(0)) == leaf_of(m, proof.key) || path_collides(
            m,
            proof.key,
            claimed_leaf(proof, empty_hash(0)),
            proof.siblings@,
        ),
{
    assert(prefix_of(proof.key, 0) =~= Seq::<bool>::empty());
    lemma_fold_binding(m, proof.key, claimed_leaf(proof, empty_hash(0)), proof.siblings@);
}

/// Two trees with one root have the same leaves, unless two byte strings on the path to a
/// leaf collide.
pub proof fn law_roots_commit(
    m1: Map<[u8; 32], [u8; 32]>,
    m2: Map<[u8; 32], [u8; 32]>,
    key: [u8; 32],
)
    requires
        root_of(m1) == root_of(m2),
    ensures
        leaf_of(m1, key) == leaf_of(m2, key) || path_collides(
            m2,
            key,
            leaf_of(m1, key),
            sibling_path(m1, key, 0),
        ),
{
    assert(prefix_of(key, 0) =~= Seq::<bool>::empty());
    lemma_fold_siblings(m1, key, 0);
    lemma_fold_binding(m2, key, leaf_of(m1, key), sibling_path(m1, key, 0));
}

pub(crate) fn hash_internal(left: &[u8; 32], right: &[u8; 32]) -> (digest: [u8; 32])
    ensures
        digest == internal_hash(*left, *right),
{
    hash_tagged_pair(0x01, left, right)
}

/// `table` holds the hash of the empty subtree of every height up to 256.
pub open spec fn is_empty_table(table: Seq<[u8; 32]>) -> bool {
    &&& table.len() == 257
    &&& forall|h: int| 0 <= h <= 256 ==> #[trigger] table[h] == empty_hash(h as nat)
}

/// The hash of the empty subtree of every height from 0 to 256.
pub fn empty_hashes() -> (table: Vec<[u8; 32]>)
    ensures
        is_empty_table(table@),
{
    let mut table: Vec<[u8; 32]> = Vec::with_capacity(KEY_BITS + 1);
    let mut seed: Vec<u8> = Vec::new();
    seed.push(0x00);
    proof {
        assert(seed@ =~= seq![0u8]);
    }
    table.push(sha3_256_digest(seed.as_slice()));
    let mut d: usize = 1;
    while d <= KEY_BITS
        invariant
            1 <= d <= 257,
            table@.len() == d,
            forall|h: int| 0 <= h < d ==> #[trigger] table@[h] == empty_hash(h as nat),
        decreases 257 - d,
    {
        let prev: [u8; 32] = table[d - 1];
        table.push(hash_internal(&prev, &prev));
        d += 1;
    }
    table
}

fn compute_root(
    leaves: &Vec<Leaf>,
    depth: usize,
    empty: &Vec<[u8; 32]>,
    Ghost(p): Ghost<Seq<bool>>,
) -> (root: [u8; 32])
    requires
        depth <= 256,
        p.len() == depth,
        all_under(leaves@, p),
        is_empty_table(empty@),
    ensures
        root == subtree(leaf_map(leaves@), p),
    decreases 256 - depth,
{
    let ghost m = leaf_map(leaves@);
    if leaves.len() == 0 {
        proof {
            lemma_subtree_empty(m, p);
        }
        return empty[KEY_BITS - depth];
    }
    if depth == KEY_BITS {
        proof {
            lemma_leaf_map_keys(leaves@);
            let key = leaves@[0].0;
            assert(m.contains_key(key) && under(key, p));
            assert forall|k: [u8; 32]| #[trigger] m.contains_key(k) && under(k, p) implies k
                == key by {
                lemma_full_prefix_unique(k, key, p);
            }
        }
        return leaves[0].1;
    }
    let (left, right) = partition(leaves, depth);
    proof {
        lemma_side_under(left@, leaves@, p, false);
        lemma_side_under(right@, leaves@, p, true);
        lemma_sides(left@, right@, leaves@, p);
    }
    let lh: [u8; 32] = compute_root(&left, depth + 1, empty, Ghost(p.push(false)));
    let rh: [u8; 32] = compute_root(&right, depth + 1, empty, Ghost(p.push(true)));
    hash_internal(&lh, &rh)
}

proof fn lemma_sides(left: Seq<Leaf>, right: Seq<Leaf>, leaves: Seq<Leaf>, p: Seq<bool>)
    requires
        p.len() < 256,
        is_side(left, leaves, p.len() as int, false),
        is_side(right, leaves, p.len() as int, true),
    ensures
        subtree(leaf_map(left), p.push(false)) == subtree(leaf_map(leaves), p.push(false)),
        subtree(leaf_map(right), p.push(true)) == subtree(leaf_map(leaves), p.push(true)),
{
    let m = leaf_map(leaves);
    assert forall|k: [u8; 32]| #[trigger] under(k, p.push(false)) implies same_at(
        leaf_map(left),
        m,
        k,
    ) by {
        lemma_under_push(k, p, false);
        assert(same_at(leaf_map(left), leaf_map_of(leaves, k), k));
    }
    assert forall|k: [u8; 32]| #[trigger] under(k, p.push(true)) implies same_at(
        leaf_map(right),
        m,
        k,
    ) by {
        lemma_under_push(k, p, true);
        assert(same_at(leaf_map(right), leaf_map_of(leaves, k), k));
    }
    lemma_subtree_local(leaf_map(left), m, p.push(false));
    lemma_subtree_local(leaf_map(right), m, p.push(true));
}

/// The paths agree where the leaves under the path do.
pub proof fn lemma_siblings_local(
    m1: Map<[u8; 32], [u8; 32]>,
    m2: Map<[u8; 32], [u8; 32]>,
    key: [u8; 32],
    depth: int,
)
    requires
        0 <= depth <= 256,
        forall|k: [u8; 32]| #[trigger] under(k, prefix_of(key, depth)) ==> same_at(m1, m2, k),
    ensures
        sibling_path(m1, key, depth) == sibling_path(m2, key, depth),
        leaf_of(m1, key) == leaf_of(m2, key),
{
    let s1 = sibling_path(m1, key, depth);
    let s2 = sibling_path(m2, key, depth);
    assert forall|i: int| 0 <= i < s1.len() implies s1[i] == s2[i] by {
        let d = 255 - i;
        let q = sibling_prefix(key, d);
        assert forall|k: [u8; 32]| #[trigger] under(k, q) implies same_at(m1, m2, k) by {
            lemma_under_push(k, prefix_of(key, d), !bit(key, d));
            lemma_under_prefix_of(k, key, d);
            lemma_under_prefix_of(k, key, depth);
            assert(under(k, prefix_of(key, depth)));
        }
        lemma_under_prefix_of(key, key, d);
        lemma_subtree_local(m1, m2, q);
    }
    assert(s1 =~= s2);
    lemma_under_prefix_of(key, key, depth);
    assert(agree(key, key, depth));
    assert(under(key, prefix_of(key, depth)));
    assert(same_at(m1, m2, key));
}

fn compute_proof(
    leaves: &Vec<Leaf>,
    depth: usize,
    target: &[u8; 32],
    empty: &Vec<[u8; 32]>,
    siblings: &mut Vec<[u8; 32]>,
) -> (leaf: [u8; 32])
    requires
        depth <= 256,
        all_under(leaves@, prefix_of(*target, depth as int)),
        is_empty_table(empty@),
    ensures
        leaf == leaf_of(leaf_map(leaves@), *target),
        final(siblings)@ == old(siblings)@ + sibling_path(leaf_map(leaves@), *target, depth as int),
    decreases 256 - depth,
{
    let ghost m = leaf_map(leaves@);
    let ghost p = prefix_of(*target, depth as int);
    let ghost before = siblings@;
    proof {
        lemma_under_prefix_of(*target, *target, depth as int);
    }
    if depth == KEY_BITS {
        proof {
            assert(before + sibling_path(m, *target, 256) =~= before);
            lemma_leaf_map_keys(leaves@);
            if leaves@.len() > 0 {
                lemma_under_prefix_of(leaves@[0].0, *target, 256);
                lemma_bits_determine_key(leaves@[0].0, *target);
            }
        }
        if leaves.len() > 0 {
            return leaves[0].1;
        }
        return empty[0];
    }
    let (left, right) = partition(leaves, depth);
    let target_right: bool = bit_at(target, depth);
    proof {
        lemma_side_under(left@, leaves@, p, false);
        lemma_side_under(right@, leaves@, p, true);
        lemma_sides(left@, right@, leaves@, p);
        lemma_prefix_push(*target, depth as int);
        let same = if target_right {
            right@
        } else {
            left@
        };
        assert forall|k: [u8; 32]| #[trigger] under(
            k,
            prefix_of(*target, depth + 1),
        ) implies same_at(leaf_map(same), m, k) by {
            lemma_under_push(k, p, target_right);
            assert(same_at(leaf_map(same), leaf_map_of(leaves@, k), k));
        }
        lemma_siblings_local(leaf_map(same), m, *target, depth + 1);
    }
    let other_hash: [u8; 32] = if target_right {
        compute_root(&left, depth + 1, empty, Ghost(p.push(false)))
    } else {
        compute_root(&right, depth + 1, empty, Ghost(p.push(true)))
    };
    let leaf_hash: [u8; 32] = if target_right {
        compute_proof(&right, depth + 1, target, empty, siblings)
    } else {
        compute_proof(&left, depth + 1, target, empty, siblings)
    };
    siblings.push(other_hash);
    proof {
        assert(siblings@ =~= before + sibling_path(m, *target, depth as int));
    }
    leaf_hash
}

/// Whether a proof holds against `root`.
pub fn verify_proof(root: [u8; 32], proof: &MerkleProof, empty_leaf_hash: [u8; 32]) -> (holds: bool)
    ensures
        holds == proof_holds(root, *proof, empty_leaf_hash),
{
    if proof.siblings.len() != KEY_BITS {
        return false;
    }
    let mut current: [u8; 32] = match proof.leaf_value_hash {
        Some(h) => h,
        None => empty_leaf_hash,
    };
    let ghost leaf = claimed_leaf(*proof, empty_leaf_hash);
    let mut i: usize = 0;
    while i < KEY_BITS
        invariant
            i <= 256,
            proof.siblings@.len() == 256,
            current == fold_path(proof.key, leaf, proof.siblings@.take(i as int)),
        decreases 256 - i,
    {
        let depth: usize = KEY_BITS - 1 - i;
        let sibling: [u8; 32] = proof.siblings[i];
        proof {
            let s = proof.siblings@.take(i + 1);
            assert(s.drop_last() =~= proof.siblings@.take(i as int));
            assert(s.last() == sibling);
        }
        current = if bit_at(&proof.key, depth) {
            hash_internal(&sibling, &current)
        } else {
            hash_internal(&current, &sibling)
        };
        i += 1;
    }
    proof {
        assert(proof.siblings@.take(256) =~= proof.siblings@);
    }
    digests_equal(&current, &root)
}

/// Roots and proofs computed afresh from all the leaves.
pub struct StateTree {
    empty: Vec<[u8; 32]>,
}

/// No address is listed twice, and every account can be written.
pub open spec fn are_entries(entries: Seq<(Pubkey, StateAccount)>) -> bool {
    &&& forall|i: int, j: int|
        0 <= i < j < entries.len() ==> (#[trigger] entries[i]).0.0 != (#[trigger] entries[j]).0.0
    &&& forall|i: int| 0 <= i < entries.len() ==> encodable((#[trigger] entries[i]).1@)
}

/// The accounts that are listed, by their addresses.
pub open spec fn listed(entries: Seq<(Pubkey, StateAccount)>) -> Map<[u8; 32], StateAccountData>
    decreases entries.len(),
{
    if entries.len() == 0 {
        Map::empty()
    } else {
        listed(entries.drop_last()).insert(entries.last().0.0, entries.last().1@)
    }
}

proof fn lemma_listed(entries: Seq<(Pubkey, StateAccount)>)
    requires
        are_entries(entries),
    ensures
        lists(entries, listed(entries)),
    decreases entries.len(),
{
    if entries.len() > 0 {
        let t = entries.drop_last();
        let m = listed(entries);
        assert(are_entries(t));
        lemma_listed(t);
        assert forall|i: int| 0 <= i < entries.len() implies m.contains_key(
            (#[trigger] entries[i]).0.0,
        ) && m[entries[i].0.0] == entries[i].1@ by {
            if i < t.len() {
                assert(t[i] == entries[i]);
                assert(entries[i].0.0 != entries[t.len() as int].0.0);
            }
        }
        assert forall|k: [u8; 32]| #[trigger] m.contains_key(k) implies exists|i: int|
            0 <= i < entries.len() && (#[trigger] entries[i]).0.0 == k by {
            if k == entries.last().0.0 {
                assert(entries[t.len() as int].0.0 == k);
            } else {
                assert(listed(t).contains_key(k));
                let i = choose|i: int| 0 <= i < t.len() && (#[trigger] t[i]).0.0 == k;
                assert(entries[i].0.0 == k);
            }
        }
    }
}

/// A list of all accounts of a store stands for what the store holds.
pub proof fn law_listed_is_what_was_listed(
    entries: Seq<(Pubkey, StateAccount)>,
    contents: Map<[u8; 32], StateAccountData>,
)
    requires
        lists(entries, contents),
        all_encodable(contents),
    ensures
        are_entries(entries),
        listed(entries) == contents,
{
    assert forall|i: int| 0 <= i < entries.len() implies encodable(
        (#[trigger] entries[i]).1@,
    ) by {
        assert(contents.contains_key(entries[i].0.0));
    }
    lemma_listed(entries);
    let m = listed(entries);
    assert forall|k: [u8; 32]| m.contains_key(k) <==> #[trigger] contents.contains_key(k) by {
        if m.contains_key(k) {
            let i = choose|i: int| 0 <= i < entries.len() && (#[trigger] entries[i]).0.0 == k;
            assert(contents.contains_key(entries[i].0.0));
        }
        if contents.contains_key(k) {
            let i = choose|i: int| 0 <= i < entries.len() && (#[trigger] entries[i]).0.0 == k;
            assert(m.contains_key(entries[i].0.0));
        }
    }
    assert forall|k: [u8; 32]| #[trigger] m.contains_key(k) implies m[k] == contents[k] by {
        let i = choose|i: int| 0 <= i < entries.len() && (#[trigger] entries[i]).0.0 == k;
        assert(m[entries[i].0.0] == entries[i].1@);
    }
    assert(m =~= contents);
}

proof fn lemma_listed_leaves(
    entries: Seq<(Pubkey, StateAccount)>,
    leaves: Seq<Leaf>,
    contents: Map<[u8; 32], StateAccountData>,
)
    requires
        lists(entries, contents),
        leaves.len() == entries.len(),
        forall|i: int|
            0 <= i < entries.len() ==> (#[trigger] leaves[i]).0 == entries[i].0.0 && leaves[i].1
                == leaf_hash(entries[i].1@),
    ensures
        leaf_map(leaves) == leaves_of(contents),
{
    assert forall|i: int, j: int| 0 <= i < j < leaves.len() implies #[trigger] leaves[i].0
        != #[trigger] leaves[j].0 by {
        assert(entries[i].0.0 != entries[j].0.0);
    }
    lemma_leaf_map_keys(leaves);
    lemma_leaf_map_distinct(leaves);
    let a = leaf_map(leaves);
    let b = leaves_of(contents);
    assert forall|k: [u8; 32]| #[trigger] a.contains_key(k) implies b.contains_key(k) && a[k]
        == b[k] by {
        let i = choose|i: int| 0 <= i < leaves.len() && #[trigger] leaves[i].0 == k;
        assert(contents.contains_key(entries[i].0.0));
    }
    assert forall|k: [u8; 32]| #[trigger] b.contains_key(k) implies a.contains_key(k) by {
        assert(contents.contains_key(k));
        let i = choose|i: int| 0 <= i < entries.len() && (#[trigger] entries[i]).0.0 == k;
        assert(leaves[i].0 == k);
    }
    assert(a =~= b);
}

impl StateTree {
    /// The table of empty hashes is right.
    pub closed spec fn wf(&self) -> bool {
        is_empty_table(self.empty@)
    }

    /// A tree with its table of empty hashes.
    pub fn new() -> (tree: Self)
        ensures
            tree.wf(),
    {
        StateTree { empty: empty_hashes() }
    }

    /// The hash of the empty leaf.
    pub fn empty_leaf_hash(&self) -> (digest: [u8; 32])
        requires
            self.wf(),
        ensures
            digest == empty_hash(0),
    {
        self.empty[0]
    }

    /// The hash of the tree without accounts.
    pub fn empty_root(&self) -> (digest: [u8; 32])
        requires
            self.wf(),
        ensures
            digest == empty_hash(256),
            digest == root_of(Map::empty()),
    {
        proof {
            lemma_subtree_empty(Map::empty(), Seq::empty());
        }
        self.empty[KEY_BITS]
    }

    fn leaves(&self, entries: &Vec<(Pubkey, StateAccount)>) -> (leaves: Vec<Leaf>)
        requires
            are_entries(entries@),
        ensures
            leaf_map(leaves@) == leaves_of(listed(entries@)),
    {
        proof {
            lemma_listed(entries@);
        }
        let mut leaves: Vec<Leaf> = Vec::new();
        let mut i: usize = 0;
        while i < entries.len()
            invariant
                i <= entries@.len(),
                leaves@.len() == i,
                are_entries(entries@),
                forall|j: int|
                    0 <= j < i ==> (#[trigger] leaves@[j]).0 == entries@[j].0.0 && leaves@[j].1
                        == leaf_hash(entries@[j].1@),
            decreases entries@.len() - i,
        {
            leaves.push((entries[i].0.to_bytes(), hash_leaf(&entries[i].1)));
            i += 1;
        }
        proof {
            lemma_listed_leaves(entries@, leaves@, listed(entries@));
        }
        leaves
    }

    /// The root over what `store` holds.
    pub fn root<S: StateStore>(&self, store: &S) -> (root: [u8; 32])
        requires
            self.wf(),
            store.wf(),
            all_encodable(store.contents()),
        ensures
            root == root_of(leaves_of(store.contents())),
    {
        let entries = store.iter();
        proof {
            law_listed_is_what_was_listed(entries@, store.contents());
        }
        self.root_of_entries(&entries)
    }

    /// The root over accounts that were listed, each with its address.
    pub fn root_of_entries(&self, entries: &Vec<(Pubkey, StateAccount)>) -> (root: [u8; 32])
        requires
            self.wf(),
            are_entries(entries@),
        ensures
            root == root_of(leaves_of(listed(entries@))),
    {
        let leaves = self.leaves(entries);
        compute_root(&leaves, 0, &self.empty, Ghost(Seq::empty()))
    }

    /// The proof for `key` over what `store` holds.
    pub fn prove<S: StateStore>(&self, store: &S, key: &Pubkey) -> (proof: MerkleProof)
        requires
            self.wf(),
            store.wf(),
            all_encodable(store.contents()),
        ensures
            is_proof_of(proof, leaves_of(store.contents()), key.0),
    {
        let entries = store.iter();
        proof {
            law_listed_is_what_was_listed(entries@, store.contents());
        }
        self.prove_entries(&entries, key)
    }

    /// The proof for `key` over accounts that were listed, each with its address.
    pub fn prove_entries(&self, entries: &Vec<(Pubkey, StateAccount)>, key: &Pubkey) -> (proof:
        MerkleProof)
        requires
            self.wf(),
            are_entries(entries@),
        ensures
            is_proof_of(proof, leaves_of(listed(entries@)), key.0),
    {
        let leaves = self.leaves(entries);
        let target: [u8; 32] = key.to_bytes();
        let mut siblings: Vec<[u8; 32]> = Vec::with_capacity(KEY_BITS);
        proof {
            lemma_under_prefix_of(target, target, 0);
        }
        let leaf: [u8; 32] = compute_proof(&leaves, 0, &target, &self.empty, &mut siblings);
        proof {
            assert(siblings@ =~= sibling_path(leaf_map(leaves@), target, 0));
        }
        let leaf_value_hash = if digests_equal(&leaf, &self.empty[0]) {
            None
        } else {
            Some(leaf)
        };
        MerkleProof { key: target, leaf_value_hash, siblings }
    }
}

impl Default for StateTree {
    fn default() -> (tree: Self)
        ensures
            tree.wf(),
    {
        StateTree::new()
    }
}

} // verus!
