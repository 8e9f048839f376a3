//! The same tree kept up to date: the hash of every subtree that holds a leaf is
//! cached, and a write refreshes only the hashes on its path.
use crate::bits::{
    agree, bit, bit_at, lemma_bits_determine_key, lemma_prefix_agree, lemma_prefix_push,
    lemma_under_prefix_of, lemma_under_push, lemma_zero_from_unique, mask_prefix, prefix_of,
    prefix_with_bit, under, zero_from, KEY_BITS,
};
use crate::hash::digests_equal;
use crate::keymap::KeyMap;
use crate::leaves::{
    all_under, distinct_keys, is_side, leaf_map, leaf_map_of, lemma_leaf_map_keys, lemma_side_under, partition, same_at, Leaf,
};
use crate::pubkey::Pubkey;
use crate::state_account::{encodable, hash_leaf, leaf_hash, StateAccount, StateAccountData};
use crate::tree::{
    empty_hash, empty_hashes, hash_internal, is_empty_table, is_proof_of, leaf_of, leaves_of,
    lemma_leaf_at, lemma_siblings_local, lemma_subtree_empty, lemma_subtree_local, root_of,
    sibling_path, subtree, MerkleProof,
};
use vstd::prelude::*;

verus! {

/// A tree that holds the hash of each subtree with a leaf in it, by depth and by the
/// subtree's first bits.
pub struct IncrementalStateTree {
    empty: Vec<[u8; 32]>,
    cache: Vec<KeyMap<[u8; 32]>>,
}

/// `m` with the changes `c` laid over it.
pub open spec fn overlay(
    m: Map<[u8; 32], [u8; 32]>,
    c: Map<[u8; 32], [u8; 32]>,
) -> Map<[u8; 32], [u8; 32]> {
    m.union_prefer_right(c)
}

/// The leaves of a list of changed accounts.
pub open spec fn change_leaves(changes: Seq<(Pubkey, StateAccount)>) -> Seq<Leaf> {
    changes.map_values(|c: (Pubkey, StateAccount)| (c.0.0, leaf_hash(c.1@)))
}

/// Every changed account can be written.
pub open spec fn changes_encodable(changes: Seq<(Pubkey, StateAccount)>) -> bool {
    forall|i: int| 0 <= i < changes.len() ==> encodable((#[trigger] changes[i]).1@)
}

pub(crate) fn hash_changes(changes: &Vec<(Pubkey, StateAccount)>) -> (leaves: Vec<Leaf>)
    requires
        changes_encodable(changes@),
    ensures
        leaves@ == change_leaves(changes@),
{
    let mut leaves: Vec<Leaf> = Vec::new();
    let mut i: usize = 0;
    while i < changes.len()
        invariant
            i <= changes@.len(),
            changes_encodable(changes@),
            leaves@ == change_leaves(changes@).take(i as int),
        decreases changes@.len() - i,
    {
        leaves.push((changes[i].0.to_bytes(), hash_leaf(&changes[i].1)));
        proof {
            assert(leaves@ =~= change_leaves(changes@).take(i + 1));
        }
        i += 1;
    }
    proof {
        assert(change_leaves(changes@).take(i as int) =~= change_leaves(changes@));
    }
    leaves
}

impl IncrementalStateTree {
    /// The cached hash of a subtree, or that of the empty one.
    closed spec fn lookup(&self, depth: int, x: [u8; 32]) -> [u8; 32] {
        if self.cache@[depth]@.contains_key(x) {
            self.cache@[depth]@[x]
        } else {
            empty_hash((256 - depth) as nat)
        }
    }

    /// The leaves that were noted.
    pub closed spec fn leaves(&self) -> Map<[u8; 32], [u8; 32]> {
        self.cache@[256]@
    }

    /// The cache gives every subtree its hash.
    pub closed spec fn wf(&self) -> bool {
        &&& is_empty_table(self.empty@)
        &&& self.cache@.len() == 257
        &&& forall|d: int| 0 <= d <= 256 ==> (#[trigger] self.cache@[d]).wf()
        &&& forall|d: int, x: [u8; 32]|
            0 <= d <= 256 && zero_from(x, d) ==> #[trigger] self.lookup(d, x) == subtree(
                self.leaves(),
                prefix_of(x, d),
            )
    }

    /// A tree without leaves.
    pub fn new() -> (tree: Self)
        ensures
            tree.wf(),
            tree.leaves() == Map::<[u8; 32], [u8; 32]>::empty(),
    {
        let mut cache: Vec<KeyMap<[u8; 32]>> = Vec::with_capacity(KEY_BITS + 1);
        let mut i: usize = 0;
        while i < KEY_BITS + 1
            invariant
                i <= 257,
                cache@.len() == i,
                forall|d: int| 0 <= d < i ==> (#[trigger] cache@[d]).wf() && cache@[d]@ == Map::<
                    [u8; 32],
                    [u8; 32],
                >::empty(),
            decreases 257 - i,
        {
            cache.push(KeyMap::new());
            i += 1;
        }
        let tree = IncrementalStateTree { empty: empty_hashes(), cache };
        proof {
            assert forall|d: int, x: [u8; 32]| 0 <= d <= 256 && zero_from(x, d) implies (
            #[trigger] tree.lookup(d, x)) == subtree(tree.leaves(), prefix_of(x, d)) by {
                assert(tree.cache@[d]@ == Map::<[u8; 32], [u8; 32]>::empty());
                lemma_under_prefix_of(x, x, d);
                lemma_subtree_empty(tree.leaves(), prefix_of(x, d));
            }
        }
        tree
    }

    /// The hash of the empty leaf.
    pub fn empty_leaf_hash(&self) -> (digest: [u8; 32])
        requires
            self.wf(),
        ensures
            digest == empty_hash(0),
    {
        self.empty[0]
    }

    fn cached_or_empty(&self, depth: usize, prefix: [u8; 32]) -> (digest: [u8; 32])
        requires
            is_empty_table(self.empty@),
            self.cache@.len() == 257,
            depth <= 256,
            self.cache@[depth as int].wf(),
        ensures
            digest == self.lookup(depth as int, prefix),
    {
        match self.cache[depth].get(&prefix) {
            Some(h) => *h,
            None => self.empty[KEY_BITS - depth],
        }
    }

    /// A second tree with the same leaves.
    pub fn duplicate(&self) -> (copy: Self)
        requires
            self.wf(),
        ensures
            copy.wf(),
            copy.leaves() == self.leaves(),
    {
        let mut cache: Vec<KeyMap<[u8; 32]>> = Vec::with_capacity(KEY_BITS + 1);
        let mut i: usize = 0;
        while i < KEY_BITS + 1
            invariant
                i <= 257,
                self.wf(),
                cache@.len() == i,
                forall|d: int| 0 <= d < i ==> (#[trigger] cache@[d]).wf() && cache@[d]@
                    == self.cache@[d]@,
            decreases 257 - i,
        {
            cache.push(self.cache[i].duplicate());
            i += 1;
        }
        let tree = IncrementalStateTree { empty: empty_hashes(), cache };
        proof {
            assert forall|d: int, x: [u8; 32]| 0 <= d <= 256 && zero_from(x, d) implies (
            #[trigger] tree.lookup(d, x)) == subtree(tree.leaves(), prefix_of(x, d)) by {
                assert(tree.lookup(d, x) == self.lookup(d, x));
            }
        }
        tree
    }

    /// Notes that `account` now stands under `key`.
    pub fn note_set(&mut self, key: &Pubkey, account: &StateAccount)
        requires
            old(self).wf(),
            encodable(account@),
        ensures
            final(self).wf(),
            final(self).leaves() == old(self).leaves().insert(key.0, leaf_hash(account@)),
    {
        let full_key: [u8; 32] = key.to_bytes();
        let ghost m = self.leaves();
        let mut current: [u8; 32] = hash_leaf(account);
        let ghost m2 = m.insert(full_key, current);
        let ghost before = *self;
        self.cache[KEY_BITS].insert(full_key, current);
        let mut depth: usize = KEY_BITS;
        proof {
            assert(self.leaves() =~= m2);
            lemma_leaf_at(m2, full_key);
            assert forall|d: int| 0 <= d < 256 implies self.cache@[d] == before.cache@[d] by {}
            assert forall|x: [u8; 32]| #[trigger] self.lookup(256, x) == subtree(
                m2,
                prefix_of(x, 256),
            ) by {
                lemma_leaf_at(m2, x);
            }
        }
        while depth > 0
            invariant
                depth <= 256,
                full_key == key.0,
                before.wf(),
                m == before.leaves(),
                m2 == m.insert(full_key, m2[full_key]),
                is_empty_table(self.empty@),
                self.cache@.len() == 257,
                forall|d: int| 0 <= d <= 256 ==> (#[trigger] self.cache@[d]).wf(),
                forall|d: int| 0 <= d < depth ==> #[trigger] self.cache@[d] == before.cache@[d],
                self.leaves() == m2,
                current == subtree(m2, prefix_of(full_key, depth as int)),
                forall|d: int, x: [u8; 32]|
                    depth <= d <= 256 && zero_from(x, d) ==> #[trigger] self.lookup(d, x) == subtree(
                        m2,
                        prefix_of(x, d),
                    ),
            decreases depth,
        {
            depth -= 1;
            let turn: bool = bit_at(&full_key, depth);
            let beside: [u8; 32] = prefix_with_bit(&full_key, depth, !turn);
            let sibling: [u8; 32] = self.cached_or_empty(depth + 1, beside);
            proof {
                lemma_prefix_push(full_key, depth as int);
                lemma_prefix_push(beside, depth as int);
                lemma_prefix_agree(beside, full_key, depth as int);
                assert(self.lookup(depth + 1, beside) == subtree(m2, prefix_of(beside, depth + 1)));
            }
            current = if turn {
                hash_internal(&sibling, &current)
            } else {
                hash_internal(&current, &sibling)
            };
            let at: [u8; 32] = mask_prefix(&full_key, depth);
            let ghost mid = *self;
            self.cache[depth].insert(at, current);
            proof {
                assert forall|d: int| 0 <= d <= 256 && d != depth implies (#[trigger] self.cache@[d])
                    == mid.cache@[d] by {}
                assert forall|d: int, x: [u8; 32]|
                    depth <= d <= 256 && zero_from(x, d) implies (#[trigger] self.lookup(d, x))
                    == subtree(m2, prefix_of(x, d)) by {
                    if d == depth {
                        if x == at {
                            lemma_prefix_agree(at, full_key, d);
                        } else {
                            if agree(x, full_key, d) {
                                assert(agree(x, at, d));
                                lemma_zero_from_unique(x, at, d);
                            }
                            lemma_under_prefix_of(x, x, d);
                            assert forall|k: [u8; 32]| #[trigger]
                                under(k, prefix_of(x, d)) implies same_at(m, m2, k) by {
                                lemma_under_prefix_of(k, x, d);
                                if k == full_key {
                                    assert(agree(x, full_key, d)) by {
                                        assert forall|i: int| 0 <= i < d implies #[trigger] bit(x, i)
                                            == bit(full_key, i) by {
                                            assert(bit(k, i) == bit(x, i));
                                        }
                                    }
                                }
                            }
                            lemma_subtree_local(m, m2, prefix_of(x, d));
                            assert(before.lookup(d, x) == subtree(m, prefix_of(x, d)));
                            assert(self.lookup(d, x) == before.lookup(d, x));
                        }
                    } else {
                        assert(mid.lookup(d, x) == subtree(m2, prefix_of(x, d)));
                        assert(self.lookup(d, x) == mid.lookup(d, x));
                    }
                }
            }
        }
    }

    /// The root.
    pub fn root(&self) -> (root: [u8; 32])
        requires
            self.wf(),
        ensures
            root == root_of(self.leaves()),
    {
        let top: [u8; 32] = [0u8; 32];
        proof {
            lemma_zero_key(top);
            assert(self.lookup(0, top) == subtree(self.leaves(), prefix_of(top, 0)));
            assert(prefix_of(top, 0) =~= Seq::<bool>::empty());
        }
        self.cached_or_empty(0, top)
    }

    /// The proof for `key`.
    pub fn prove(&self, key: &Pubkey) -> (proof: MerkleProof)
        requires
            self.wf(),
        ensures
            is_proof_of(proof, self.leaves(), key.0),
    {
        let target: [u8; 32] = key.to_bytes();
        let mut siblings: Vec<[u8; 32]> = Vec::with_capacity(KEY_BITS);
        let mut depth: usize = KEY_BITS;
        while depth > 0
            invariant
                depth <= 256,
                self.wf(),
                siblings@ == sibling_path(self.leaves(), target, depth as int),
            decreases depth,
        {
            depth -= 1;
            let turn: bool = bit_at(&target, depth);
            let beside: [u8; 32] = prefix_with_bit(&target, depth, !turn);
            siblings.push(self.cached_or_empty(depth + 1, beside));
            proof {
                lemma_prefix_push(beside, depth as int);
                lemma_prefix_agree(beside, target, depth as int);
                assert(self.lookup(depth + 1, beside) == subtree(
                    self.leaves(),
                    prefix_of(beside, depth + 1),
                ));
                assert(siblings@ =~= sibling_path(self.leaves(), target, depth as int));
            }
        }
        let leaf: [u8; 32] = match self.cache[KEY_BITS].get(&target) {
            Some(h) => *h,
            None => self.empty[0],
        };
        let leaf_value_hash = if digests_equal(&leaf, &self.empty[0]) {
            None
        } else {
            Some(leaf)
        };
        MerkleProof { key: target, leaf_value_hash, siblings }
    }

    /// The root that the tree would have with `changes` applied; of two changes of
    /// one account the first counts. The tree stays as it is.
    pub fn root_with_pending(&self, changes: &Vec<(Pubkey, StateAccount)>) -> (root: [u8; 32])
        requires
            self.wf(),
            changes_encodable(changes@),
        ensures
            root == root_of(overlay(self.leaves(), leaf_map(change_leaves(changes@)))),
    {
        let leaves = hash_changes(changes);
        let top: [u8; 32] = [0u8; 32];
        proof {
            lemma_zero_key(top);
            assert(prefix_of(top, 0) =~= Seq::<bool>::empty());
        }
        self.pending_root(0, top, &leaves)
    }

    /// The proof that the tree would give for `key` with `changes` applied.
    pub fn prove_with_pending(&self, key: &Pubkey, changes: &Vec<(Pubkey, StateAccount)>) -> (proof:
        MerkleProof)
        requires
            self.wf(),
            changes_encodable(changes@),
        ensures
            is_proof_of(proof, overlay(self.leaves(), leaf_map(change_leaves(changes@))), key.0),
    {
        let leaves = hash_changes(changes);
        let target: [u8; 32] = key.to_bytes();
        let mut siblings: Vec<[u8; 32]> = Vec::with_capacity(KEY_BITS);
        let top: [u8; 32] = [0u8; 32];
        proof {
            lemma_zero_key(top);
            assert(prefix_of(top, 0) =~= Seq::<bool>::empty());
        }
        let leaf: [u8; 32] = self.pending_proof(0, top, &target, &leaves, &mut siblings);
        proof {
            let m = overlay(self.leaves(), leaf_map(leaves@));
            assert(siblings@ =~= sibling_path(m, target, 0));
        }
        let leaf_value_hash = if digests_equal(&leaf, &self.empty[0]) {
            None
        } else {
            Some(leaf)
        };
        MerkleProof { key: target, leaf_value_hash, siblings }
    }

    fn pending_root(&self, depth: usize, prefix: [u8; 32], leaves: &Vec<Leaf>) -> (root: [u8; 32])
        requires
            self.wf(),
            depth <= 256,
            zero_from(prefix, depth as int),
            all_under(leaves@, prefix_of(prefix, depth as int)),
        ensures
            root == subtree(
                overlay(self.leaves(), leaf_map(leaves@)),
                prefix_of(prefix, depth as int),
            ),
        decreases 256 - depth,
    {
        let ghost m = overlay(self.leaves(), leaf_map(leaves@));
        let ghost p = prefix_of(prefix, depth as int);
        if leaves.len() == 0 {
            proof {
                assert(m =~= self.leaves());
                assert(self.lookup(depth as int, prefix) == subtree(self.leaves(), p));
            }
            return self.cached_or_empty(depth, prefix);
        }
        if depth == KEY_BITS {
            proof {
                lemma_leaf_map_keys(leaves@);
                let key = leaves@[0].0;
                assert(under(key, p));
                lemma_under_prefix_of(key, prefix, 256);
                lemma_prefix_agree(key, prefix, 256);
                lemma_leaf_at(m, key);
            }
            return leaves[0].1;
        }
        let (left, right) = partition(leaves, depth);
        let right_prefix: [u8; 32] = prefix_with_bit(&prefix, depth, true);
        proof {
            lemma_under_prefix_of(prefix, prefix, depth as int);
            lemma_side_under(left@, leaves@, p, false);
            lemma_side_under(right@, leaves@, p, true);
            lemma_prefix_push(prefix, depth as int);
            lemma_prefix_push(right_prefix, depth as int);
            lemma_prefix_agree(right_prefix, prefix, depth as int);
            lemma_pending_sides(self.leaves(), left@, right@, leaves@, p);
        }
        let lh: [u8; 32] = self.pending_root(depth + 1, prefix, &left);
        let rh: [u8; 32] = self.pending_root(depth + 1, right_prefix, &right);
        hash_internal(&lh, &rh)
    }

    fn pending_proof(
        &self,
        depth: usize,
        prefix: [u8; 32],
        target: &[u8; 32],
        leaves: &Vec<Leaf>,
        siblings: &mut Vec<[u8; 32]>,
    ) -> (leaf: [u8; 32])
        requires
            self.wf(),
            depth <= 256,
            zero_from(prefix, depth as int),
            agree(prefix, *target, depth as int),
            all_under(leaves@, prefix_of(prefix, depth as int)),
        ensures
            leaf == leaf_of(overlay(self.leaves(), leaf_map(leaves@)), *target),
            final(siblings)@ == old(siblings)@ + sibling_path(
                overlay(self.leaves(), leaf_map(leaves@)),
                *target,
                depth as int,
            ),
        decreases 256 - depth,
    {
        let ghost m = overlay(self.leaves(), leaf_map(leaves@));
        let ghost p = prefix_of(prefix, depth as int);
        let ghost before = siblings@;
        proof {
            lemma_prefix_agree(prefix, *target, depth as int);
            lemma_under_prefix_of(prefix, prefix, depth as int);
        }
        if depth == KEY_BITS {
            proof {
                lemma_bits_determine_key(prefix, *target);
                assert(before + sibling_path(m, *target, 256) =~= before);
                lemma_leaf_map_keys(leaves@);
                if leaves@.len() > 0 {
                    lemma_under_prefix_of(leaves@[0].0, *target, 256);
                    lemma_bits_determine_key(leaves@[0].0, *target);
                }
            }
            if leaves.len() > 0 {
                return leaves[0].1;
            }
            return self.cached_or_empty(depth, prefix);
        }
        let (left, right) = partition(leaves, depth);
        let target_right: bool = bit_at(target, depth);
        let other_prefix: [u8; 32] = prefix_with_bit(&prefix, depth, !target_right);
        let same_prefix: [u8; 32] = prefix_with_bit(&prefix, depth, target_right);
        proof {
            lemma_side_under(left@, leaves@, p, false);
            lemma_side_under(right@, leaves@, p, true);
            lemma_prefix_push(other_prefix, depth as int);
            lemma_prefix_push(same_prefix, depth as int);
            lemma_prefix_push(*target, depth as int);
            lemma_prefix_agree(other_prefix, prefix, depth as int);
            lemma_prefix_agree(same_prefix, prefix, depth as int);
            lemma_pending_sides(self.leaves(), left@, right@, leaves@, p);
            assert(agree(same_prefix, *target, depth + 1)) by {
                assert forall|i: int| 0 <= i < depth + 1 implies #[trigger] bit(same_prefix, i) == bit(
                    *target,
                    i,
                ) by {
                    if i < depth {
                        assert(bit(same_prefix, i) == bit(prefix, i));
                        assert(bit(prefix, i) == bit(*target, i));
                    }
                }
            }
            let same = if target_right {
                right@
            } else {
                left@
            };
            assert forall|k: [u8; 32]| #[trigger]
                under(k, prefix_of(*target, depth + 1)) implies same_at(
                overlay(self.leaves(), leaf_map(same)),
                m,
                k,
            ) by {
                lemma_under_push(k, p, target_right);
                assert(same_at(leaf_map(same), leaf_map_of(leaves@, k), k));
            }
            lemma_siblings_local(
                overlay(self.leaves(), leaf_map(same)),
                m,
                *target,
                depth + 1,
            );
        }
        let other_hash: [u8; 32] = if target_right {
            self.pending_root(depth + 1, other_prefix, &left)
        } else {
            self.pending_root(depth + 1, other_prefix, &right)
        };
        let leaf: [u8; 32] = if target_right {
            self.pending_proof(depth + 1, same_prefix, target, &right, siblings)
        } else {
            self.pending_proof(depth + 1, same_prefix, target, &left, siblings)
        };
        siblings.push(other_hash);
        proof {
            assert(siblings@ =~= before + sibling_path(m, *target, depth as int));
        }
        leaf
    }
}

impl Default for IncrementalStateTree {
    fn default() -> (tree: Self)
        ensures
            tree.wf(),
            tree.leaves() == Map::<[u8; 32], [u8; 32]>::empty(),
    {
        IncrementalStateTree::new()
    }
}

/// What a store holds once `changes` were written to it one after the other.
pub open spec fn with_changes(
    contents: Map<[u8; 32], StateAccountData>,
    changes: Seq<(Pubkey, StateAccount)>,
) -> Map<[u8; 32], StateAccountData>
    decreases changes.len(),
{
    if changes.len() == 0 {
        contents
    } else {
        with_changes(contents, changes.drop_last()).insert(
            changes.last().0.0,
            changes.last().1@,
        )
    }
}

/// Noting a write keeps the leaves of the tree those of the store that was written
/// to, so that roots and proofs of the two trees stay the same.
pub proof fn law_note_set_follows_the_store(
    contents: Map<[u8; 32], StateAccountData>,
    key: [u8; 32],
    account: StateAccountData,
)
    ensures
        leaves_of(contents.insert(key, account)) == leaves_of(contents).insert(
            key,
            leaf_hash(account),
        ),
{
    assert(leaves_of(contents.insert(key, account)) =~= leaves_of(contents).insert(
        key,
        leaf_hash(account),
    ));
}

/// Asking with pending changes gives what writing them gives, where no account is
/// changed twice.
pub proof fn law_pending_is_applying(
    contents: Map<[u8; 32], StateAccountData>,
    changes: Seq<(Pubkey, StateAccount)>,
)
    requires
        distinct_keys(change_leaves(changes)),
    ensures
        overlay(leaves_of(contents), leaf_map(change_leaves(changes))) == leaves_of(
            with_changes(contents, changes),
        ),
    decreases changes.len(),
{
    let leaves = change_leaves(changes);
    let m = leaves_of(contents);
    if changes.len() == 0 {
        assert(overlay(m, leaf_map(leaves)) =~= m);
    } else {
        let rest = changes.drop_last();
        let some = change_leaves(rest);
        assert(leaves.drop_last() =~= some);
        assert(distinct_keys(some)) by {
            assert forall|i: int, j: int| 0 <= i < j < some.len() implies #[trigger] some[i].0
                != #[trigger] some[j].0 by {
                assert(some[i] == leaves[i] && some[j] == leaves[j]);
            }
        }
        law_pending_is_applying(contents, rest);
        lemma_leaf_map_keys(some);
        let last = leaves.last();
        if leaf_map(some).contains_key(last.0) {
            let i = choose|i: int| 0 <= i < some.len() && #[trigger] some[i].0 == last.0;
            assert(leaves[i].0 == leaves[leaves.len() - 1].0);
        }
        law_note_set_follows_the_store(
            with_changes(contents, rest),
            changes.last().0.0,
            changes.last().1@,
        );
        assert(overlay(m, leaf_map(leaves)) =~= overlay(m, leaf_map(some)).insert(
            last.0,
            last.1,
        ));
    }
}

/// A proof is determined by the leaves and the key that it is for.
pub proof fn law_proof_unique(
    a: MerkleProof,
    b: MerkleProof,
    m: Map<[u8; 32], [u8; 32]>,
    key: [u8; 32],
)
    requires
        is_proof_of(a, m, key),
        is_proof_of(b, m, key),
    ensures
        a.key == b.key,
        a.leaf_value_hash == b.leaf_value_hash,
        a.siblings@ == b.siblings@,
{
}

proof fn lemma_zero_key(key: [u8; 32])
    requires
        forall|i: int| 0 <= i < 32 ==> key@[i] == 0,
    ensures
        zero_from(key, 0),
{
    assert forall|i: int| 0 <= i < 256 implies !#[trigger] bit(key, i) by {
        assert(key@[i / 8] == 0);
        crate::bits::lemma_zero_byte((7 - i % 8) as u8);
    }
}

proof fn lemma_pending_sides(
    m: Map<[u8; 32], [u8; 32]>,
    left: Seq<Leaf>,
    right: Seq<Leaf>,
    leaves: Seq<Leaf>,
    p: Seq<bool>,
)
    requires
        p.len() < 256,
        is_side(left, leaves, p.len() as int, false),
        is_side(right, leaves, p.len() as int, true),
    ensures
        subtree(overlay(m, leaf_map(left)), p.push(false)) == subtree(
            overlay(m, leaf_map(leaves)),
            p.push(false),
        ),
        subtree(overlay(m, leaf_map(right)), p.push(true)) == subtree(
            overlay(m, leaf_map(leaves)),
            p.push(true),
        ),
{
    let all = overlay(m, leaf_map(leaves));
    assert forall|k: [u8; 32]| #[trigger] under(k, p.push(false)) implies same_at(
        overlay(m, leaf_map(left)),
        all,
        k,
    ) by {
        lemma_under_push(k, p, false);
        assert(same_at(leaf_map(left), leaf_map_of(leaves, k), k));
    }
    assert forall|k: [u8; 32]| #[trigger] under(k, p.push(true)) implies same_at(
        overlay(m, leaf_map(right)),
        all,
        k,
    ) by {
        lemma_under_push(k, p, true);
        assert(same_at(leaf_map(right), leaf_map_of(leaves, k), k));
    }
    lemma_subtree_local(overlay(m, leaf_map(left)), all, p.push(false));
    lemma_subtree_local(overlay(m, leaf_map(right)), all, p.push(true));
}

} // verus!
