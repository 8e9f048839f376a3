//! The compressed tree kept up to date: a write rebuilds only the branches on its
//! path.
use crate::bits::{
    agree, bit, bit_at, first_diff_bit, lemma_under_prefix_of, lemma_under_push, prefix_of, under,
};
use crate::compressed::{
    alike, branch_hash, compressed_root, compute_proof, compute_root, crowded, empty_node,
    empty_node_hash, internal_node, is_compressed_proof_of, leaf_node, leaf_node_hash,
    lemma_alike_local, lemma_descend, lemma_list_side, lemma_lone, lemma_split, lone, lookup_end,
    lookup_steps, node_hash, none_under, CompressedProof, ProofStep, Terminal,
};
use crate::hash::digests_equal;
use crate::incremental::{change_leaves, changes_encodable, hash_changes, overlay};
use crate::leaves::{
    all_under, distinct_keys, is_side, leaf_map, leaf_map_of, lemma_leaf_map_keys, partition,
    same_at, Leaf,
};
use crate::pubkey::Pubkey;
use crate::state_account::{encodable, hash_leaf, leaf_hash, StateAccount};
use vstd::prelude::*;

verus! {

/// A node of the tree with its hash.
pub enum CNode {
    Empty,
    Leaf { key: [u8; 32], value: [u8; 32], hash: [u8; 32] },
    /// Two subtrees that part at bit `depth`. All their keys share the first `depth`
    /// bits of `rep`.
    Internal { depth: usize, rep: [u8; 32], left: Box<CNode>, right: Box<CNode>, hash: [u8; 32] },
}

impl CNode {
    /// The leaves of the subtree.
    pub open spec fn contents(self) -> Map<[u8; 32], [u8; 32]>
        decreases self,
    {
        match self {
            CNode::Empty => Map::empty(),
            CNode::Leaf { key, value, .. } => Map::empty().insert(key, value),
            CNode::Internal { left, right, .. } => left.contents().union_prefer_right(
                right.contents(),
            ),
        }
    }

    /// The hash that the node carries.
    pub open spec fn digest(self) -> [u8; 32] {
        match self {
            CNode::Empty => empty_node_hash(),
            CNode::Leaf { hash, .. } => hash,
            CNode::Internal { hash, .. } => hash,
        }
    }

    /// Every hash is right, and every branch has leaves on both sides.
    pub open spec fn wf(self) -> bool
        decreases self,
    {
        match self {
            CNode::Empty => true,
            CNode::Leaf { key, value, hash } => hash == leaf_node_hash(key, value),
            CNode::Internal { depth, rep, left, right, hash } => {
                &&& depth < 256
                &&& left.wf()
                &&& right.wf()
                &&& !(*left is Empty)
                &&& !(*right is Empty)
                &&& hash == branch_hash(depth as nat, left.digest(), right.digest())
                &&& forall|k: [u8; 32]| #[trigger]
                    left.contents().contains_key(k) ==> agree(k, rep, depth as int) && !bit(
                        k,
                        depth as int,
                    )
                &&& forall|k: [u8; 32]| #[trigger]
                    right.contents().contains_key(k) ==> agree(k, rep, depth as int) && bit(
                        k,
                        depth as int,
                    )
            },
        }
    }

    /// Every leaf of the subtree lies under `p`.
    pub open spec fn lies_under(self, p: Seq<bool>) -> bool {
        forall|k: [u8; 32]| #[trigger] self.contents().contains_key(k) ==> under(k, p)
    }

    proof fn lemma_has_leaf(self) -> (k: [u8; 32])
        requires
            self.wf(),
            !(self is Empty),
        ensures
            self.contents().contains_key(k),
        decreases self,
    {
        match self {
            CNode::Empty => arbitrary(),
            CNode::Leaf { key, .. } => key,
            CNode::Internal { left, .. } => left.lemma_has_leaf(),
        }
    }

    /// A branch has a leaf on each side; its keys share its first bits, so it stands
    /// no higher than a prefix that it lies under.
    proof fn lemma_branch(self, p: Seq<bool>) -> (ab: ([u8; 32], [u8; 32]))
        requires
            self.wf(),
            self is Internal,
            p.len() <= 256,
            self.lies_under(p),
        ensures
            self->left.contents().contains_key(ab.0),
            self->right.contents().contains_key(ab.1),
            self.contents().contains_key(ab.0),
            self.contents().contains_key(ab.1),
            crowded(self.contents(), p, ab.0, ab.1),
            p.len() <= self->depth,
            under(self->rep, p),
            prefix_of(self->rep, self->depth as int).take(p.len() as int) == p,
            forall|k: [u8; 32]| #[trigger]
                self.contents().contains_key(k) ==> agree(k, self->rep, self->depth as int) && under(
                    k,
                    prefix_of(self->rep, self->depth as int),
                ),
    {
        let a = self->left.lemma_has_leaf();
        let b = self->right.lemma_has_leaf();
        let d = self->depth as int;
        let rep = self->rep;
        assert(self.contents().contains_key(a) && self.contents().contains_key(b));
        if p.len() > d {
            assert(bit(a, d) == p[d] && bit(b, d) == p[d]);
        }
        assert forall|i: int| 0 <= i < p.len() implies bit(rep, i) == #[trigger] p[i] by {
            assert(bit(a, i) == p[i]);
            assert(bit(a, i) == bit(rep, i));
        }
        let q = prefix_of(rep, d);
        assert(q.take(p.len() as int) =~= p);
        assert forall|k: [u8; 32]| #[trigger] self.contents().contains_key(k) implies agree(
            k,
            rep,
            d,
        ) && under(k, q) by {
            lemma_under_prefix_of(k, rep, d);
        }
        (a, b)
    }

    /// A well-formed node carries the hash of its leaves, under any prefix that they
    /// share.
    pub proof fn lemma_digest(self, p: Seq<bool>)
        requires
            self.wf(),
            p.len() <= 256,
            self.lies_under(p),
        ensures
            self.digest() == node_hash(self.contents(), p),
        decreases self,
    {
        let m = self.contents();
        match self {
            CNode::Empty => {},
            CNode::Leaf { key, value, .. } => {
                assert(m.contains_key(key));
                assert(lone(m, p, key));
                lemma_lone(m, p, key, key);
            },
            CNode::Internal { depth, rep, left, right, .. } => {
                let (a, b) = self.lemma_branch(p);
                let q = prefix_of(rep, depth as int);
                lemma_descend(m, p, q, a, b);
                self.lemma_children(q);
                lemma_split(m, q, a, b);
                left.lemma_digest(q.push(false));
                right.lemma_digest(q.push(true));
            },
        }
    }

    /// The children of a branch, seen from the place where they part.
    proof fn lemma_children(self, q: Seq<bool>)
        requires
            self.wf(),
            self is Internal,
            q == prefix_of(self->rep, self->depth as int),
        ensures
            q.len() == self->depth,
            self.lies_under(q),
            self->left.lies_under(q.push(false)),
            self->right.lies_under(q.push(true)),
            alike(self->left.contents(), q.push(false), self.contents(), q.push(false)),
            alike(self->right.contents(), q.push(true), self.contents(), q.push(true)),
            forall|k: [u8; 32]| under(k, #[trigger] q.push(false)) ==> same_at(
                self->left.contents(),
                self.contents(),
                k,
            ),
            forall|k: [u8; 32]| under(k, #[trigger] q.push(true)) ==> same_at(
                self->right.contents(),
                self.contents(),
                k,
            ),
    {
        let d = self->depth as int;
        let rep = self->rep;
        let m = self.contents();
        let l = self->left.contents();
        let r = self->right.contents();
        lemma_under_prefix_of(rep, rep, d);
        assert forall|k: [u8; 32]| #[trigger] m.contains_key(k) implies under(k, q) by {
            lemma_under_prefix_of(k, rep, d);
            assert(l.contains_key(k) || r.contains_key(k));
        }
        assert forall|k: [u8; 32]| #[trigger] l.contains_key(k) implies under(k, q.push(false)) by {
            lemma_under_prefix_of(k, rep, d);
            lemma_under_push(k, q, false);
        }
        assert forall|k: [u8; 32]| #[trigger] r.contains_key(k) implies under(k, q.push(true)) by {
            lemma_under_prefix_of(k, rep, d);
            lemma_under_push(k, q, true);
        }
        assert forall|k: [u8; 32]| #[trigger] under(k, q.push(false)) implies same_at(l, m, k) by {
            lemma_under_push(k, q, false);
        }
        assert forall|k: [u8; 32]| #[trigger] under(k, q.push(true)) implies same_at(r, m, k) by {
            lemma_under_push(k, q, true);
        }
        lemma_alike_local(l, m, q.push(false));
        lemma_alike_local(r, m, q.push(true));
    }

    fn hash(&self) -> (digest: [u8; 32])
        ensures
            digest == self.digest(),
    {
        match self {
            CNode::Empty => empty_node(),
            CNode::Leaf { hash, .. } => *hash,
            CNode::Internal { hash, .. } => *hash,
        }
    }

    fn leaf(key: [u8; 32], value: [u8; 32]) -> (node: CNode)
        ensures
            node.wf(),
            node is Leaf,
            node.contents() == Map::<[u8; 32], [u8; 32]>::empty().insert(key, value),
    {
        CNode::Leaf { key, value, hash: leaf_node(&key, &value) }
    }

    fn branch(depth: usize, rep: [u8; 32], left: CNode, right: CNode) -> (node: CNode)
        requires
            depth < 256,
            left.wf(),
            right.wf(),
            !(left is Empty),
            !(right is Empty),
            forall|k: [u8; 32]| #[trigger]
                left.contents().contains_key(k) ==> agree(k, rep, depth as int) && !bit(
                    k,
                    depth as int,
                ),
            forall|k: [u8; 32]| #[trigger]
                right.contents().contains_key(k) ==> agree(k, rep, depth as int) && bit(
                    k,
                    depth as int,
                ),
        ensures
            node.wf(),
            !(node is Empty),
            node.contents() == left.contents().union_prefer_right(right.contents()),
    {
        let hash: [u8; 32] = internal_node(depth, &left.hash(), &right.hash());
        CNode::Internal { depth, rep, left: Box::new(left), right: Box::new(right), hash }
    }

    /// The tree with `value` under `key`.
    fn insert(self, key: [u8; 32], value: [u8; 32]) -> (node: CNode)
        requires
            self.wf(),
        ensures
            node.wf(),
            !(node is Empty),
            node.contents() == self.contents().insert(key, value),
        decreases self,
    {
        let ghost m = self.contents();
        match self {
            CNode::Empty => CNode::leaf(key, value),
            CNode::Leaf { key: k, value: v, .. } => {
                if digests_equal(&k, &key) {
                    let node = CNode::leaf(key, value);
                    proof {
                        assert(node.contents() =~= m.insert(key, value));
                    }
                    node
                } else {
                    let d: usize = first_diff_bit(&k, &key);
                    let existing = CNode::leaf(k, v);
                    let fresh = CNode::leaf(key, value);
                    proof {
                        assert(agree(k, k, d as int));
                        assert(agree(key, k, d as int)) by {
                            assert forall|i: int| 0 <= i < d implies #[trigger] bit(key, i) == bit(
                                k,
                                i,
                            ) by {
                                assert(bit(k, i) == bit(key, i));
                            }
                        }
                    }
                    let node = if bit_at(&key, d) {
                        CNode::branch(d, k, existing, fresh)
                    } else {
                        CNode::branch(d, k, fresh, existing)
                    };
                    proof {
                        assert(node.contents() =~= m.insert(key, value));
                    }
                    node
                }
            },
            CNode::Internal { depth, rep, left, right, hash } => {
                let d: usize = first_diff_bit(&key, &rep);
                let ghost whole = CNode::Internal { depth, rep, left, right, hash };
                let ghost q = prefix_of(rep, depth as int);
                proof {
                    whole.lemma_children(q);
                    assert forall|k: [u8; 32]| #[trigger] m.contains_key(k) implies agree(
                        k,
                        rep,
                        depth as int,
                    ) by {
                        lemma_under_prefix_of(k, rep, depth as int);
                    }
                }
                if d < depth {
                    let existing = CNode::Internal { depth, rep, left, right, hash: [0u8; 32] }.rehash();
                    let fresh = CNode::leaf(key, value);
                    proof {
                        assert(existing.contents() =~= m);
                        assert forall|k: [u8; 32]| #[trigger] m.contains_key(k) implies agree(
                            k,
                            rep,
                            d as int,
                        ) && bit(k, d as int) == bit(rep, d as int) by {
                            assert(agree(k, rep, depth as int));
                        }
                    }
                    let node = if bit_at(&key, d) {
                        CNode::branch(d, rep, existing, fresh)
                    } else {
                        CNode::branch(d, rep, fresh, existing)
                    };
                    proof {
                        assert(!m.contains_key(key)) by {
                            if m.contains_key(key) {
                                assert(bit(key, d as int) == bit(rep, d as int));
                            }
                        }
                        assert(node.contents() =~= m.insert(key, value));
                    }
                    node
                } else {
                    proof {
                        assert(agree(key, rep, depth as int));
                    }
                    if bit_at(&key, depth) {
                        let ghost r0 = right.contents();
                        let ghost l0 = left.contents();
                        let nr = (*right).insert(key, value);
                        let node = CNode::branch(depth, rep, *left, nr);
                        proof {
                            assert(!l0.contains_key(key));
                            assert(node.contents() =~= m.insert(key, value));
                        }
                        node
                    } else {
                        let ghost r0 = right.contents();
                        let nl = (*left).insert(key, value);
                        let node = CNode::branch(depth, rep, nl, *right);
                        proof {
                            assert(!r0.contains_key(key));
                            assert(node.contents() =~= m.insert(key, value));
                        }
                        node
                    }
                }
            },
        }
    }

    fn duplicate(&self) -> (copy: CNode)
        ensures
            copy == *self,
        decreases self,
    {
        match self {
            CNode::Empty => CNode::Empty,
            CNode::Leaf { key, value, hash } => CNode::Leaf {
                key: *key,
                value: *value,
                hash: *hash,
            },
            CNode::Internal { depth, rep, left, right, hash } => CNode::Internal {
                depth: *depth,
                rep: *rep,
                left: Box::new(left.duplicate()),
                right: Box::new(right.duplicate()),
                hash: *hash,
            },
        }
    }

    /// A branch with its hash computed from its sides.
    fn rehash(self) -> (node: CNode)
        requires
            self matches CNode::Internal { depth, rep, left, right, .. } ==> (
            CNode::Internal { depth, rep, left, right, hash: branch_hash(depth as nat, left.digest(), right.digest()) }).wf(),
            !(self is Internal) ==> self.wf(),
        ensures
            node.wf(),
            node.contents() == self.contents(),
            (node is Empty) == (self is Empty),
    {
        match self {
            CNode::Internal { depth, rep, left, right, .. } => {
                let hash: [u8; 32] = internal_node(depth, &left.hash(), &right.hash());
                CNode::Internal { depth, rep, left, right, hash }
            },
            other => other,
        }
    }

    /// Where the lookup of `target` ends; the branches on the way are pushed, deepest
    /// first.
    fn prove(&self, target: &[u8; 32], steps: &mut Vec<ProofStep>, Ghost(p): Ghost<Seq<bool>>) -> (terminal:
        Terminal)
        requires
            self.wf(),
            p.len() <= 256,
            self.lies_under(p),
        ensures
            terminal == lookup_end(self.contents(), p, *target),
            final(steps)@ == old(steps)@ + lookup_steps(self.contents(), p, *target),
        decreases self,
    {
        let ghost before = steps@;
        let ghost m = self.contents();
        match self {
            CNode::Empty => {
                proof {
                    assert(none_under(m, p));
                    assert(before + lookup_steps(m, p, *target) =~= before);
                }
                Terminal::Empty
            },
            CNode::Leaf { key, value, .. } => {
                proof {
                    assert(m.contains_key(*key));
                    assert(lone(m, p, *key));
                    lemma_lone(m, p, *key, *target);
                    assert(before + lookup_steps(m, p, *target) =~= before);
                }
                if digests_equal(key, target) {
                    Terminal::Leaf { value_hash: *value }
                } else {
                    Terminal::OtherLeaf { key: *key, value_hash: *value }
                }
            },
            CNode::Internal { depth, rep, left, right, .. } => {
                let ghost q = prefix_of(*rep, *depth as int);
                proof {
                    let (a, b) = self.lemma_branch(p);
                    lemma_descend(m, p, q, a, b);
                    self.lemma_children(q);
                    lemma_split(m, q, a, b);
                    left.lemma_digest(q.push(false));
                    right.lemma_digest(q.push(true));
                    assert(lookup_end(m, p, *target) == lookup_end(m, q, *target));
                    assert(lookup_steps(m, p, *target) == lookup_steps(m, q, *target));
                }
                if bit_at(target, *depth) {
                    let other_hash: [u8; 32] = left.hash();
                    let terminal: Terminal = right.prove(target, steps, Ghost(q.push(true)));
                    steps.push(ProofStep { depth: *depth as u16, sibling: other_hash });
                    proof {
                        assert(lookup_end(right.contents(), q.push(true), *target) == lookup_end(
                            m,
                            q.push(true),
                            *target,
                        ));
                        assert(lookup_steps(right.contents(), q.push(true), *target)
                            == lookup_steps(m, q.push(true), *target));
                        assert(steps@ =~= before + lookup_steps(m, p, *target));
                    }
                    terminal
                } else {
                    let other_hash: [u8; 32] = right.hash();
                    let terminal: Terminal = left.prove(target, steps, Ghost(q.push(false)));
                    steps.push(ProofStep { depth: *depth as u16, sibling: other_hash });
                    proof {
                        assert(lookup_end(left.contents(), q.push(false), *target) == lookup_end(
                            m,
                            q.push(false),
                            *target,
                        ));
                        assert(lookup_steps(left.contents(), q.push(false), *target)
                            == lookup_steps(m, q.push(false), *target));
                        assert(steps@ =~= before + lookup_steps(m, p, *target));
                    }
                    terminal
                }
            },
        }
    }
}

/// The compressed tree that a single owner keeps up to date.
pub struct IncrementalCompressedTree {
    root: CNode,
}

impl IncrementalCompressedTree {
    /// Every hash in the tree is right.
    pub closed spec fn wf(&self) -> bool {
        self.root.wf()
    }

    /// The leaves that were noted.
    pub closed spec fn leaves(&self) -> Map<[u8; 32], [u8; 32]> {
        self.root.contents()
    }

    /// A tree without leaves.
    pub fn new() -> (tree: Self)
        ensures
            tree.wf(),
            tree.leaves() == Map::<[u8; 32], [u8; 32]>::empty(),
    {
        IncrementalCompressedTree { root: CNode::Empty }
    }

    /// A second tree with the same leaves.
    pub fn duplicate(&self) -> (copy: Self)
        requires
            self.wf(),
        ensures
            copy.wf(),
            copy.leaves() == self.leaves(),
    {
        IncrementalCompressedTree { root: self.root.duplicate() }
    }

    /// Notes that `account` now stands under `key`.
    pub fn note_set(&mut self, key: &Pubkey, account: &StateAccount)
        requires
            old(self).wf(),
            encodable(account@),
        ensures
            final(self).wf(),
            final(self).leaves() == old(self).leaves().insert(key.0, leaf_hash(account@)),
    {
        let k: [u8; 32] = key.to_bytes();
        let v: [u8; 32] = hash_leaf(account);
        let mut root: CNode = CNode::Empty;
        std::mem::swap(&mut root, &mut self.root);
        self.root = root.insert(k, v);
    }

    /// The root.
    pub fn root(&self) -> (root: [u8; 32])
        requires
            self.wf(),
        ensures
            root == compressed_root(self.leaves()),
    {
        proof {
            self.root.lemma_digest(Seq::empty());
        }
        self.root.hash()
    }

    /// The proof for `key`.
    pub fn prove(&self, key: &Pubkey) -> (proof: CompressedProof)
        requires
            self.wf(),
        ensures
            is_compressed_proof_of(proof, self.leaves(), key.0),
    {
        let target: [u8; 32] = key.to_bytes();
        let mut steps: Vec<ProofStep> = Vec::new();
        let terminal: Terminal = self.root.prove(&target, &mut steps, Ghost(Seq::empty()));
        proof {
            assert(steps@ =~= lookup_steps(self.leaves(), Seq::empty(), target));
        }
        CompressedProof { key: target, terminal, steps }
    }

    /// The root that the tree would have with `changes` applied, where no account is
    /// changed twice. The tree stays as it is.
    pub fn root_with_pending(&self, changes: &Vec<(Pubkey, StateAccount)>) -> (root: [u8; 32])
        requires
            self.wf(),
            changes_encodable(changes@),
            distinct_keys(change_leaves(changes@)),
        ensures
            root == compressed_root(overlay(self.leaves(), leaf_map(change_leaves(changes@)))),
    {
        let leaves = hash_changes(changes);
        merged_hash(&self.root, &leaves, 0, Ghost(Seq::empty()))
    }

    /// The proof that the tree would give for `key` with `changes` applied, where no
    /// account is changed twice.
    pub fn prove_with_pending(&self, key: &Pubkey, changes: &Vec<(Pubkey, StateAccount)>) -> (proof:
        CompressedProof)
        requires
            self.wf(),
            changes_encodable(changes@),
            distinct_keys(change_leaves(changes@)),
        ensures
            is_compressed_proof_of(
                proof,
                overlay(self.leaves(), leaf_map(change_leaves(changes@))),
                key.0,
            ),
    {
        let leaves = hash_changes(changes);
        let target: [u8; 32] = key.to_bytes();
        let mut steps: Vec<ProofStep> = Vec::new();
        let terminal: Terminal = merged_prove(
            &self.root,
            &leaves,
            0,
            &target,
            &mut steps,
            Ghost(Seq::empty()),
        );
        proof {
            let m = overlay(self.leaves(), leaf_map(leaves@));
            assert(steps@ =~= lookup_steps(m, Seq::empty(), target));
        }
        CompressedProof { key: target, terminal, steps }
    }
}

/// The leaves of `node` with `pending` laid over them.
pub open spec fn merged(node: CNode, pending: Seq<Leaf>) -> Map<[u8; 32], [u8; 32]> {
    overlay(node.contents(), leaf_map(pending))
}

/// The lone leaf `key` and the pending leaves as one list; a pending leaf with the same
/// key takes its place.
fn with_leaf(pending: &Vec<Leaf>, key: &[u8; 32], value: &[u8; 32], Ghost(p): Ghost<Seq<bool>>) -> (set:
    Vec<Leaf>)
    requires
        all_under(pending@, p),
        under(*key, p),
        distinct_keys(pending@),
    ensures
        all_under(set@, p),
        distinct_keys(set@),
        leaf_map(set@) == overlay(
            Map::<[u8; 32], [u8; 32]>::empty().insert(*key, *value),
            leaf_map(pending@),
        ),
{
    let mut set: Vec<Leaf> = Vec::new();
    let mut found: bool = false;
    let mut i: usize = 0;
    while i < pending.len()
        invariant
            i <= pending@.len(),
            set@ == pending@.take(i as int),
            found == (exists|j: int| 0 <= j < i && #[trigger] pending@[j].0 == *key),
        decreases pending@.len() - i,
    {
        let leaf: Leaf = pending[i];
        if digests_equal(&leaf.0, key) {
            found = true;
            proof {
                assert(pending@[i as int].0 == *key);
            }
        }
        set.push(leaf);
        proof {
            assert(set@ =~= pending@.take(i + 1));
        }
        i += 1;
    }
    let ghost lm = leaf_map(pending@);
    let ghost base = Map::<[u8; 32], [u8; 32]>::empty().insert(*key, *value);
    proof {
        assert(set@ =~= pending@);
        lemma_leaf_map_keys(pending@);
    }
    if !found {
        set.push((*key, *value));
        proof {
            assert(set@.drop_last() =~= pending@);
            assert(!lm.contains_key(*key));
            assert(leaf_map(set@) =~= overlay(base, lm));
            assert forall|j: int| 0 <= j < set@.len() implies under(#[trigger] set@[j].0, p) by {
                if j < pending@.len() {
                    assert(set@[j] == pending@[j]);
                }
            }
            assert forall|j: int, n: int| 0 <= j < n < set@.len() implies #[trigger] set@[j].0
                != #[trigger] set@[n].0 by {
                assert(set@[j] == pending@[j]);
                if n < pending@.len() {
                    assert(set@[n] == pending@[n]);
                }
            }
        }
    } else {
        proof {
            assert(leaf_map(set@) =~= overlay(base, lm));
        }
    }
    set
}

/// The first bit, at most `nd`, at which a pending key parts from `rep`.
fn earliest_divergence(pending: &Vec<Leaf>, rep: &[u8; 32], nd: usize) -> (d: usize)
    requires
        nd < 256,
    ensures
        d <= nd,
        forall|i: int| 0 <= i < pending@.len() ==> agree(#[trigger] pending@[i].0, *rep, d as int),
        d < nd ==> exists|i: int|
            0 <= i < pending@.len() && bit(#[trigger] pending@[i].0, d as int) != bit(
                *rep,
                d as int,
            ),
{
    let mut min_div: usize = nd;
    let mut i: usize = 0;
    while i < pending.len()
        invariant
            i <= pending@.len(),
            min_div <= nd < 256,
            forall|j: int| 0 <= j < i ==> agree(#[trigger] pending@[j].0, *rep, min_div as int),
            min_div < nd ==> exists|j: int|
                0 <= j < i && bit(#[trigger] pending@[j].0, min_div as int) != bit(
                    *rep,
                    min_div as int,
                ),
        decreases pending@.len() - i,
    {
        let b: usize = first_diff_bit(&pending[i].0, rep);
        if b < min_div {
            proof {
                assert(bit(pending@[i as int].0, b as int) != bit(*rep, b as int));
            }
            min_div = b;
        }
        i += 1;
    }
    min_div
}

/// The pending leaves belong inside the branch `node`: the merged tree parts where
/// `node` does.
proof fn lemma_merge_inside(
    node: CNode,
    pending: Seq<Leaf>,
    pl: Seq<Leaf>,
    pr: Seq<Leaf>,
    p: Seq<bool>,
)
    requires
        node.wf(),
        node is Internal,
        p.len() <= 256,
        node.lies_under(p),
        all_under(pending, p),
        distinct_keys(pending),
        forall|i: int|
            0 <= i < pending.len() ==> agree(#[trigger] pending[i].0, node->rep, node->depth as int),
        is_side(pl, pending, node->depth as int, false),
        is_side(pr, pending, node->depth as int, true),
    ensures
        p.len() <= node->depth,
        ({
            let q = prefix_of(node->rep, node->depth as int);
            let m = merged(node, pending);
            &&& q.len() == node->depth
            &&& node->left.lies_under(q.push(false))
            &&& node->right.lies_under(q.push(true))
            &&& all_under(pl, q.push(false))
            &&& all_under(pr, q.push(true))
            &&& alike(merged(*node->left, pl), q.push(false), m, q.push(false))
            &&& alike(merged(*node->right, pr), q.push(true), m, q.push(true))
            &&& merges_at(m, p, q)
        }),
{
    let q = prefix_of(node->rep, node->depth as int);
    let m = merged(node, pending);
    let (a, b) = node.lemma_branch(p);
    node.lemma_children(q);
    lemma_leaf_map_keys(pending);
    assert forall|i: int| 0 <= i < pending.len() implies under(#[trigger] pending[i].0, q) by {
        lemma_under_prefix_of(pending[i].0, node->rep, node->depth as int);
    }
    assert(all_under(pending, q));
    assert forall|k: [u8; 32]| #[trigger] m.contains_key(k) implies under(k, q) && under(k, p) by {
        if leaf_map(pending).contains_key(k) {
            let i = choose|i: int| 0 <= i < pending.len() && #[trigger] pending[i].0 == k;
            assert(under(pending[i].0, q) && under(pending[i].0, p));
        } else {
            assert(node.contents().contains_key(k));
        }
    }
    assert(m.contains_key(a) && m.contains_key(b));
    lemma_descend(m, p, q, a, b);
    lemma_split(m, q, a, b);
    lemma_list_side(pl, pending, q, false);
    lemma_list_side(pr, pending, q, true);
    assert forall|k: [u8; 32]| #[trigger] under(k, q.push(false)) implies same_at(
        merged(*node->left, pl),
        m,
        k,
    ) by {
        lemma_under_push(k, q, false);
        assert(same_at(leaf_map(pl), leaf_map_of(pending, k), k));
        assert(same_at(node->left.contents(), node.contents(), k));
    }
    assert forall|k: [u8; 32]| #[trigger] under(k, q.push(true)) implies same_at(
        merged(*node->right, pr),
        m,
        k,
    ) by {
        lemma_under_push(k, q, true);
        assert(same_at(leaf_map(pr), leaf_map_of(pending, k), k));
        assert(same_at(node->right.contents(), node.contents(), k));
    }
    lemma_alike_local(merged(*node->left, pl), m, q.push(false));
    lemma_alike_local(merged(*node->right, pr), m, q.push(true));
}

/// What lies under `p` parts at `q`.
pub open spec fn merges_at(m: Map<[u8; 32], [u8; 32]>, p: Seq<bool>, q: Seq<bool>) -> bool {
    &&& node_hash(m, p) == branch_hash(
        q.len(),
        node_hash(m, q.push(false)),
        node_hash(m, q.push(true)),
    )
    &&& forall|t: [u8; 32]| #[trigger]
        lookup_end(m, p, t) == lookup_end(m, q.push(bit(t, q.len() as int)), t)
    &&& forall|t: [u8; 32]| #[trigger]
        lookup_steps(m, p, t) == lookup_steps(m, q.push(bit(t, q.len() as int)), t).push(
            ProofStep {
                depth: q.len() as u16,
                sibling: node_hash(m, q.push(!bit(t, q.len() as int))),
            },
        )
}

/// A pending leaf parts from the branch `node` above the place where `node` does.
proof fn lemma_merge_above(
    node: CNode,
    pending: Seq<Leaf>,
    same: Seq<Leaf>,
    other: Seq<Leaf>,
    p: Seq<bool>,
    d: int,
)
    requires
        node.wf(),
        node is Internal,
        p.len() <= 256,
        node.lies_under(p),
        all_under(pending, p),
        distinct_keys(pending),
        0 <= d < node->depth,
        forall|i: int| 0 <= i < pending.len() ==> agree(#[trigger] pending[i].0, node->rep, d),
        exists|i: int|
            0 <= i < pending.len() && bit(#[trigger] pending[i].0, d) != bit(node->rep, d),
        is_side(same, pending, d, bit(node->rep, d)),
        is_side(other, pending, d, !bit(node->rep, d)),
    ensures
        p.len() <= d,
        ({
            let q = prefix_of(node->rep, d);
            let m = merged(node, pending);
            let side = bit(node->rep, d);
            &&& q.len() == d
            &&& node.lies_under(q.push(side))
            &&& all_under(same, q.push(side))
            &&& all_under(other, q.push(!side))
            &&& alike(merged(node, same), q.push(side), m, q.push(side))
            &&& alike(leaf_map(other), q.push(!side), m, q.push(!side))
            &&& merges_at(m, p, q)
        }),
{
    let rep = node->rep;
    let q = prefix_of(rep, d);
    let m = merged(node, pending);
    let side = bit(rep, d);
    let (a, b) = node.lemma_branch(p);
    lemma_under_prefix_of(rep, rep, d);
    lemma_leaf_map_keys(pending);
    let x = choose|i: int| 0 <= i < pending.len() && bit(#[trigger] pending[i].0, d) != bit(rep, d);
    let c = pending[x].0;
    if p.len() > d {
        assert(under(c, p));
        assert(bit(c, d) == p[d]);
        assert(bit(rep, d) == p[d]);
    }
    assert(q.take(p.len() as int) =~= p) by {
        assert forall|i: int| 0 <= i < p.len() implies q[i] == p[i] by {
            assert(bit(rep, i) == p[i]);
        }
    }
    assert forall|i: int| 0 <= i < pending.len() implies under(#[trigger] pending[i].0, q) by {
        lemma_under_prefix_of(pending[i].0, rep, d);
    }
    assert(all_under(pending, q));
    assert forall|k: [u8; 32]| #[trigger] node.contents().contains_key(k) implies under(
        k,
        q.push(side),
    ) by {
        assert(agree(k, rep, node->depth as int));
        assert(bit(k, d) == bit(rep, d));
        assert(agree(k, rep, d)) by {
            assert forall|i: int| 0 <= i < d implies #[trigger] bit(k, i) == bit(rep, i) by {}
        }
        lemma_under_prefix_of(k, rep, d);
        lemma_under_push(k, q, side);
    }
    assert forall|k: [u8; 32]| #[trigger] m.contains_key(k) implies under(k, q) && under(k, p) by {
        if leaf_map(pending).contains_key(k) {
            let i = choose|i: int| 0 <= i < pending.len() && #[trigger] pending[i].0 == k;
            assert(under(pending[i].0, q) && under(pending[i].0, p));
        } else {
            assert(node.contents().contains_key(k));
            lemma_under_push(k, q, side);
        }
    }
    assert(m.contains_key(a) && m.contains_key(c));
    assert(under(a, q.push(side)));
    lemma_under_push(a, q, side);
    lemma_under_push(c, q, !side);
    assert(a != c);
    assert(crowded(m, p, a, c));
    lemma_descend(m, p, q, a, c);
    if side {
        lemma_split(m, q, c, a);
    } else {
        lemma_split(m, q, a, c);
    }
    lemma_list_side(same, pending, q, side);
    lemma_list_side(other, pending, q, !side);
    let away = q.push(!side);
    assert forall|k: [u8; 32]| #[trigger] under(k, q.push(side)) implies same_at(
        merged(node, same),
        m,
        k,
    ) by {
        lemma_under_push(k, q, side);
        assert(same_at(leaf_map(same), leaf_map_of(pending, k), k));
    }
    assert forall|k: [u8; 32]| #[trigger] under(k, away) implies same_at(
        leaf_map(other),
        m,
        k,
    ) by {
        lemma_under_push(k, q, !side);
        assert(same_at(leaf_map(other), leaf_map_of(pending, k), k));
        if node.contents().contains_key(k) {
            lemma_under_push(k, q, side);
        }
    }
    lemma_alike_local(merged(node, same), m, q.push(side));
    lemma_alike_local(leaf_map(other), m, away);
}

/// The hash of `node` with `pending` laid over it. Where nothing is pending, the hash
/// that `node` carries is taken as it is.
fn merged_hash(
    node: &CNode,
    pending: &Vec<Leaf>,
    depth: usize,
    Ghost(p): Ghost<Seq<bool>>,
) -> (digest: [u8; 32])
    requires
        node.wf(),
        depth == p.len(),
        depth <= 256,
        node.lies_under(p),
        all_under(pending@, p),
        distinct_keys(pending@),
    ensures
        digest == node_hash(merged(*node, pending@), p),
    decreases 257 - depth,
{
    let ghost m = merged(*node, pending@);
    if pending.len() == 0 {
        proof {
            assert(m =~= node.contents());
            node.lemma_digest(p);
        }
        return node.hash();
    }
    match node {
        CNode::Empty => {
            proof {
                assert(m =~= leaf_map(pending@));
            }
            compute_root(pending, depth, Ghost(p))
        },
        CNode::Leaf { key, value, .. } => {
            proof {
                assert(node.contents().contains_key(*key));
            }
            let set = with_leaf(pending, key, value, Ghost(p));
            compute_root(&set, depth, Ghost(p))
        },
        CNode::Internal { depth: nd, rep, left, right, .. } => {
            let nd: usize = *nd;
            let min_div: usize = earliest_divergence(pending, rep, nd);
            if min_div >= nd {
                let (pl, pr) = partition(pending, nd);
                let ghost q = prefix_of(*rep, nd as int);
                proof {
                    lemma_merge_inside(*node, pending@, pl@, pr@, p);
                }
                let lh: [u8; 32] = merged_hash(left, &pl, nd + 1, Ghost(q.push(false)));
                let rh: [u8; 32] = merged_hash(right, &pr, nd + 1, Ghost(q.push(true)));
                internal_node(nd, &lh, &rh)
            } else {
                let rep_bit: bool = bit_at(rep, min_div);
                let (pl, pr) = partition(pending, min_div);
                let (rep_pending, other_pending) = if rep_bit {
                    (pr, pl)
                } else {
                    (pl, pr)
                };
                let ghost q = prefix_of(*rep, min_div as int);
                proof {
                    lemma_merge_above(
                        *node,
                        pending@,
                        rep_pending@,
                        other_pending@,
                        p,
                        min_div as int,
                    );
                }
                let rep_hash: [u8; 32] = merged_hash(
                    node,
                    &rep_pending,
                    min_div + 1,
                    Ghost(q.push(rep_bit)),
                );
                let other_hash: [u8; 32] = compute_root(
                    &other_pending,
                    min_div + 1,
                    Ghost(q.push(!rep_bit)),
                );
                if rep_bit {
                    internal_node(min_div, &other_hash, &rep_hash)
                } else {
                    internal_node(min_div, &rep_hash, &other_hash)
                }
            }
        },
    }
}

/// Where the lookup of `target` ends in `node` with `pending` laid over it; the
/// branches on the way are pushed, deepest first.
fn merged_prove(
    node: &CNode,
    pending: &Vec<Leaf>,
    depth: usize,
    target: &[u8; 32],
    steps: &mut Vec<ProofStep>,
    Ghost(p): Ghost<Seq<bool>>,
) -> (terminal: Terminal)
    requires
        node.wf(),
        depth == p.len(),
        depth <= 256,
        node.lies_under(p),
        all_under(pending@, p),
        distinct_keys(pending@),
    ensures
        terminal == lookup_end(merged(*node, pending@), p, *target),
        final(steps)@ == old(steps)@ + lookup_steps(merged(*node, pending@), p, *target),
    decreases 257 - depth,
{
    let ghost before = steps@;
    let ghost m = merged(*node, pending@);
    if pending.len() == 0 {
        proof {
            assert(m =~= node.contents());
        }
        return node.prove(target, steps, Ghost(p));
    }
    match node {
        CNode::Empty => {
            proof {
                assert(m =~= leaf_map(pending@));
            }
            compute_proof(pending, depth, target, steps, Ghost(p))
        },
        CNode::Leaf { key, value, .. } => {
            proof {
                assert(node.contents().contains_key(*key));
            }
            let set = with_leaf(pending, key, value, Ghost(p));
            compute_proof(&set, depth, target, steps, Ghost(p))
        },
        CNode::Internal { depth: nd, rep, left, right, .. } => {
            let nd: usize = *nd;
            let min_div: usize = earliest_divergence(pending, rep, nd);
            if min_div >= nd {
                let (pl, pr) = partition(pending, nd);
                let ghost q = prefix_of(*rep, nd as int);
                proof {
                    lemma_merge_inside(*node, pending@, pl@, pr@, p);
                }
                if bit_at(target, nd) {
                    let other_hash: [u8; 32] = merged_hash(left, &pl, nd + 1, Ghost(q.push(false)));
                    let terminal: Terminal = merged_prove(
                        right,
                        &pr,
                        nd + 1,
                        target,
                        steps,
                        Ghost(q.push(true)),
                    );
                    steps.push(ProofStep { depth: nd as u16, sibling: other_hash });
                    proof {
                        lemma_taken(m, p, q, merged(**right, pr@), *target);
                        assert(steps@ =~= before + lookup_steps(m, p, *target));
                    }
                    terminal
                } else {
                    let other_hash: [u8; 32] = merged_hash(right, &pr, nd + 1, Ghost(q.push(true)));
                    let terminal: Terminal = merged_prove(
                        left,
                        &pl,
                        nd + 1,
                        target,
                        steps,
                        Ghost(q.push(false)),
                    );
                    steps.push(ProofStep { depth: nd as u16, sibling: other_hash });
                    proof {
                        lemma_taken(m, p, q, merged(**left, pl@), *target);
                        assert(steps@ =~= before + lookup_steps(m, p, *target));
                    }
                    terminal
                }
            } else {
                let rep_bit: bool = bit_at(rep, min_div);
                let (pl, pr) = partition(pending, min_div);
                let (rep_pending, other_pending) = if rep_bit {
                    (pr, pl)
                } else {
                    (pl, pr)
                };
                let ghost q = prefix_of(*rep, min_div as int);
                proof {
                    lemma_merge_above(
                        *node,
                        pending@,
                        rep_pending@,
                        other_pending@,
                        p,
                        min_div as int,
                    );
                }
                if bit_at(target, min_div) == rep_bit {
                    let other_hash: [u8; 32] = compute_root(
                        &other_pending,
                        min_div + 1,
                        Ghost(q.push(!rep_bit)),
                    );
                    let terminal: Terminal = merged_prove(
                        node,
                        &rep_pending,
                        min_div + 1,
                        target,
                        steps,
                        Ghost(q.push(rep_bit)),
                    );
                    steps.push(ProofStep { depth: min_div as u16, sibling: other_hash });
                    proof {
                        lemma_taken(m, p, q, merged(*node, rep_pending@), *target);
                        assert(steps@ =~= before + lookup_steps(m, p, *target));
                    }
                    terminal
                } else {
                    let rep_hash: [u8; 32] = merged_hash(
                        node,
                        &rep_pending,
                        min_div + 1,
                        Ghost(q.push(rep_bit)),
                    );
                    let terminal: Terminal = compute_proof(
                        &other_pending,
                        min_div + 1,
                        target,
                        steps,
                        Ghost(q.push(!rep_bit)),
                    );
                    steps.push(ProofStep { depth: min_div as u16, sibling: rep_hash });
                    proof {
                        assert(bit(*target, min_div as int) == !rep_bit);
                        lemma_taken(m, p, q, leaf_map(other_pending@), *target);
                        assert(steps@ =~= before + lookup_steps(m, p, *target));
                    }
                    terminal
                }
            }
        },
    }
}

/// A lookup goes on in the side that it takes.
proof fn lemma_taken(
    m: Map<[u8; 32], [u8; 32]>,
    p: Seq<bool>,
    q: Seq<bool>,
    taken: Map<[u8; 32], [u8; 32]>,
    t: [u8; 32],
)
    requires
        merges_at(m, p, q),
        alike(taken, q.push(bit(t, q.len() as int)), m, q.push(bit(t, q.len() as int))),
    ensures
        lookup_end(m, p, t) == lookup_end(taken, q.push(bit(t, q.len() as int)), t),
        lookup_steps(m, p, t) == lookup_steps(taken, q.push(bit(t, q.len() as int)), t).push(
            ProofStep {
                depth: q.len() as u16,
                sibling: node_hash(m, q.push(!bit(t, q.len() as int))),
            },
        ),
{
    let next = q.push(bit(t, q.len() as int));
    assert(lookup_end(taken, next, t) == lookup_end(m, next, t));
    assert(lookup_steps(taken, next, t) == lookup_steps(m, next, t));
}

impl Clone for IncrementalCompressedTree {
    fn clone(&self) -> (copy: Self)
        ensures
            copy.wf() == self.wf(),
            copy.leaves() == self.leaves(),
    {
        IncrementalCompressedTree { root: self.root.duplicate() }
    }
}

impl Default for IncrementalCompressedTree {
    fn default() -> (tree: Self)
        ensures
            tree.wf(),
            tree.leaves() == Map::<[u8; 32], [u8; 32]>::empty(),
    {
        IncrementalCompressedTree::new()
    }
}

} // verus!
