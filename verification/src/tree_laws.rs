//! What a root of the state commits to, hash by hash, and what its proofs are made of.
use crate::bits::{bit, key_bits, prefix_of, under};
use crate::codec::{le_bytes, lemma_le_bytes_len, lemma_le_round_trip, lemma_pow256};
use crate::compressed::{
    branch_hash, compressed_proof_holds, compressed_root, empty_node_hash, fold_steps,
    is_compressed_proof_of, leaf_node_hash, lone, lookup_end, lookup_steps, node_hash, none_under,
    CompressedProof, ProofStep, Terminal,
};
use crate::hash::sha3_256;
use crate::incremental::{change_leaves, overlay, with_changes};
use crate::layout_laws::number_at;
use crate::leaves::{leaf_map, Leaf};
use crate::pubkey::Pubkey;
use crate::state_account::{account_bytes, encodable, leaf_hash, StateAccount, StateAccountData};
use crate::tree::{
    empty_hash, fold_path, internal_hash, is_proof_of, leaves_of, lemma_leaf_at, listed,
    proof_holds, root_of, subtree, MerkleProof,
};
use vstd::prelude::*;

verus! {

/// Bits are counted from the most significant one of the first byte.
pub proof fn law_bits_count_from_the_front(key: [u8; 32], i: int)
    requires
        0 <= i < 32,
    ensures
        bit(key, 8 * i) <==> key@[i] / 128 % 2 == 1,
        bit(key, 8 * i + 1) <==> key@[i] / 64 % 2 == 1,
        bit(key, 8 * i + 2) <==> key@[i] / 32 % 2 == 1,
        bit(key, 8 * i + 3) <==> key@[i] / 16 % 2 == 1,
        bit(key, 8 * i + 4) <==> key@[i] / 8 % 2 == 1,
        bit(key, 8 * i + 5) <==> key@[i] / 4 % 2 == 1,
        bit(key, 8 * i + 6) <==> key@[i] / 2 % 2 == 1,
        bit(key, 8 * i + 7) <==> key@[i] % 2 == 1,
{
    let b = key@[i];
    assert(((b >> 7u8) & 1u8 == 1u8 <==> b / 128 % 2 == 1) && ((b >> 6u8) & 1u8 == 1u8 <==> b / 64
        % 2 == 1) && ((b >> 5u8) & 1u8 == 1u8 <==> b / 32 % 2 == 1) && ((b >> 4u8) & 1u8 == 1u8
        <==> b / 16 % 2 == 1) && ((b >> 3u8) & 1u8 == 1u8 <==> b / 8 % 2 == 1) && ((b >> 2u8) & 1u8
        == 1u8 <==> b / 4 % 2 == 1) && ((b >> 1u8) & 1u8 == 1u8 <==> b / 2 % 2 == 1) && ((b >> 0u8)
        & 1u8 == 1u8 <==> b % 2 == 1)) by (bit_vector);
    assert((8 * i) / 8 == i && (8 * i) % 8 == 0);
    assert((8 * i + 1) / 8 == i && (8 * i + 1) % 8 == 1);
    assert((8 * i + 2) / 8 == i && (8 * i + 2) % 8 == 2);
    assert((8 * i + 3) / 8 == i && (8 * i + 3) % 8 == 3);
    assert((8 * i + 4) / 8 == i && (8 * i + 4) % 8 == 4);
    assert((8 * i + 5) / 8 == i && (8 * i + 5) % 8 == 5);
    assert((8 * i + 6) / 8 == i && (8 * i + 6) % 8 == 6);
    assert((8 * i + 7) / 8 == i && (8 * i + 7) % 8 == 7);
}

/// A key lies under the path of its first bits, and under no other of that length.
pub proof fn law_keys_lie_under_their_bits(key: [u8; 32], p: Seq<bool>)
    ensures
        under(key, p) <==> p.len() <= 256 && forall|i: int|
            0 <= i < p.len() ==> #[trigger] p[i] == bit(key, i),
        p.len() <= 256 ==> (under(key, p) <==> p == prefix_of(key, p.len() as int)),
        key_bits(key).len() == 256,
{
    if p.len() <= 256 && under(key, p) {
        assert(p =~= prefix_of(key, p.len() as int));
    }
    if p.len() <= 256 && p == prefix_of(key, p.len() as int) {
        assert forall|i: int| 0 <= i < p.len() implies bit(key, i) == #[trigger] p[i] by {
            assert(prefix_of(key, p.len() as int)[i] == bit(key, i));
        }
    }
}

/// Nodes are hashed with a one before them, accounts with a zero, and what is not there is a
/// zero alone.
pub proof fn law_hashes_tell_what_they_are_of(
    left: [u8; 32],
    right: [u8; 32],
    a: StateAccountData,
    height: nat,
)
    ensures
        internal_hash(left, right) == sha3_256(seq![1u8] + (left@ + right@)),
        leaf_hash(a) == sha3_256(seq![0u8] + account_bytes(a)),
        empty_hash(0) == sha3_256(seq![0u8]),
        empty_hash(height + 1) == sha3_256(
            seq![1u8] + (empty_hash(height)@ + empty_hash(height)@),
        ),
{
    assert(seq![1u8] + (left@ + right@) =~= seq![1u8] + left@ + right@);
    let e = empty_hash(height);
    assert(seq![1u8] + (e@ + e@) =~= seq![1u8] + e@ + e@);
}

/// The bytes of an account of the state: balance and nonce in eight bytes each, its algorithm in
/// two, its owner, the hash of its code, and its data after their length in four.
pub proof fn law_state_accounts_are_laid_out(a: StateAccountData)
    requires
        encodable(a),
    ensures
        ({
            let s = account_bytes(a);
            &&& s.len() == 86 + a.data.len()
            &&& number_at(s, 0, 8) == a.balance
            &&& number_at(s, 8, 8) == a.nonce
            &&& number_at(s, 16, 2) == a.algorithm_id.0
            &&& s.subrange(18, 50) == a.owner.0@
            &&& s.subrange(50, 82) == a.code_hash@
            &&& number_at(s, 82, 4) == a.data.len()
            &&& s.skip(86) == a.data
        }),
{
    let s = account_bytes(a);
    lemma_pow256();
    assert(crate::codec::pow256(2) == 65536) by {
        reveal_with_fuel(crate::codec::pow256, 3);
    }
    lemma_le_bytes_len(a.balance as nat, 8);
    lemma_le_bytes_len(a.nonce as nat, 8);
    lemma_le_bytes_len(a.algorithm_id.0 as nat, 2);
    lemma_le_bytes_len(a.data.len(), 4);
    lemma_le_round_trip(a.balance as nat, 8);
    lemma_le_round_trip(a.nonce as nat, 8);
    lemma_le_round_trip(a.algorithm_id.0 as nat, 2);
    lemma_le_round_trip(a.data.len(), 4);
    assert(s.subrange(0, 8) =~= le_bytes(a.balance as nat, 8));
    assert(s.subrange(8, 16) =~= le_bytes(a.nonce as nat, 8));
    assert(s.subrange(16, 18) =~= le_bytes(a.algorithm_id.0 as nat, 2));
    assert(s.subrange(18, 50) =~= a.owner.0@);
    assert(s.subrange(50, 82) =~= a.code_hash@);
    assert(s.subrange(82, 86) =~= le_bytes(a.data.len(), 4));
    assert(s.skip(86) =~= a.data);
}

/// The tree: a node is the hash of the node where the next bit is zero and the one where it is
/// one; at the end of a whole key stands its leaf, or the empty leaf. The root is the node of the
/// empty path.
pub proof fn law_roots_are_hashed_from_the_leaves(
    m: Map<[u8; 32], [u8; 32]>,
    p: Seq<bool>,
    key: [u8; 32],
)
    ensures
        root_of(m) == subtree(m, Seq::empty()),
        p.len() < 256 ==> subtree(m, p) == internal_hash(
            subtree(m, p.push(false)),
            subtree(m, p.push(true)),
        ),
        subtree(m, key_bits(key)) == if m.contains_key(key) {
            m[key]
        } else {
            sha3_256(seq![0u8])
        },
{
    assert(prefix_of(key, 256) =~= key_bits(key));
    lemma_leaf_at(m, key);
}

/// The leaves of a state are the hashes of its accounts.
pub proof fn law_leaves_are_hashes_of_accounts(
    contents: Map<[u8; 32], StateAccountData>,
    key: [u8; 32],
)
    ensures
        leaves_of(contents).contains_key(key) <==> contents.contains_key(key),
        contents.contains_key(key) ==> leaves_of(contents)[key] == sha3_256(
            seq![0u8] + account_bytes(contents[key]),
        ),
{
}

/// A proof names its key, its leaf where that is not the empty one, and two hundred and fifty-six
/// siblings, the deepest first: at each depth the node that parts from the key there.
pub proof fn law_proofs_are_made_of_siblings(
    proof: MerkleProof,
    m: Map<[u8; 32], [u8; 32]>,
    key: [u8; 32],
    i: int,
)
    requires
        is_proof_of(proof, m, key),
        0 <= i < 256,
    ensures
        proof.key == key,
        proof.siblings@.len() == 256,
        proof.siblings@[i] == subtree(
            m,
            key_bits(key).take(255 - i).push(!key_bits(key)[255 - i]),
        ),
        !m.contains_key(key) ==> proof.leaf_value_hash is None,
        m.contains_key(key) && m[key] != sha3_256(seq![0u8]) ==> proof.leaf_value_hash == Some(
            m[key],
        ),
{
}

/// A proof holds for a root exactly where it has as many siblings as a key has bits and folding
/// them onto the leaf, each on the side that the key does not take, gives the root.
pub proof fn law_proofs_are_folded(
    root: [u8; 32],
    proof: MerkleProof,
    empty_leaf: [u8; 32],
    key: [u8; 32],
    leaf: [u8; 32],
    below: Seq<[u8; 32]>,
    next: [u8; 32],
)
    ensures
        proof_holds(root, proof, empty_leaf) <==> proof.siblings@.len() == 256 && fold_path(
            proof.key,
            match proof.leaf_value_hash {
                Some(h) => h,
                None => empty_leaf,
            },
            proof.siblings@,
        ) == root,
        fold_path(key, leaf, Seq::empty()) == leaf,
        below.len() < 256 ==> fold_path(key, leaf, below.push(next)) == if bit(
            key,
            255 - below.len(),
        ) {
            internal_hash(next, fold_path(key, leaf, below))
        } else {
            internal_hash(fold_path(key, leaf, below), next)
        },
{
    assert(below.push(next).drop_last() =~= below);
}

/// The compressed tree hashes a five for nothing, a three with key and value for a lone leaf, and
/// a four with the depth in two bytes and both sides where keys part.
pub proof fn law_compressed_hashes_tell_what_they_are_of(
    key: [u8; 32],
    value: [u8; 32],
    depth: nat,
    left: [u8; 32],
    right: [u8; 32],
)
    ensures
        empty_node_hash() == sha3_256(seq![5u8]),
        leaf_node_hash(key, value) == sha3_256(seq![3u8] + (key@ + value@)),
        branch_hash(depth, left, right) == sha3_256(
            seq![4u8] + (le_bytes(depth, 2) + (left@ + right@)),
        ),
{
    assert(seq![3u8] + (key@ + value@) =~= seq![3u8] + key@ + value@);
    assert(seq![4u8] + (le_bytes(depth, 2) + (left@ + right@)) =~= seq![4u8] + le_bytes(depth, 2)
        + left@ + right@);
}

/// There is an entry under the path.
pub open spec fn some_under(m: Map<[u8; 32], [u8; 32]>, p: Seq<bool>) -> bool {
    exists|k: [u8; 32]| #[trigger] m.contains_key(k) && under(k, p)
}

/// The compressed tree: nothing under a path is the empty hash; a single entry is its leaf,
/// however deep; where entries part at the next bit, it is the branch of both sides; and where
/// they do not, the path goes on.
pub proof fn law_compressed_roots(m: Map<[u8; 32], [u8; 32]>, p: Seq<bool>, key: [u8; 32])
    ensures
        compressed_root(m) == node_hash(m, Seq::empty()),
        !some_under(m, p) ==> node_hash(m, p) == empty_node_hash(),
        lone(m, p, key) ==> node_hash(m, p) == leaf_node_hash(key, m[key]),
        p.len() < 256 && some_under(m, p.push(false)) && some_under(m, p.push(true)) ==> node_hash(
            m,
            p,
        ) == branch_hash(p.len(), node_hash(m, p.push(false)), node_hash(m, p.push(true))),
        p.len() < 256 && some_under(m, p.push(true)) && !some_under(m, p.push(false)) && !(exists|
            k: [u8; 32],
        | lone(m, p, k)) ==> node_hash(m, p) == node_hash(m, p.push(true)),
        p.len() < 256 && some_under(m, p.push(false)) && !some_under(m, p.push(true)) && !(exists|
            k: [u8; 32],
        | lone(m, p, k)) ==> node_hash(m, p) == node_hash(m, p.push(false)),
{
    lemma_sides(m, p);
    if lone(m, p, key) {
        let k = choose|k: [u8; 32]| lone(m, p, k);
        assert(k == key);
    }
}

proof fn lemma_sides(m: Map<[u8; 32], [u8; 32]>, p: Seq<bool>)
    ensures
        some_under(m, p) <==> !none_under(m, p),
        some_under(m, p.push(false)) <==> !none_under(m, p.push(false)),
        some_under(m, p.push(true)) <==> !none_under(m, p.push(true)),
        p.len() < 256 && some_under(m, p.push(false)) ==> some_under(m, p),
        p.len() < 256 && some_under(m, p.push(true)) ==> some_under(m, p),
        p.len() < 256 && some_under(m, p.push(false)) && some_under(m, p.push(true)) ==> !(exists|
            k: [u8; 32],
        | lone(m, p, k)),
{
    let n = p.len() as int;
    assert forall|k: [u8; 32], b: bool| n < 256 && #[trigger] under(k, p.push(b)) implies under(k, p)
        && bit(k, n) == b by {
        assert(p.push(b)[n] == b);
        assert forall|i: int| 0 <= i < n implies bit(k, i) == #[trigger] p[i] by {
            assert(p.push(b)[i] == p[i]);
        }
    }
    if n < 256 && some_under(m, p.push(false)) {
        let x = choose|k: [u8; 32]| #[trigger] m.contains_key(k) && under(k, p.push(false));
        assert(m.contains_key(x) && under(x, p));
        if some_under(m, p.push(true)) {
            let y = choose|k: [u8; 32]| #[trigger] m.contains_key(k) && under(k, p.push(true));
            assert(m.contains_key(y) && under(y, p));
            assert(x != y);
        }
    }
    if n < 256 && some_under(m, p.push(true)) {
        let y = choose|k: [u8; 32]| #[trigger] m.contains_key(k) && under(k, p.push(true));
        assert(m.contains_key(y) && under(y, p));
    }
}

/// A compressed proof ends in the leaf of its key where the key is there, in another leaf or in
/// nothing where it is not; and has a step, the deepest first, for every place where another
/// entry parts from the path, with the hash of the other side.
pub proof fn law_compressed_proofs(
    m: Map<[u8; 32], [u8; 32]>,
    p: Seq<bool>,
    key: [u8; 32],
    target: [u8; 32],
)
    ensures
        !some_under(m, p) ==> lookup_end(m, p, target) == Terminal::Empty && lookup_steps(
            m,
            p,
            target,
        ).len() == 0,
        lone(m, p, key) ==> lookup_steps(m, p, target).len() == 0 && lookup_end(m, p, target)
            == if key == target {
            Terminal::Leaf { value_hash: m[key] }
        } else {
            Terminal::OtherLeaf { key, value_hash: m[key] }
        },
        p.len() < 256 && some_under(m, p.push(false)) && some_under(m, p.push(true)) ==> {
            let turn = bit(target, p.len() as int);
            &&& lookup_end(m, p, target) == lookup_end(m, p.push(turn), target)
            &&& lookup_steps(m, p, target) == lookup_steps(m, p.push(turn), target).push(
                ProofStep { depth: p.len() as u16, sibling: node_hash(m, p.push(!turn)) },
            )
        },
{
    lemma_sides(m, p);
    if lone(m, p, key) {
        let k = choose|k: [u8; 32]| lone(m, p, k);
        assert(k == key);
    }
}

/// A compressed proof holds for a root exactly where a foreign leaf in it is foreign and folding
/// its steps onto its end, each on the side that the key does not take at the step's depth, gives
/// the root.
pub proof fn law_compressed_proofs_are_folded(
    root: [u8; 32],
    proof: CompressedProof,
    key: [u8; 32],
    start: [u8; 32],
    below: Seq<ProofStep>,
    step: ProofStep,
)
    ensures
        compressed_proof_holds(root, proof) <==> {
            &&& match proof.terminal {
                Terminal::Leaf { value_hash } => fold_steps(
                    proof.key,
                    leaf_node_hash(proof.key, value_hash),
                    proof.steps@,
                ) == root,
                Terminal::OtherLeaf { key, value_hash } => key != proof.key && fold_steps(
                    proof.key,
                    leaf_node_hash(key, value_hash),
                    proof.steps@,
                ) == root,
                Terminal::Empty => fold_steps(proof.key, sha3_256(seq![5u8]), proof.steps@) == root,
            }
        },
        fold_steps(key, start, Seq::empty()) == start,
        fold_steps(key, start, below.push(step)) == if bit(key, step.depth as int) {
            branch_hash(step.depth as nat, step.sibling, fold_steps(key, start, below))
        } else {
            branch_hash(step.depth as nat, fold_steps(key, start, below), step.sibling)
        },
{
    assert(below.push(step).drop_last() =~= below);
}

/// What a compressed proof of a key is.
pub proof fn law_compressed_proofs_name_their_key(
    proof: CompressedProof,
    m: Map<[u8; 32], [u8; 32]>,
    key: [u8; 32],
)
    ensures
        is_compressed_proof_of(proof, m, key) <==> proof.key == key && proof.terminal == lookup_end(
            m,
            Seq::empty(),
            key,
        ) && proof.steps@ == lookup_steps(m, Seq::empty(), key),
{
}

/// Of leaves with one key the first counts; of entries and of changes the last.
pub proof fn law_repeated_keys(
    leaves: Seq<Leaf>,
    leaf: Leaf,
    entries: Seq<(Pubkey, StateAccount)>,
    entry: (Pubkey, StateAccount),
    contents: Map<[u8; 32], StateAccountData>,
)
    ensures
        leaf_map(Seq::empty()) == Map::<[u8; 32], [u8; 32]>::empty(),
        leaf_map(leaves).contains_key(leaf.0) ==> leaf_map(leaves.push(leaf)) == leaf_map(leaves),
        !leaf_map(leaves).contains_key(leaf.0) ==> leaf_map(leaves.push(leaf)) == leaf_map(
            leaves,
        ).insert(leaf.0, leaf.1),
        listed(Seq::empty()) == Map::<[u8; 32], StateAccountData>::empty(),
        listed(entries.push(entry)) == listed(entries).insert(entry.0.0, entry.1@),
        with_changes(contents, Seq::empty()) == contents,
        with_changes(contents, entries.push(entry)) == with_changes(contents, entries).insert(
            entry.0.0,
            entry.1@,
        ),
{
    assert(leaves.push(leaf).drop_last() =~= leaves);
    assert(entries.push(entry).drop_last() =~= entries);
}

/// Changes replace what was there, under their keys and no others, with the hashes of their
/// accounts.
pub proof fn law_changes_replace(
    m: Map<[u8; 32], [u8; 32]>,
    c: Map<[u8; 32], [u8; 32]>,
    k: [u8; 32],
    changes: Seq<(Pubkey, StateAccount)>,
    i: int,
)
    ensures
        overlay(m, c).contains_key(k) <==> m.contains_key(k) || c.contains_key(k),
        c.contains_key(k) ==> overlay(m, c)[k] == c[k],
        !c.contains_key(k) && m.contains_key(k) ==> overlay(m, c)[k] == m[k],
        change_leaves(changes).len() == changes.len(),
        0 <= i < changes.len() ==> change_leaves(changes)[i] == (
            changes[i].0.0,
            sha3_256(seq![0u8] + account_bytes(changes[i].1@)),
        ),
{
}

} // verus!
