use qchain::compressed::{
    empty_node, leaf_node, verify_proof, CompressedProof, CompressedStateTree, ProofStep, Terminal,
};
use qchain::patricia::IncrementalCompressedTree;
use qchain::pubkey::Pubkey;
use qchain::state_account::{hash_leaf, StateAccount};
use sha3::{Digest, Sha3_256};
use std::collections::BTreeMap;

type Leaf = ([u8; 32], [u8; 32]);

fn acct(balance: u64) -> StateAccount {
    StateAccount { balance, ..StateAccount::new_wallet(Pubkey::system_program_id()) }
}

fn key(seed: u8) -> [u8; 32] {
    Sha3_256::digest([seed]).into()
}

fn wide_key(seed: u32) -> [u8; 32] {
    Sha3_256::digest(seed.to_le_bytes()).into()
}

fn leaves_of(items: &[(u8, u64)]) -> Vec<Leaf> {
    items.iter().map(|&(s, b)| (key(s), hash_leaf(&acct(b)))).collect()
}

fn listed(leaves: &BTreeMap<[u8; 32], [u8; 32]>) -> Vec<Leaf> {
    leaves.iter().map(|(k, v)| (*k, *v)).collect()
}

#[test]
fn empty_tree_root_is_the_empty_constant() {
    assert_eq!(CompressedStateTree::root(&vec![]), empty_node());
}

#[test]
fn single_leaf_root_is_just_its_leaf_hash_regardless_of_key() {
    for s in 0..8u8 {
        let l = leaves_of(&[(s, 100)]);
        assert_eq!(CompressedStateTree::root(&l), leaf_node(&l[0].0, &l[0].1));
    }
}

#[test]
fn root_is_order_independent() {
    let a = leaves_of(&[(1, 10), (2, 20), (3, 30), (9, 90), (200, 5)]);
    let mut b = a.clone();
    b.reverse();
    let mut c = a.clone();
    c.rotate_left(2);
    assert_eq!(CompressedStateTree::root(&a), CompressedStateTree::root(&b));
    assert_eq!(CompressedStateTree::root(&a), CompressedStateTree::root(&c));
}

#[test]
fn inclusion_proofs_verify_for_every_present_key() {
    let items: Vec<(u8, u64)> = (0..40u8).map(|s| (s, (s as u64 + 1) * 7)).collect();
    let leaves = leaves_of(&items);
    let root = CompressedStateTree::root(&leaves);
    for &(s, _) in &items {
        let p = CompressedStateTree::prove(&leaves, &key(s));
        assert!(p.is_inclusion(), "key {s} must prove present");
        assert!(verify_proof(root, &p), "inclusion proof for key {s} must verify");
    }
}

#[test]
fn exclusion_proofs_verify_for_absent_keys() {
    let items: Vec<(u8, u64)> = (0..30u8).map(|s| (s, s as u64 + 1)).collect();
    let leaves = leaves_of(&items);
    let root = CompressedStateTree::root(&leaves);
    for s in 100..140u8 {
        let p = CompressedStateTree::prove(&leaves, &key(s));
        assert!(!p.is_inclusion(), "key {s} must prove absent");
        assert!(verify_proof(root, &p), "exclusion proof for key {s} must verify");
    }
}

#[test]
fn a_tampered_value_breaks_the_inclusion_proof() {
    let leaves = leaves_of(&[(1, 10), (2, 20), (3, 30)]);
    let root = CompressedStateTree::root(&leaves);
    let mut p = CompressedStateTree::prove(&leaves, &key(2));
    if let Terminal::Leaf { value_hash } = &mut p.terminal {
        value_hash[0] ^= 0xFF;
    }
    assert!(!verify_proof(root, &p), "a tampered value must not verify against the real root");
}

#[test]
fn an_exclusion_proof_cannot_be_forged_for_a_present_key() {
    let leaves = leaves_of(&[(1, 10), (2, 20), (3, 30)]);
    let root = CompressedStateTree::root(&leaves);
    let p = CompressedStateTree::prove(&leaves, &key(2));
    let forged = CompressedProof {
        key: p.key,
        terminal: Terminal::OtherLeaf { key: p.key, value_hash: p.value_hash().unwrap() },
        steps: p.steps.clone(),
    };
    assert!(!verify_proof(root, &forged), "OtherLeaf with the queried key must be rejected");
}

#[test]
fn a_sibling_swap_breaks_the_proof() {
    let leaves = leaves_of(&[(1, 10), (2, 20), (3, 30), (4, 40)]);
    let root = CompressedStateTree::root(&leaves);
    let mut p = CompressedStateTree::prove(&leaves, &key(1));
    if let Some(s) = p.steps.first_mut() {
        s.sibling[0] ^= 0xFF;
    }
    assert!(!verify_proof(root, &p), "a corrupted sibling must not verify");
}

#[test]
fn proof_length_is_logarithmic_not_256() {
    let items: Vec<(u8, u64)> = (0..64u8).map(|s| (s, 1)).collect();
    let leaves = leaves_of(&items);
    for &(s, _) in &items {
        let p = CompressedStateTree::prove(&leaves, &key(s));
        assert!(p.steps.len() < 32, "a compressed proof over 64 leaves should be <32 steps, got {}", p.steps.len());
    }
}

#[test]
fn incremental_matches_the_functional_reference_root() {
    let mut inc = IncrementalCompressedTree::new();
    let mut leaves: BTreeMap<[u8; 32], [u8; 32]> = BTreeMap::new();
    for i in 0..300u32 {
        let pk = Pubkey::new(wide_key(i));
        let a = acct((i as u64 + 1) * 13);
        inc.note_set(&pk, &a);
        leaves.insert(wide_key(i), hash_leaf(&a));
        assert_eq!(inc.root(), CompressedStateTree::root(&listed(&leaves)), "root diverged after insert {i}");
    }
    for i in (0..300u32).step_by(3) {
        let pk = Pubkey::new(wide_key(i));
        let a = acct(999_000 + i as u64);
        inc.note_set(&pk, &a);
        leaves.insert(wide_key(i), hash_leaf(&a));
        assert_eq!(inc.root(), CompressedStateTree::root(&listed(&leaves)), "root diverged after update {i}");
    }
}

#[test]
fn incremental_proofs_verify_inclusion_and_exclusion() {
    let mut inc = IncrementalCompressedTree::new();
    for i in 0..128u32 {
        inc.note_set(&Pubkey::new(wide_key(i)), &acct(i as u64 + 1));
    }
    let root = inc.root();
    for i in 0..128u32 {
        let p = inc.prove(&Pubkey::new(wide_key(i)));
        assert!(p.is_inclusion() && verify_proof(root, &p), "present key {i} must prove+verify");
    }
    for i in 1000..1064u32 {
        let p = inc.prove(&Pubkey::new(wide_key(i)));
        assert!(!p.is_inclusion() && verify_proof(root, &p), "absent key {i} must prove exclusion+verify");
    }
}

#[test]
fn a_duplicate_goes_its_own_way() {
    let mut inc = IncrementalCompressedTree::new();
    for i in 0..40u32 {
        inc.note_set(&Pubkey::new(wide_key(i)), &acct(i as u64 + 1));
    }
    let mut copy = inc.duplicate();
    assert_eq!(copy.root(), inc.root());
    let probe = Pubkey::new(wide_key(7));
    assert_eq!(copy.prove(&probe), inc.prove(&probe));
    let before = inc.root();
    copy.note_set(&probe, &acct(999));
    assert_ne!(copy.root(), before);
    assert_eq!(inc.root(), before);
}

#[test]
fn pending_root_and_proofs_match_the_functional_overlay() {
    let mut inc = IncrementalCompressedTree::new();
    let mut committed: BTreeMap<[u8; 32], [u8; 32]> = BTreeMap::new();
    for i in 0..200u32 {
        let pk = Pubkey::new(wide_key(i));
        let a = acct((i as u64 + 1) * 11);
        inc.note_set(&pk, &a);
        committed.insert(wide_key(i), hash_leaf(&a));
    }

    let updated_key = Pubkey::new(wide_key(37));
    let updated_acct = acct(500_000);
    let new_key = Pubkey::new(wide_key(9_999));
    let new_acct = acct(777_777);
    let pending = vec![(updated_key, updated_acct.clone()), (new_key, new_acct.clone())];

    let mut overlay = committed.clone();
    overlay.insert(updated_key.to_bytes(), hash_leaf(&updated_acct));
    overlay.insert(new_key.to_bytes(), hash_leaf(&new_acct));
    let overlay_leaves = listed(&overlay);
    let truth_root = CompressedStateTree::root(&overlay_leaves);

    assert_eq!(inc.root_with_pending(&pending), truth_root, "pending root must match the functional overlay");
    assert_ne!(inc.root(), truth_root);

    for probe in [updated_key, new_key, Pubkey::new(wide_key(120)), Pubkey::new(wide_key(50_000))] {
        let p = inc.prove_with_pending(&probe, &pending);
        let truth = CompressedStateTree::prove(&overlay_leaves, &probe.to_bytes());
        assert_eq!(p, truth, "pending proof for a probed key must match the functional overlay");
        assert!(verify_proof(truth_root, &p), "pending proof must verify against the pending root");
    }
}

#[test]
fn pending_merge_handles_empty_tree_and_new_branch_points() {
    let empty = IncrementalCompressedTree::new();
    let k0 = Pubkey::new(wide_key(1));
    let a0 = acct(42);
    let pending0 = vec![(k0, a0.clone())];
    let leaves0 = vec![(k0.to_bytes(), hash_leaf(&a0))];
    assert_eq!(empty.root_with_pending(&pending0), CompressedStateTree::root(&leaves0));
    assert_eq!(empty.prove_with_pending(&k0, &pending0), CompressedStateTree::prove(&leaves0, &k0.to_bytes()));

    let mut inc = IncrementalCompressedTree::new();
    let mut committed: BTreeMap<[u8; 32], [u8; 32]> = BTreeMap::new();
    for i in 0..8u32 {
        let pk = Pubkey::new(wide_key(i));
        let a = acct(i as u64 + 1);
        inc.note_set(&pk, &a);
        committed.insert(wide_key(i), hash_leaf(&a));
    }
    let base = wide_key(3);
    let mut near = base;
    near[16] ^= 0x01;
    let near_pk = Pubkey::new(near);
    let near_acct = acct(123_456);
    let pending = vec![(near_pk, near_acct.clone())];

    let mut overlay = committed.clone();
    overlay.insert(near, hash_leaf(&near_acct));
    let overlay_leaves = listed(&overlay);
    let truth_root = CompressedStateTree::root(&overlay_leaves);
    assert_eq!(inc.root_with_pending(&pending), truth_root);
    for probe in [near_pk, Pubkey::new(base), Pubkey::new(wide_key(5))] {
        let p = inc.prove_with_pending(&probe, &pending);
        assert_eq!(p, CompressedStateTree::prove(&overlay_leaves, &probe.to_bytes()));
        assert!(verify_proof(truth_root, &p));
    }
}

#[test]
fn root_from_accounts_is_the_root_of_their_leaves() {
    let accounts = vec![(Pubkey::new(key(1)), acct(10)), (Pubkey::new(key(2)), acct(20))];
    assert_eq!(CompressedStateTree::root_from_accounts(&accounts), CompressedStateTree::root(&leaves_of(&[(1, 10), (2, 20)])));
}

#[test]
fn a_clone_of_an_incremental_tree_goes_its_own_way() {
    let mut inc = IncrementalCompressedTree::new();
    inc.note_set(&Pubkey::new(key(1)), &acct(1));
    let kept = inc.clone();
    inc.note_set(&Pubkey::new(key(2)), &acct(2));
    assert_eq!(kept.root(), CompressedStateTree::root(&leaves_of(&[(1, 1)])));
    assert_eq!(inc.root(), CompressedStateTree::root(&leaves_of(&[(1, 1), (2, 2)])));
}

#[test]
fn a_leaf_cannot_be_moved_to_another_position() {
    let a = [0u8; 32];
    let mut b = a;
    b[0] = 0x80;
    let root = CompressedStateTree::root(&vec![(a, [1u8; 32]), (b, [2u8; 32])]);
    let sibling = leaf_node(&b, &[2u8; 32]);
    let forged = |depth: u16| CompressedProof {
        key: b,
        terminal: Terminal::OtherLeaf { key: a, value_hash: [1u8; 32] },
        steps: vec![ProofStep { depth, sibling }],
    };
    for depth in 0..256u16 {
        assert!(!verify_proof(root, &forged(depth)), "the key is there, and no proof says that it is not");
    }
}

#[test]
fn trees_with_other_leaves_have_other_roots() {
    let mut roots = Vec::new();
    for leaves in [
        leaves_of(&[]),
        leaves_of(&[(1, 1)]),
        leaves_of(&[(2, 1)]),
        leaves_of(&[(1, 1), (2, 1)]),
        leaves_of(&[(1, 1), (2, 2)]),
        leaves_of(&[(1, 1), (2, 1), (3, 1)]),
    ] {
        roots.push(CompressedStateTree::root(&leaves));
    }
    for i in 0..roots.len() {
        for j in 0..i {
            assert_ne!(roots[i], roots[j]);
        }
    }
}

#[test]
fn the_steps_of_a_proof_go_up_and_are_fewer_than_the_leaves() {
    let leaves: Vec<Leaf> = (0..40u32).map(|s| (wide_key(s), hash_leaf(&acct(s as u64)))).collect();
    for n in 0..40usize {
        let some = leaves[..n].to_vec();
        for k in 0..45u32 {
            let proof = CompressedStateTree::prove(&some, &wide_key(k));
            assert!(proof.steps.len() < n.max(1));
            assert!(proof.steps.windows(2).all(|w| w[0].depth > w[1].depth));
            assert!(proof.steps.iter().all(|s| s.depth < 256));
            assert_eq!(proof.is_inclusion(), (k as usize) < n);
        }
    }
}
