use qchain::incremental::IncrementalStateTree;
use qchain::keys::Keypair;
use qchain::pubkey::Pubkey;
use qchain::state_account::{hash_leaf, AlgorithmId, StateAccount, COMBO_HYBRID_ED25519_ML_DSA_65};
use qchain::store::{InMemoryStore, StateStore};
use qchain::tree::{empty_hashes, verify_proof, StateTree};
use sha3::{Digest, Sha3_256};

fn wallet(balance: u64) -> StateAccount {
    StateAccount {
        balance,
        nonce: 0,
        algorithm_id: AlgorithmId(COMBO_HYBRID_ED25519_ML_DSA_65),
        owner: Pubkey::system_program_id(),
        code_hash: [0u8; 32],
        data: vec![],
    }
}

fn fresh_key() -> Pubkey {
    Keypair::generate().unwrap().pubkey()
}

#[test]
fn empty_store_root_matches_empty_hash() {
    let store = InMemoryStore::new();
    let tree = StateTree::new();
    assert_eq!(tree.root(&store), empty_hashes()[256]);
    assert_eq!(tree.root(&store), tree.empty_root());
}

#[test]
fn inclusion_proof_verifies_against_the_real_root() {
    let mut store = InMemoryStore::new();
    let alice = fresh_key();
    let bob = fresh_key();
    store.set(alice, wallet(1_000));
    store.set(bob, wallet(2_000));

    let tree = StateTree::new();
    let root = tree.root(&store);
    let proof = tree.prove(&store, &alice);

    assert!(proof.leaf_value_hash.is_some());
    assert!(verify_proof(root, &proof, tree.empty_leaf_hash()));
}

#[test]
fn exclusion_proof_verifies_for_an_absent_account() {
    let mut store = InMemoryStore::new();
    let alice = fresh_key();
    let ghost = fresh_key();
    store.set(alice, wallet(1_000));

    let tree = StateTree::new();
    let root = tree.root(&store);
    let proof = tree.prove(&store, &ghost);

    assert!(proof.leaf_value_hash.is_none());
    assert!(verify_proof(root, &proof, tree.empty_leaf_hash()));
}

#[test]
fn tampered_proof_fails_verification() {
    let mut store = InMemoryStore::new();
    let alice = fresh_key();
    store.set(alice, wallet(1_000));

    let tree = StateTree::new();
    let root = tree.root(&store);
    let mut proof = tree.prove(&store, &alice);
    proof.siblings[0][0] ^= 0xFF;

    assert!(!verify_proof(root, &proof, tree.empty_leaf_hash()));
}

#[test]
fn root_changes_when_a_balance_changes() {
    let mut store = InMemoryStore::new();
    let alice = fresh_key();
    store.set(alice, wallet(1_000));
    let tree = StateTree::new();
    let root1 = tree.root(&store);

    store.set(alice, wallet(999));
    let root2 = tree.root(&store);

    assert_ne!(root1, root2);
}

#[test]
fn incremental_tree_matches_the_reference_tree_after_every_insert_and_update() {
    let mut store = InMemoryStore::new();
    let reference = StateTree::new();
    let mut incremental = IncrementalStateTree::new();
    let keys: Vec<Pubkey> = (0..5).map(|_| fresh_key()).collect();

    assert_eq!(incremental.root(), reference.root(&store));

    for (i, key) in keys.iter().enumerate() {
        let account = wallet(1_000 + i as u64);
        store.set(*key, account.clone());
        incremental.note_set(key, &account);
        assert_eq!(incremental.root(), reference.root(&store), "root diverged after inserting account {i}");
        for k in &keys {
            assert_eq!(incremental.prove(k), reference.prove(&store, k), "proof for a known key diverged after inserting account {i}");
        }
    }

    let ghost = fresh_key();
    assert_eq!(incremental.prove(&ghost), reference.prove(&store, &ghost));

    let updated = wallet(50_000);
    store.set(keys[2], updated.clone());
    incremental.note_set(&keys[2], &updated);
    assert_eq!(incremental.root(), reference.root(&store));
    assert_eq!(incremental.prove(&keys[2]), reference.prove(&store, &keys[2]));
}

#[test]
fn pending_root_and_proof_match_actually_applying_the_change() {
    let mut incremental = IncrementalStateTree::new();
    let alice = fresh_key();
    let bob = fresh_key();
    let carol = fresh_key();

    for (k, balance) in [(alice, 5_000), (bob, 2_000), (carol, 9_000)] {
        incremental.note_set(&k, &wallet(balance));
    }

    let pending = vec![(alice, wallet(4_000)), (bob, wallet(3_000))];

    let pending_root = incremental.root_with_pending(&pending);
    let pending_proof_alice = incremental.prove_with_pending(&alice, &pending);
    let pending_proof_carol = incremental.prove_with_pending(&carol, &pending);

    let mut applied_store = InMemoryStore::new();
    applied_store.set(alice, wallet(5_000));
    applied_store.set(bob, wallet(2_000));
    applied_store.set(carol, wallet(9_000));
    for (k, v) in &pending {
        applied_store.set(*k, v.clone());
    }
    let reference = StateTree::new();

    assert_eq!(pending_root, reference.root(&applied_store));
    assert_eq!(pending_proof_alice, reference.prove(&applied_store, &alice));
    assert_eq!(pending_proof_carol, reference.prove(&applied_store, &carol), "an untouched account's proof must still reflect real committed state, not empty");

    assert_ne!(incremental.root(), pending_root);
}

#[test]
fn pending_root_of_a_brand_new_account_proves_correctly() {
    let mut incremental = IncrementalStateTree::new();
    let alice = fresh_key();
    let new_account_key = fresh_key();
    incremental.note_set(&alice, &wallet(1_000));

    let pending = vec![(new_account_key, wallet(777))];
    let pending_root = incremental.root_with_pending(&pending);
    let pending_proof = incremental.prove_with_pending(&new_account_key, &pending);

    let mut applied_store = InMemoryStore::new();
    applied_store.set(alice, wallet(1_000));
    applied_store.set(new_account_key, wallet(777));
    let reference = StateTree::new();

    assert_eq!(pending_root, reference.root(&applied_store));
    assert_eq!(pending_proof, reference.prove(&applied_store, &new_account_key));
}

#[test]
fn a_leaf_hash_is_the_digest_of_the_account_behind_a_zero_byte() {
    let mut account = wallet(0x0102);
    account.nonce = 7;
    account.data = vec![9, 8];
    let mut bytes = vec![0u8];
    bytes.extend_from_slice(&0x0102u64.to_le_bytes());
    bytes.extend_from_slice(&7u64.to_le_bytes());
    bytes.extend_from_slice(&1u16.to_le_bytes());
    bytes.extend_from_slice(&[0u8; 64]);
    bytes.extend_from_slice(&2u32.to_le_bytes());
    bytes.extend_from_slice(&[9, 8]);
    let want: [u8; 32] = Sha3_256::digest(&bytes).into();
    assert_eq!(hash_leaf(&account), want);
    assert_eq!(account.encode(), bytes[1..].to_vec());
}

#[test]
fn an_account_is_read_back_from_its_bytes_and_nothing_else_is() {
    let mut account = wallet(42);
    account.data = vec![1, 2, 3];
    let bytes = account.encode();
    assert_eq!(StateAccount::decode(&bytes), Some(account));
    assert_eq!(StateAccount::decode(&bytes[..bytes.len() - 1]), None);
    let mut longer = bytes.clone();
    longer.push(0);
    assert_eq!(StateAccount::decode(&longer), None);
    assert_eq!(StateAccount::decode(b"this is not a borsh-encoded account"), None);
}

#[test]
fn a_proof_with_a_wrong_number_of_siblings_does_not_hold() {
    let mut store = InMemoryStore::new();
    let alice = Pubkey::new([7u8; 32]);
    store.set(alice, wallet(5));
    let tree = StateTree::new();
    let root = tree.root(&store);
    let mut proof = tree.prove(&store, &alice);
    proof.siblings.pop();
    assert!(!verify_proof(root, &proof, tree.empty_leaf_hash()));
}

#[test]
fn the_memory_store_keeps_metadata_and_needs_no_flush() {
    let mut store = InMemoryStore::new();
    assert_eq!(store.get_meta("round"), None);
    store.put_meta("round", vec![1]);
    store.put_meta("round", vec![2]);
    assert_eq!(store.get_meta("round"), Some(vec![2]));
    assert!(store.flush().is_ok());
    assert!(!store.supports_atomic_meta());
    assert!(!store.needs_periodic_flush());
    let key = Pubkey::new([1u8; 32]);
    store.set(key, wallet(3));
    store.remove(&key);
    assert!(store.get(&key).is_none());
    assert!(store.iter().is_empty());
}
