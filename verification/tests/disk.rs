use qchain::disk_log::RedbLog;
use qchain::disk_store::{check_rows, Corruption, RedbStore, Write};
use qchain::pubkey::Pubkey;
use qchain::state_account::{AlgorithmId, StateAccount};
use qchain::store::{InMemoryStore, StateStore, StoreError};
use qchain::tree::{verify_proof, StateTree};
use redb::{ReadableTable, ReadableTableMetadata};

const ACCOUNTS: redb::TableDefinition<'static, &'static [u8], &'static [u8]> = redb::TableDefinition::new("accounts");
const META: redb::TableDefinition<'static, &'static [u8], &'static [u8]> = redb::TableDefinition::new("meta");
const LOG: redb::TableDefinition<'static, &'static [u8], &'static [u8]> = redb::TableDefinition::new("log");

fn sample_account(balance: u64) -> StateAccount {
    StateAccount { balance, nonce: 0, algorithm_id: AlgorithmId(1), owner: Pubkey::new([0u8; 32]), code_hash: [0u8; 32], data: vec![] }
}

fn memory() -> redb::Database {
    redb::Database::builder().create_with_backend(redb::backends::InMemoryBackend::new()).unwrap()
}

fn rows(db: &redb::Database, table: redb::TableDefinition<'static, &'static [u8], &'static [u8]>) -> Vec<(Vec<u8>, Vec<u8>)> {
    let rtx = db.begin_read().unwrap();
    match rtx.open_table(table) {
        Ok(t) => t.iter().unwrap().map(|e| e.unwrap()).map(|(k, v)| (k.value().to_vec(), v.value().to_vec())).collect(),
        Err(_) => vec![],
    }
}

fn open(db: &redb::Database) -> Result<RedbStore, Corruption> {
    RedbStore::open(&rows(db, ACCOUNTS), &rows(db, META))
}

fn flush(db: &redb::Database, store: &mut RedbStore) {
    let writes = store.pending_writes();
    if !writes.is_empty() {
        let wtx = db.begin_write().unwrap();
        {
            let mut accounts = wtx.open_table(ACCOUNTS).unwrap();
            let mut meta = wtx.open_table(META).unwrap();
            for w in &writes {
                match w {
                    Write::PutAccount(k, v) => {
                        accounts.insert(k.as_slice(), v.as_slice()).unwrap();
                    }
                    Write::DropAccount(k) => {
                        accounts.remove(k.as_slice()).unwrap();
                    }
                    Write::PutMeta(n, v) => {
                        meta.insert(n.as_bytes(), v.as_slice()).unwrap();
                    }
                }
            }
        }
        wtx.commit().unwrap();
    }
    assert!(store.flush(Ok(())).is_ok());
}

struct SledStore {
    db: sled::Db,
}

impl SledStore {
    fn temporary() -> Self {
        SledStore { db: sled::Config::new().temporary(true).open().unwrap() }
    }

    fn rows(&self) -> Vec<(Vec<u8>, Vec<u8>)> {
        self.db.iter().map(|e| e.unwrap()).map(|(k, v)| (k.to_vec(), v.to_vec())).collect()
    }

    fn get(&self, key: &Pubkey) -> Option<StateAccount> {
        self.db.get(key.to_bytes()).unwrap().map(|b| StateAccount::decode(&b).unwrap())
    }

    fn set(&mut self, key: Pubkey, account: StateAccount) {
        self.db.insert(key.to_bytes(), account.encode()).unwrap();
    }

    fn remove(&mut self, key: &Pubkey) {
        self.db.remove(key.to_bytes()).unwrap();
    }

    fn listed(&self) -> Vec<(Pubkey, StateAccount)> {
        self.rows().iter().map(|(k, v)| (Pubkey::new(k.as_slice().try_into().unwrap()), StateAccount::decode(v).unwrap())).collect()
    }
}

#[test]
fn get_returns_none_for_a_key_that_was_never_set() {
    let store = SledStore::temporary();
    assert!(store.get(&Pubkey::new([1u8; 32])).is_none());
}

#[test]
fn set_then_get_roundtrips_the_account() {
    let mut store = SledStore::temporary();
    let key = Pubkey::new([1u8; 32]);
    store.set(key, sample_account(100));
    assert_eq!(store.get(&key), Some(sample_account(100)));
}

#[test]
fn open_rejects_a_database_with_a_corrupt_account_value() {
    let store = SledStore::temporary();
    store.db.insert([9u8; 32], b"this is not a borsh-encoded account".to_vec()).unwrap();
    let fault = check_rows(&store.rows()).unwrap_err();
    assert_eq!(fault, Corruption::Value);
    let text = fault.message("state database", "/data");
    assert!(text.contains("corrupt state database"), "the error must clearly name the corruption, got: {text}");
}

#[test]
fn open_accepts_a_clean_database_written_by_set() {
    let mut store = SledStore::temporary();
    store.set(Pubkey::new([1u8; 32]), sample_account(42));
    assert!(check_rows(&store.rows()).is_ok(), "a database written only via set must reopen cleanly");
    assert_eq!(store.get(&Pubkey::new([1u8; 32])), Some(sample_account(42)));
}

#[test]
fn set_overwrites_a_previous_value_for_the_same_key() {
    let mut store = SledStore::temporary();
    let key = Pubkey::new([1u8; 32]);
    store.set(key, sample_account(100));
    store.set(key, sample_account(200));
    assert_eq!(store.get(&key), Some(sample_account(200)));
}

#[test]
fn remove_deletes_the_key() {
    let mut store = SledStore::temporary();
    let key = Pubkey::new([1u8; 32]);
    store.set(key, sample_account(100));
    store.remove(&key);
    assert!(store.get(&key).is_none());
}

#[test]
fn iter_yields_every_key_that_was_set_and_not_removed() {
    let mut store = SledStore::temporary();
    let key_a = Pubkey::new([1u8; 32]);
    let key_b = Pubkey::new([2u8; 32]);
    let key_c = Pubkey::new([3u8; 32]);
    store.set(key_a, sample_account(1));
    store.set(key_b, sample_account(2));
    store.set(key_c, sample_account(3));
    store.remove(&key_b);

    let mut entries = store.listed();
    entries.sort_by_key(|(k, _)| k.to_bytes());
    assert_eq!(entries, vec![(key_a, sample_account(1)), (key_c, sample_account(3))]);
}

#[test]
fn data_survives_dropping_and_reopening_the_store_at_the_same_path() {
    let path = format!("/tmp/qchain-state-{:016x}", rand::random::<u64>());
    let key = Pubkey::new([9u8; 32]);
    {
        let mut store = SledStore { db: sled::Config::new().path(&path).open().unwrap() };
        store.set(key, sample_account(42));
        store.db.flush().unwrap();
    }
    let reopened = SledStore { db: sled::Config::new().path(&path).temporary(true).open().unwrap() };
    assert!(check_rows(&reopened.rows()).is_ok());
    assert_eq!(reopened.get(&key), Some(sample_account(42)));
}

#[test]
fn redb_set_get_remove_iter_behave_like_the_trait_expects() {
    let db = memory();
    let mut store = open(&db).unwrap();
    let a = Pubkey::new([1u8; 32]);
    let b = Pubkey::new([2u8; 32]);
    assert!(store.get(&a).is_none());
    store.set(a, sample_account(100));
    store.set(b, sample_account(200));
    assert_eq!(store.get(&a), Some(sample_account(100)));
    store.set(a, sample_account(150));
    assert_eq!(store.get(&a), Some(sample_account(150)));
    store.remove(&b);
    assert!(store.get(&b).is_none());
    let mut entries = store.iter();
    entries.sort_by_key(|(k, _)| k.to_bytes());
    assert_eq!(entries, vec![(a, sample_account(150))]);
}

#[test]
fn redb_data_survives_flush_then_reopen() {
    let db = memory();
    let key = Pubkey::new([9u8; 32]);
    {
        let mut store = open(&db).unwrap();
        store.set(key, sample_account(42));
        store.set(Pubkey::new([7u8; 32]), sample_account(7));
        store.remove(&Pubkey::new([7u8; 32]));
        flush(&db, &mut store);
    }
    let reopened = open(&db).unwrap();
    assert_eq!(reopened.get(&key), Some(sample_account(42)));
    assert!(reopened.get(&Pubkey::new([7u8; 32])).is_none(), "a flushed delete must not reappear");
    assert_eq!(reopened.len(), 1);
}

#[test]
fn redb_unflushed_writes_are_not_persisted() {
    let db = memory();
    {
        let mut store = open(&db).unwrap();
        store.set(Pubkey::new([1u8; 32]), sample_account(1));
    }
    let reopened = open(&db).unwrap();
    assert!(reopened.is_empty(), "unflushed writes must not survive (crash-loss bound)");
}

#[test]
fn redb_a_crash_before_commit_keeps_the_whole_previous_round_never_a_partial() {
    let db = memory();
    let payer = Pubkey::new([1u8; 32]);
    let receiver = Pubkey::new([2u8; 32]);
    let fee_pool = Pubkey::new([3u8; 32]);
    let staking = Pubkey::new([4u8; 32]);
    {
        let mut s = open(&db).unwrap();
        s.set(payer, sample_account(1000));
        s.set(receiver, sample_account(0));
        s.set(fee_pool, sample_account(0));
        s.set(staking, sample_account(0));
        s.put_meta("next_round", 1u64.to_le_bytes().to_vec());
        flush(&db, &mut s);
    }
    {
        let mut s = open(&db).unwrap();
        s.set(payer, sample_account(900));
        s.set(receiver, sample_account(90));
        s.set(fee_pool, sample_account(10));
        s.set(staking, sample_account(5));
        s.put_meta("next_round", 2u64.to_le_bytes().to_vec());
    }
    let r = open(&db).unwrap();
    assert_eq!(r.get(&payer), Some(sample_account(1000)), "payer must NOT be debited by the uncommitted round");
    assert_eq!(r.get(&receiver), Some(sample_account(0)), "receiver must NOT be credited");
    assert_eq!(r.get(&fee_pool), Some(sample_account(0)));
    assert_eq!(r.get(&staking), Some(sample_account(0)));
    assert_eq!(r.get_meta("next_round"), Some(1u64.to_le_bytes().to_vec()), "the round must NOT have advanced without its state");
}

#[test]
fn redb_a_committed_round_restores_state_and_round_together() {
    let db = memory();
    let payer = Pubkey::new([1u8; 32]);
    let receiver = Pubkey::new([2u8; 32]);
    {
        let mut s = open(&db).unwrap();
        s.set(payer, sample_account(900));
        s.set(receiver, sample_account(90));
        s.put_meta("next_round", 7u64.to_le_bytes().to_vec());
        s.put_meta("economics", vec![1, 2, 3, 4]);
        flush(&db, &mut s);
    }
    let r = open(&db).unwrap();
    assert_eq!(r.get(&payer), Some(sample_account(900)));
    assert_eq!(r.get(&receiver), Some(sample_account(90)));
    assert_eq!(r.get_meta("next_round"), Some(7u64.to_le_bytes().to_vec()));
    assert_eq!(r.get_meta("economics"), Some(vec![1, 2, 3, 4]));
}

#[test]
fn redb_kill_at_each_stage_of_a_round_always_recovers_the_last_committed_round() {
    let db = memory();
    let payer = Pubkey::new([1u8; 32]);
    let receiver = Pubkey::new([2u8; 32]);
    {
        let mut s = open(&db).unwrap();
        s.set(payer, sample_account(500));
        s.put_meta("next_round", 0u64.to_le_bytes().to_vec());
        flush(&db, &mut s);
    }
    for stage in 0..3u8 {
        {
            let mut s = open(&db).unwrap();
            s.set(payer, sample_account(400));
            if stage >= 1 {
                s.set(receiver, sample_account(100));
            }
            if stage >= 2 {
                s.put_meta("next_round", 1u64.to_le_bytes().to_vec());
            }
        }
        let r = open(&db).unwrap();
        assert_eq!(r.get(&payer), Some(sample_account(500)), "stage {stage}: payer must be the committed baseline");
        assert!(r.get(&receiver).is_none(), "stage {stage}: receiver write must not leak to disk");
        assert_eq!(r.get_meta("next_round"), Some(0u64.to_le_bytes().to_vec()), "stage {stage}: round must not advance");
    }
}

#[test]
fn redb_open_rejects_a_corrupt_account_value() {
    let db = memory();
    {
        let wtx = db.begin_write().unwrap();
        {
            let mut t = wtx.open_table(ACCOUNTS).unwrap();
            t.insert([9u8; 32].as_slice(), b"not a borsh account".as_slice()).unwrap();
        }
        wtx.commit().unwrap();
    }
    let fault = match open(&db) {
        Ok(_) => panic!("a corrupt value must make open fail, not succeed"),
        Err(e) => e,
    };
    let text = fault.message("redb state database", "/data/state.redb");
    assert!(text.contains("corrupt redb state database"), "must name the corruption, got: {text}");
}

#[test]
fn redb_log_generate_id_insert_get_iter_remove_roundtrip() {
    let db = memory();
    let keys_of = |db: &redb::Database| -> Vec<Vec<u8>> { rows(db, LOG).into_iter().map(|(k, _)| k).collect() };
    let committed = |db: &redb::Database, key: &[u8]| -> Option<Vec<u8>> {
        rows(db, LOG).into_iter().find(|(k, _)| k.as_slice() == key).map(|(_, v)| v)
    };
    let commit = |db: &redb::Database, log: &mut RedbLog| {
        let wtx = db.begin_write().unwrap();
        {
            let mut t = wtx.open_table(LOG).unwrap();
            for (k, v) in log.pending() {
                match v {
                    Some(v) => {
                        t.insert(k.as_slice(), v.as_slice()).unwrap();
                    }
                    None => {
                        t.remove(k.as_slice()).unwrap();
                    }
                }
            }
        }
        wtx.commit().unwrap();
        log.flush(Ok(()));
    };
    let mut log = RedbLog::open(&keys_of(&db));
    let mut keys = Vec::new();
    for i in 0..10u64 {
        let id = log.generate_id();
        log.insert(&id, vec![i as u8; 4]);
        keys.push(id);
    }
    assert_eq!(log.get(&keys[3], committed(&db, &keys[3])), Some(vec![3u8; 4]));
    commit(&db, &mut log);
    drop(log);
    let mut log = RedbLog::open(&keys_of(&db));
    let all = rows(&db, LOG);
    assert_eq!(all.len(), 10);
    assert_eq!(all[0].0, keys[0], "iteration is oldest-first (monotonic key order)");
    assert_eq!(all[9].0, keys[9]);
    let next = log.generate_id();
    assert_eq!(u64::from_be_bytes(next), 10);
    log.remove(&keys[0]);
    commit(&db, &mut log);
    assert!(log.get(&keys[0], committed(&db, &keys[0])).is_none());
    let rtx = db.begin_read().unwrap();
    assert_eq!(rtx.open_table(LOG).unwrap().len().unwrap(), 9);
}

#[test]
fn redb_and_sled_hold_identical_state_for_the_same_writes() {
    let db = memory();
    let mut sled = SledStore::temporary();
    let mut redb = open(&db).unwrap();
    let key = |i: u32| {
        let mut b = [0u8; 32];
        b[..4].copy_from_slice(&i.to_le_bytes());
        Pubkey::new(b)
    };
    for i in 0..500u32 {
        let acct = sample_account((i as u64 + 1) * 13);
        sled.set(key(i), acct.clone());
        redb.set(key(i), acct);
    }
    for i in (0..500u32).step_by(50) {
        if i % 100 == 0 {
            sled.remove(&key(i));
            redb.remove(&key(i));
        } else {
            sled.set(key(i), sample_account(999));
            redb.set(key(i), sample_account(999));
        }
    }
    let mut s = sled.listed();
    let mut r = redb.iter();
    s.sort_by_key(|(k, _)| k.to_bytes());
    r.sort_by_key(|(k, _)| k.to_bytes());
    assert_eq!(s, r, "sled and redb must hold identical state for identical writes");
}

#[test]
fn the_tree_over_a_disk_store_is_the_one_over_the_same_accounts() {
    let tree = StateTree::new();
    let mut disk = RedbStore::open(&vec![], &vec![]).unwrap();
    assert_eq!(disk.state_root(&tree), tree.empty_root());
    let mut memory = InMemoryStore::new();
    for n in 1..6u8 {
        disk.set(Pubkey::new([n; 32]), sample_account(n as u64));
        memory.set(Pubkey::new([n; 32]), sample_account(n as u64));
    }
    disk.remove(&Pubkey::new([2u8; 32]));
    memory.remove(&Pubkey::new([2u8; 32]));
    let root = tree.root(&memory);
    assert_eq!(disk.state_root(&tree), root);
    assert_eq!(tree.root_of_entries(&disk.iter()), root);
    for n in [1u8, 2, 77] {
        let key = Pubkey::new([n; 32]);
        let proof = disk.state_proof(&tree, &key);
        assert_eq!(proof, tree.prove(&memory, &key));
        assert_eq!(proof, tree.prove_entries(&disk.iter(), &key));
        assert!(verify_proof(root, &proof, tree.empty_leaf_hash()));
        assert_eq!(proof.leaf_value_hash.is_some(), n == 1);
    }
}

#[test]
fn a_failed_commit_keeps_every_mark() {
    let mut store = RedbStore::open(&vec![], &vec![]).unwrap();
    store.set(Pubkey::new([1u8; 32]), sample_account(1));
    store.put_meta("round", vec![1]);
    assert_eq!(store.pending_writes().len(), 2);
    assert!(store.flush(Err(StoreError { message: "disk full".to_string() })).is_err());
    assert_eq!(store.pending_writes().len(), 2);
    assert!(store.flush(Ok(())).is_ok());
    assert!(store.pending_writes().is_empty());
    assert!(store.flush(Err(StoreError { message: "disk full".to_string() })).is_ok(), "nothing to write");
    assert!(store.supports_atomic_meta() && store.needs_periodic_flush());
}

#[test]
fn a_short_key_and_a_key_that_is_no_text_are_named() {
    let fault = RedbStore::open(&vec![(vec![1, 2, 3], vec![])], &vec![]).err().unwrap();
    assert_eq!(fault, Corruption::KeyLength(3));
    assert_eq!(fault.message("state database", "/d"), "corrupt state database at /d: a key is 3 bytes, expected a 32-byte address");
    assert_eq!(RedbStore::open(&vec![], &vec![(vec![0xFF], vec![])]).err(), Some(Corruption::MetaKey));
}

#[test]
fn a_failed_log_commit_keeps_the_buffer_and_newer_writes_hide_older_ones() {
    let mut log = RedbLog::open(&vec![5u64.to_be_bytes().to_vec(), vec![1, 2, 3]]);
    assert_eq!(log.generate_id(), 6u64.to_be_bytes());
    log.insert(b"k", vec![1]);
    log.insert(b"k", vec![2]);
    assert_eq!(log.get(b"k", Some(vec![9])), Some(vec![2]));
    log.remove(b"k");
    assert_eq!(log.get(b"k", Some(vec![9])), None);
    assert_eq!(log.get(b"other", Some(vec![9])), Some(vec![9]));
    log.flush(Err(StoreError { message: "full".to_string() }));
    assert_eq!(log.pending().len(), 3);
    log.flush(Ok(()));
    assert!(log.pending().is_empty());
}
