//! Accounts in memory beside a database: what is read when it is opened, and what is
//! written when a round is committed.
use crate::codec::array_at;
use crate::keymap::KeyMap;
use crate::pubkey::Pubkey;
use crate::state_account::{
    account_bytes, account_of, encodable, is_account, law_account_round_trip, StateAccount,
    StateAccountData,
};
use crate::store::{account_data, list_accounts, lists, MetaMap, StoreError};
use crate::text::{decimal, decimal_text, joined, text_from_utf8};
use crate::tree::{
    all_encodable, is_proof_of, law_listed_is_what_was_listed, leaves_of, root_of, MerkleProof,
    StateTree,
};
use vstd::prelude::*;
use vstd::string::*;
use vstd::utf8::*;

verus! {

/// What is wrong with a database.
#[derive(Clone, Copy, Debug, PartialEq, Eq)]
pub enum Corruption {
    /// A key of this many bytes is no address.
    KeyLength(u64),
    /// A value is no account.
    Value,
    /// The key of a metadata value is no text.
    MetaKey,
}

impl Corruption {
    /// What is said about the fault.
    pub open spec fn said(&self, database: Seq<char>, path: Seq<char>) -> Seq<char> {
        match self {
            Corruption::KeyLength(n) => "corrupt "@ + database + " at "@ + path + ": a key is "@
                + decimal(*n as nat) + " bytes, expected a 32-byte address"@,
            Corruption::Value => "corrupt "@ + database + " at "@ + path
                + ": an account value failed to decode - refusing to run on damaged state"@,
            Corruption::MetaKey => "corrupt "@ + database + " at "@ + path
                + ": a metadata key is not text"@,
        }
    }

    /// The fault in words.
    pub fn message(&self, database: &str, path: &str) -> (text: String)
        ensures
            text@ == self.said(database@, path@),
    {
        let named = joined("corrupt ", database);
        let at = joined(named.as_str(), " at ");
        let place = joined(at.as_str(), path);
        match self {
            Corruption::KeyLength(n) => {
                let key = joined(place.as_str(), ": a key is ");
                let counted = joined(key.as_str(), decimal_text(*n).as_str());
                joined(counted.as_str(), " bytes, expected a 32-byte address")
            },
            Corruption::Value => joined(
                place.as_str(),
                ": an account value failed to decode - refusing to run on damaged state",
            ),
            Corruption::MetaKey => joined(place.as_str(), ": a metadata key is not text"),
        }
    }
}

/// A row of a table: a key and a value.
pub type Row = (Vec<u8>, Vec<u8>);

/// The bytes of a row.
pub open spec fn row_data(row: Row) -> (Seq<u8>, Seq<u8>) {
    (row.0@, row.1@)
}

/// What is wrong with a row of the table of accounts.
pub open spec fn row_fault(row: (Seq<u8>, Seq<u8>)) -> Option<Corruption> {
    if row.0.len() != 32 {
        Some(Corruption::KeyLength(row.0.len() as u64))
    } else if !is_account(row.1) {
        Some(Corruption::Value)
    } else {
        None
    }
}

/// `fault` is what is wrong with the first row that is not in order.
pub open spec fn first_fault(rows: Seq<Row>, fault: Corruption) -> bool {
    exists|i: int| is_first_fault(rows, i, fault)
}

/// The rows before `i` are in order, and `fault` is what is wrong with the one at `i`.
pub open spec fn is_first_fault(rows: Seq<Row>, i: int, fault: Corruption) -> bool {
    &&& 0 <= i < rows.len()
    &&& row_fault(row_data(rows[i])) == Some(fault)
    &&& forall|j: int| 0 <= j < i ==> row_fault(row_data(#[trigger] rows[j])) is None
}

/// Every row is in order.
pub open spec fn sound(rows: Seq<Row>) -> bool {
    forall|i: int| 0 <= i < rows.len() ==> row_fault(row_data(#[trigger] rows[i])) is None
}

/// The address that 32 bytes are.
pub open spec fn address_in(bytes: Seq<u8>) -> [u8; 32] {
    choose|k: [u8; 32]| k@ == bytes
}

/// The accounts in rows that are in order; of two with one key the later counts.
pub open spec fn loaded(rows: Seq<Row>) -> Map<[u8; 32], StateAccountData>
    decreases rows.len(),
{
    if rows.len() == 0 {
        Map::empty()
    } else {
        loaded(rows.drop_last()).insert(address_in(rows.last().0@), account_of(rows.last().1@))
    }
}

/// The metadata in rows whose keys are texts.
pub open spec fn loaded_meta(rows: Seq<Row>) -> Map<Seq<char>, Seq<u8>>
    decreases rows.len(),
{
    if rows.len() == 0 {
        Map::empty()
    } else {
        loaded_meta(rows.drop_last()).insert(decode_utf8(rows.last().0@), rows.last().1@)
    }
}

/// Every key is a text.
pub open spec fn meta_sound(rows: Seq<Row>) -> bool {
    forall|i: int| 0 <= i < rows.len() ==> valid_utf8((#[trigger] rows[i]).0@)
}

/// The address and the account in a row.
pub fn read_row(row: &Row) -> (entry: Result<(Pubkey, StateAccount), Corruption>)
    ensures
        match entry {
            Ok(e) => row_fault(row_data(*row)) is None && e.0.0@ == row.0@ && e.0.0 == address_in(
                row.0@,
            ) && e.1@ == account_of(row.1@) && encodable(e.1@),
            Err(c) => row_fault(row_data(*row)) == Some(c),
        },
{
    if row.0.len() != 32 {
        return Err(Corruption::KeyLength(row.0.len() as u64));
    }
    match StateAccount::decode(row.1.as_slice()) {
        None => Err(Corruption::Value),
        Some(a) => {
            let key: [u8; 32] = array_at(row.0.as_slice(), 0);
            proof {
                assert(row.0@.subrange(0, 32) =~= row.0@);
                assert(address_in(row.0@) =~= key);
            }
            Ok((Pubkey(key), a))
        },
    }
}

/// Whether every row of a table of accounts is in order.
pub fn check_rows(rows: &Vec<Row>) -> (checked: Result<(), Corruption>)
    ensures
        match checked {
            Ok(_) => sound(rows@),
            Err(c) => first_fault(rows@, c),
        },
{
    let mut i: usize = 0;
    while i < rows.len()
        invariant
            i <= rows@.len(),
            forall|j: int| 0 <= j < i ==> row_fault(row_data(#[trigger] rows@[j])) is None,
        decreases rows@.len() - i,
    {
        match read_row(&rows[i]) {
            Ok(_) => {},
            Err(c) => {
                proof {
                    assert(is_first_fault(rows@, i as int, c));
                }
                return Err(c);
            },
        }
        i += 1;
    }
    Ok(())
}

/// One change of the database.
#[derive(Debug)]
pub enum Write {
    /// The account under an address is written.
    PutAccount([u8; 32], Vec<u8>),
    /// The account under an address is dropped.
    DropAccount([u8; 32]),
    /// A metadata value is written.
    PutMeta(String, Vec<u8>),
}

/// What a change does.
pub enum WriteData {
    PutAccount([u8; 32], Seq<u8>),
    DropAccount([u8; 32]),
    PutMeta(Seq<char>, Seq<u8>),
}

impl Write {
    /// What the change does.
    pub open spec fn view(&self) -> WriteData {
        match self {
            Write::PutAccount(key, value) => WriteData::PutAccount(*key, value@),
            Write::DropAccount(key) => WriteData::DropAccount(*key),
            Write::PutMeta(name, value) => WriteData::PutMeta(name@, value@),
        }
    }
}

/// What the changes do.
pub open spec fn writes_data(writes: Seq<Write>) -> Seq<WriteData> {
    writes.map_values(|w: Write| w@)
}

/// What a database holds.
#[verifier::ext_equal]
pub ghost struct Disk {
    pub accounts: Map<[u8; 32], Seq<u8>>,
    pub meta: Map<Seq<char>, Seq<u8>>,
}

/// The database after one change.
pub open spec fn written(disk: Disk, w: WriteData) -> Disk {
    match w {
        WriteData::PutAccount(key, value) => Disk {
            accounts: disk.accounts.insert(key, value),
            meta: disk.meta,
        },
        WriteData::DropAccount(key) => Disk {
            accounts: disk.accounts.remove(key),
            meta: disk.meta,
        },
        WriteData::PutMeta(name, value) => Disk {
            accounts: disk.accounts,
            meta: disk.meta.insert(name, value),
        },
    }
}

/// The database after all changes, one after the other.
pub open spec fn all_written(disk: Disk, ws: Seq<WriteData>) -> Disk
    decreases ws.len(),
{
    if ws.len() == 0 {
        disk
    } else {
        written(all_written(disk, ws.drop_last()), ws.last())
    }
}

/// What a store holds: the accounts, the addresses that were touched since the last commit,
/// the metadata, and the part of it that was staged since.
#[verifier::ext_equal]
pub ghost struct Buffered {
    pub accounts: Map<[u8; 32], StateAccountData>,
    pub dirty: Set<[u8; 32]>,
    pub meta: Map<Seq<char>, Seq<u8>>,
    pub staged: Map<Seq<char>, Seq<u8>>,
}

/// What the database holds under an address is what the store holds there.
pub open spec fn agree_at(disk: Disk, b: Buffered, key: [u8; 32]) -> bool {
    if b.accounts.contains_key(key) {
        disk.accounts.contains_key(key) && disk.accounts[key] == account_bytes(b.accounts[key])
    } else {
        !disk.accounts.contains_key(key)
    }
}

/// What the database holds under a name is what the store holds there.
pub open spec fn agree_on(disk: Disk, b: Buffered, name: Seq<char>) -> bool {
    if b.meta.contains_key(name) {
        disk.meta.contains_key(name) && disk.meta[name] == b.meta[name]
    } else {
        !disk.meta.contains_key(name)
    }
}

/// The database lags behind the store by no more than what is marked.
pub open spec fn in_step(disk: Disk, b: Buffered) -> bool {
    &&& forall|key: [u8; 32]| !b.dirty.contains(key) ==> #[trigger] agree_at(disk, b, key)
    &&& forall|name: Seq<char>| !b.staged.contains_key(name) ==> #[trigger] agree_on(disk, b, name)
}

/// The database holds what the store holds.
pub open spec fn agree(disk: Disk, b: Buffered) -> bool {
    &&& forall|key: [u8; 32]| #[trigger] agree_at(disk, b, key)
    &&& forall|name: Seq<char>| #[trigger] agree_on(disk, b, name)
}

/// The changes bring a database that lags behind up to date: for each touched address the
/// account that the store has there, or its absence, and all staged metadata.
pub open spec fn brings_up_to_date(ws: Seq<WriteData>, b: Buffered) -> bool {
    &&& forall|i: int|
        0 <= i < ws.len() ==> match #[trigger] ws[i] {
            WriteData::PutAccount(key, value) => b.dirty.contains(key) && b.accounts.contains_key(
                key,
            ) && value == account_bytes(b.accounts[key]),
            WriteData::DropAccount(key) => b.dirty.contains(key) && !b.accounts.contains_key(key),
            WriteData::PutMeta(name, value) => b.staged.contains_key(name) && value
                == b.staged[name],
        }
    &&& forall|key: [u8; 32]| #[trigger]
        b.dirty.contains(key) ==> exists|i: int| 0 <= i < ws.len() && touches(#[trigger] ws[i], key)
    &&& forall|name: Seq<char>| #[trigger]
        b.staged.contains_key(name) ==> exists|i: int|
            0 <= i < ws.len() && names(#[trigger] ws[i], name)
}

/// The change is of the account under `key`.
pub open spec fn touches(w: WriteData, key: [u8; 32]) -> bool {
    match w {
        WriteData::PutAccount(k, value) => k == key,
        WriteData::DropAccount(k) => k == key,
        WriteData::PutMeta(name, value) => false,
    }
}

/// The change is of the metadata under `name`.
pub open spec fn names(w: WriteData, name: Seq<char>) -> bool {
    match w {
        WriteData::PutMeta(n, value) => n == name,
        _ => false,
    }
}

/// Accounts and metadata in memory, with a mark on what the database does not hold yet.
pub struct RedbStore {
    mem: KeyMap<StateAccount>,
    dirty: KeyMap<bool>,
    meta: MetaMap,
    staged: MetaMap,
}

impl RedbStore {
    /// What the store holds.
    pub closed spec fn view(&self) -> Buffered {
        Buffered {
            accounts: account_data(self.mem@),
            dirty: self.dirty@.dom(),
            meta: self.meta@,
            staged: self.staged@,
        }
    }

    /// The store is in a state that its methods leave behind.
    pub closed spec fn wf(&self) -> bool {
        &&& self.mem.wf()
        &&& self.dirty.wf()
        &&& self.meta.wf()
        &&& self.staged.wf()
        &&& forall|name: Seq<char>| #[trigger]
            self.staged@.contains_key(name) ==> self.meta@.contains_key(name)
                && self.meta@[name] == self.staged@[name]
    }

    /// What is staged is part of the metadata.
    pub proof fn law_staged_is_metadata(&self)
        requires
            self.wf(),
        ensures
            forall|name: Seq<char>| #[trigger]
                self@.staged.contains_key(name) ==> self@.meta.contains_key(name)
                    && self@.meta[name] == self@.staged[name],
    {
    }

    /// The store of a database whose tables hold these rows, where they are in order.
    pub fn open(accounts: &Vec<Row>, meta: &Vec<Row>) -> (store: Result<Self, Corruption>)
        ensures
            match store {
                Ok(s) => {
                    &&& sound(accounts@)
                    &&& meta_sound(meta@)
                    &&& s.wf()
                    &&& s@ == (Buffered {
                        accounts: loaded(accounts@),
                        dirty: Set::empty(),
                        meta: loaded_meta(meta@),
                        staged: Map::empty(),
                    })
                },
                Err(Corruption::MetaKey) => sound(accounts@) && !meta_sound(meta@),
                Err(c) => first_fault(accounts@, c),
            },
    {
        let mut mem: KeyMap<StateAccount> = KeyMap::new();
        let mut i: usize = 0;
        proof {
            assert(account_data(mem@) =~= loaded(accounts@.take(0)));
        }
        while i < accounts.len()
            invariant
                i <= accounts@.len(),
                mem.wf(),
                account_data(mem@) == loaded(accounts@.take(i as int)),
                forall|j: int| 0 <= j < i ==> row_fault(row_data(#[trigger] accounts@[j])) is None,
            decreases accounts@.len() - i,
        {
            match read_row(&accounts[i]) {
                Err(c) => {
                    proof {
                        assert(is_first_fault(accounts@, i as int, c));
                    }
                    return Err(c);
                },
                Ok(entry) => {
                    let (key, account) = entry;
                    let ghost before = mem@;
                    let ghost data = account@;
                    mem.insert(key.0, account);
                    proof {
                        let t = accounts@.take(i + 1);
                        assert(t.drop_last() =~= accounts@.take(i as int));
                        assert(t.last() == accounts@[i as int]);
                        assert(account_data(mem@) =~= account_data(before).insert(key.0, data));
                    }
                },
            }
            i += 1;
        }
        proof {
            assert(accounts@.take(accounts@.len() as int) =~= accounts@);
        }
        let mut values: MetaMap = MetaMap::new();
        let mut j: usize = 0;
        proof {
            assert(values@ =~= loaded_meta(meta@.take(0)));
        }
        while j < meta.len()
            invariant
                j <= meta@.len(),
                sound(accounts@),
                values.wf(),
                values@ == loaded_meta(meta@.take(j as int)),
                forall|k: int| 0 <= k < j ==> valid_utf8((#[trigger] meta@[k]).0@),
            decreases meta@.len() - j,
        {
            let key = meta[j].0.clone();
            let value = meta[j].1.clone();
            proof {
                assert(key@ =~= meta@[j as int].0@);
                assert(value@ =~= meta@[j as int].1@);
            }
            match text_from_utf8(key) {
                None => {
                    return Err(Corruption::MetaKey);
                },
                Some(name) => {
                    values.insert(name.as_str(), value);
                    proof {
                        encode_utf8_decode_utf8(name@);
                        encode_utf8_valid_utf8(name@);
                        let t = meta@.take(j + 1);
                        assert(t.drop_last() =~= meta@.take(j as int));
                        assert(t.last() == meta@[j as int]);
                    }
                },
            }
            j += 1;
        }
        let store = RedbStore { mem, dirty: KeyMap::new(), meta: values, staged: MetaMap::new() };
        proof {
            assert(meta@.take(meta@.len() as int) =~= meta@);
            assert(store@.dirty =~= Set::<[u8; 32]>::empty());
        }
        Ok(store)
    }

    /// How many accounts there are.
    pub fn len(&self) -> (n: usize)
        requires
            self.wf(),
        ensures
            n == self@.accounts.dom().len(),
    {
        proof {
            self.mem.lemma_listed();
            assert(self@.accounts.dom() =~= self.mem@.dom());
        }
        self.mem.len()
    }

    /// Whether there are no accounts.
    pub fn is_empty(&self) -> (empty: bool)
        requires
            self.wf(),
        ensures
            empty == (self@.accounts.dom().len() == 0),
    {
        self.len() == 0
    }

    /// A copy of the account under `key`.
    pub fn get(&self, key: &Pubkey) -> (account: Option<StateAccount>)
        requires
            self.wf(),
        ensures
            match account {
                Some(a) => self@.accounts.contains_key(key.0) && a@ == self@.accounts[key.0],
                None => !self@.accounts.contains_key(key.0),
            },
    {
        match self.mem.get(&key.0) {
            Some(a) => Some(a.clone()),
            None => None,
        }
    }

    /// Puts `account` under `key`.
    pub fn set(&mut self, key: Pubkey, account: StateAccount)
        requires
            old(self).wf(),
        ensures
            final(self).wf(),
            final(self)@ == (Buffered {
                accounts: old(self)@.accounts.insert(key.0, account@),
                dirty: old(self)@.dirty.insert(key.0),
                ..old(self)@
            }),
    {
        let ghost before = self@;
        let ghost data = account@;
        self.mem.insert(key.0, account);
        self.dirty.insert(key.0, true);
        proof {
            assert(self@.accounts =~= before.accounts.insert(key.0, data));
            assert(self@.dirty =~= before.dirty.insert(key.0));
        }
    }

    /// Takes the account under `key` out.
    pub fn remove(&mut self, key: &Pubkey)
        requires
            old(self).wf(),
        ensures
            final(self).wf(),
            final(self)@ == (Buffered {
                accounts: old(self)@.accounts.remove(key.0),
                dirty: old(self)@.dirty.insert(key.0),
                ..old(self)@
            }),
    {
        let ghost before = self@;
        self.mem.remove(&key.0);
        self.dirty.insert(key.0, true);
        proof {
            assert(self@.accounts =~= before.accounts.remove(key.0));
            assert(self@.dirty =~= before.dirty.insert(key.0));
        }
    }

    /// Every account with its address, in ascending order of the addresses.
    pub fn iter(&self) -> (entries: Vec<(Pubkey, StateAccount)>)
        requires
            self.wf(),
        ensures
            lists(entries@, self@.accounts),
            forall|i: int, j: int|
                0 <= i < j < entries@.len() ==> crate::keymap::key_lt(
                    (#[trigger] entries@[i]).0.0,
                    (#[trigger] entries@[j]).0.0,
                ),
    {
        list_accounts(&self.mem)
    }

    /// The root of the state tree over all accounts.
    pub fn state_root(&self, tree: &StateTree) -> (root: [u8; 32])
        requires
            self.wf(),
            tree.wf(),
            all_encodable(self@.accounts),
        ensures
            root == root_of(leaves_of(self@.accounts)),
    {
        let entries = self.iter();
        proof {
            law_listed_is_what_was_listed(entries@, self@.accounts);
        }
        tree.root_of_entries(&entries)
    }

    /// The proof of the state tree for `key`.
    pub fn state_proof(&self, tree: &StateTree, key: &Pubkey) -> (proof: MerkleProof)
        requires
            self.wf(),
            tree.wf(),
            all_encodable(self@.accounts),
        ensures
            is_proof_of(proof, leaves_of(self@.accounts), key.0),
    {
        let entries = self.iter();
        proof {
            law_listed_is_what_was_listed(entries@, self@.accounts);
        }
        tree.prove_entries(&entries, key)
    }

    /// Stages a metadata value for the next commit.
    pub fn put_meta(&mut self, key: &str, value: Vec<u8>)
        requires
            old(self).wf(),
        ensures
            final(self).wf(),
            final(self)@ == (Buffered {
                meta: old(self)@.meta.insert(key@, value@),
                staged: old(self)@.staged.insert(key@, value@),
                ..old(self)@
            }),
    {
        let copy = value.clone();
        proof {
            assert(copy@ =~= value@);
        }
        self.meta.insert(key, value);
        self.staged.insert(key, copy);
    }

    /// The metadata value under `key`.
    pub fn get_meta(&self, key: &str) -> (value: Option<Vec<u8>>)
        requires
            self.wf(),
        ensures
            match value {
                Some(v) => self@.meta.contains_key(key@) && v@ == self@.meta[key@],
                None => !self@.meta.contains_key(key@),
            },
    {
        self.meta.get(key)
    }

    /// Metadata is written together with the accounts, all or nothing.
    pub fn supports_atomic_meta(&self) -> (yes: bool)
        ensures
            yes,
    {
        true
    }

    /// The store has to be flushed after every round.
    pub fn needs_periodic_flush(&self) -> (yes: bool)
        ensures
            yes,
    {
        true
    }

    /// The changes that one transaction has to make.
    pub fn pending_writes(&self) -> (writes: Vec<Write>)
        requires
            self.wf(),
            forall|k: [u8; 32]| #[trigger]
                self@.accounts.contains_key(k) ==> encodable(self@.accounts[k]),
        ensures
            brings_up_to_date(writes_data(writes@), self@),
            writes@.len() == 0 <==> self@.dirty =~= Set::empty() && self@.staged =~= Map::empty(),
    {
        let mut writes: Vec<Write> = Vec::new();
        let n: usize = self.dirty.len();
        let mut i: usize = 0;
        let ghost b = self@;
        proof {
            self.dirty.lemma_listed();
        }
        while i < n
            invariant
                i <= n == self.dirty.listed().len(),
                self.wf(),
                b == self@,
                forall|k: [u8; 32]| #[trigger]
                    b.accounts.contains_key(k) ==> encodable(b.accounts[k]),
                forall|j: int| 0 <= j < n ==> b.dirty.contains((#[trigger] self.dirty.listed()[j]).0),
                writes@.len() == i,
                forall|j: int|
                    0 <= j < i ==> match (#[trigger] writes@[j])@ {
                        WriteData::PutAccount(key, value) => key == self.dirty.listed()[j].0
                            && b.accounts.contains_key(key) && value == account_bytes(
                            b.accounts[key],
                        ),
                        WriteData::DropAccount(key) => key == self.dirty.listed()[j].0
                            && !b.accounts.contains_key(key),
                        WriteData::PutMeta(name, value) => false,
                    },
            decreases n - i,
        {
            let key: [u8; 32] = self.dirty.entry(i).0;
            match self.mem.get(&key) {
                Some(a) => {
                    proof {
                        assert(b.accounts.contains_key(key));
                        assert(b.accounts[key] == a@);
                    }
                    writes.push(Write::PutAccount(key, a.encode()));
                },
                None => {
                    writes.push(Write::DropAccount(key));
                },
            }
            i += 1;
        }
        let m: usize = self.staged.len();
        let mut j: usize = 0;
        let ghost accounts = writes@;
        proof {
            self.staged.lemma_listed();
        }
        while j < m
            invariant
                j <= m == self.staged.listed().len(),
                self.wf(),
                b == self@,
                n == accounts.len(),
                writes@.len() == n + j,
                writes@.take(n as int) == accounts,
                forall|k: int|
                    n <= k < n + j ==> (#[trigger] writes@[k])@ == WriteData::PutMeta(
                        self.staged.listed()[k - n].0,
                        self.staged.listed()[k - n].1,
                    ),
            decreases m - j,
        {
            let (name, value) = self.staged.entry(j);
            let ghost before = writes@;
            writes.push(Write::PutMeta(name, value));
            proof {
                assert(writes@.take(n as int) =~= before.take(n as int));
            }
            j += 1;
        }
        proof {
            let ws = writes_data(writes@);
            self.dirty.lemma_listed();
            self.staged.lemma_listed();
            assert forall|i: int| 0 <= i < ws.len() implies match #[trigger] ws[i] {
                WriteData::PutAccount(key, value) => b.dirty.contains(key)
                    && b.accounts.contains_key(key) && value == account_bytes(b.accounts[key]),
                WriteData::DropAccount(key) => b.dirty.contains(key) && !b.accounts.contains_key(
                    key,
                ),
                WriteData::PutMeta(name, value) => b.staged.contains_key(name) && value
                    == b.staged[name],
            } by {
                if i < n {
                    assert(writes@.take(n as int)[i] == writes@[i]);
                    assert(accounts[i]@ == ws[i]);
                } else {
                    let k = i - n;
                    assert(writes@[i]@ == ws[i]);
                    assert(self.staged@.contains_key(self.staged.listed()[k].0));
                }
            }
            assert forall|key: [u8; 32]| #[trigger] b.dirty.contains(key) implies exists|i: int|
                0 <= i < ws.len() && touches(#[trigger] ws[i], key) by {
                let l = self.dirty.listed();
                assert(self.dirty@.contains_key(key));
                let x = choose|x: int| 0 <= x < l.len() && #[trigger] l[x].0 == key;
                assert(writes@.take(n as int)[x] == writes@[x]);
                assert(accounts[x]@ == ws[x]);
                assert(touches(ws[x], key));
            }
            assert forall|name: Seq<char>| #[trigger] b.staged.contains_key(name) implies exists|
                i: int,
            | 0 <= i < ws.len() && names(#[trigger] ws[i], name) by {
                let l = self.staged.listed();
                let x = choose|x: int| 0 <= x < l.len() && (#[trigger] l[x]).0 == name;
                assert(writes@[n + x]@ == ws[n + x]);
                assert(names(ws[n + x], name));
            }
            if writes@.len() == 0 {
                assert(self@.dirty =~= Set::empty());
                assert(self@.staged =~= Map::empty());
            } else if ws[0] is PutMeta {
                assert(b.staged.contains_key(ws[0]->PutMeta_0));
            }
        }
        writes
    }

    /// Takes note of how the transaction with the pending changes ended. Where there was
    /// nothing to write, that does not matter; where it failed, all marks stay.
    pub fn flush(&mut self, committed: Result<(), StoreError>) -> (done: Result<(), StoreError>)
        requires
            old(self).wf(),
        ensures
            final(self).wf(),
            ({
                let clean = old(self)@.dirty =~= Set::empty() && old(self)@.staged =~= Map::empty();
                &&& done is Ok <==> clean || committed is Ok
                &&& done is Err ==> done == committed && final(self)@ == old(self)@
                &&& done is Ok ==> final(self)@ == (Buffered {
                    dirty: Set::empty(),
                    staged: Map::empty(),
                    ..old(self)@
                })
            }),
    {
        proof {
            self.dirty.lemma_listed();
            self.staged.lemma_listed();
            if self.dirty.listed().len() > 0 {
                assert(self@.dirty.contains(self.dirty.listed()[0].0));
            }
            if self.staged.listed().len() > 0 {
                assert(self@.staged.contains_key(self.staged.listed()[0].0));
            }
        }
        if self.dirty.len() == 0 && self.staged.len() == 0 {
            proof {
                assert(self@.dirty =~= Set::empty());
                assert(self@.staged =~= Map::empty());
            }
            return Ok(());
        }
        match committed {
            Err(e) => Err(e),
            Ok(_) => {
                self.dirty = KeyMap::new();
                self.staged = MetaMap::new();
                proof {
                    assert(self@.dirty =~= Set::empty());
                }
                Ok(())
            },
        }
    }
}

/// What was changed last under an address decides what the database holds there.
proof fn lemma_written_account(disk: Disk, ws: Seq<WriteData>, b: Buffered, key: [u8; 32])
    requires
        forall|i: int|
            0 <= i < ws.len() ==> match #[trigger] ws[i] {
                WriteData::PutAccount(k, value) => b.accounts.contains_key(k) && value
                    == account_bytes(b.accounts[k]),
                WriteData::DropAccount(k) => !b.accounts.contains_key(k),
                WriteData::PutMeta(name, value) => true,
            },
    ensures
        if exists|i: int| 0 <= i < ws.len() && touches(#[trigger] ws[i], key) {
            agree_at(all_written(disk, ws), b, key)
        } else {
            all_written(disk, ws).accounts.contains_key(key) == disk.accounts.contains_key(key)
                && all_written(disk, ws).accounts[key] == disk.accounts[key]
        },
    decreases ws.len(),
{
    if ws.len() > 0 {
        let t = ws.drop_last();
        assert forall|i: int| 0 <= i < t.len() implies match #[trigger] t[i] {
            WriteData::PutAccount(k, value) => b.accounts.contains_key(k) && value
                == account_bytes(b.accounts[k]),
            WriteData::DropAccount(k) => !b.accounts.contains_key(k),
            WriteData::PutMeta(name, value) => true,
        } by {
            assert(t[i] == ws[i]);
        }
        lemma_written_account(disk, t, b, key);
        let last = ws[ws.len() - 1];
        if !touches(last, key) {
            if exists|i: int| 0 <= i < ws.len() && touches(#[trigger] ws[i], key) {
                let i = choose|i: int| 0 <= i < ws.len() && touches(#[trigger] ws[i], key);
                assert(touches(t[i], key));
            } else {
                assert forall|i: int| 0 <= i < t.len() implies !touches(#[trigger] t[i], key) by {
                    assert(t[i] == ws[i]);
                }
            }
        }
    }
}

/// What was written last under a name decides what the database holds there.
proof fn lemma_written_meta(disk: Disk, ws: Seq<WriteData>, b: Buffered, name: Seq<char>)
    requires
        forall|i: int|
            0 <= i < ws.len() ==> match #[trigger] ws[i] {
                WriteData::PutMeta(n, value) => b.staged.contains_key(n) && value == b.staged[n],
                _ => true,
            },
    ensures
        if exists|i: int| 0 <= i < ws.len() && names(#[trigger] ws[i], name) {
            all_written(disk, ws).meta.contains_key(name) && all_written(disk, ws).meta[name]
                == b.staged[name]
        } else {
            all_written(disk, ws).meta.contains_key(name) == disk.meta.contains_key(name)
                && all_written(disk, ws).meta[name] == disk.meta[name]
        },
    decreases ws.len(),
{
    if ws.len() > 0 {
        let t = ws.drop_last();
        assert forall|i: int| 0 <= i < t.len() implies match #[trigger] t[i] {
            WriteData::PutMeta(n, value) => b.staged.contains_key(n) && value == b.staged[n],
            _ => true,
        } by {
            assert(t[i] == ws[i]);
        }
        lemma_written_meta(disk, t, b, name);
        let last = ws[ws.len() - 1];
        if !names(last, name) {
            if exists|i: int| 0 <= i < ws.len() && names(#[trigger] ws[i], name) {
                let i = choose|i: int| 0 <= i < ws.len() && names(#[trigger] ws[i], name);
                assert(names(t[i], name));
            } else {
                assert forall|i: int| 0 <= i < t.len() implies !names(#[trigger] t[i], name) by {
                    assert(t[i] == ws[i]);
                }
            }
        }
    }
}

/// A commit makes the database hold exactly what the store holds: the accounts and the
/// metadata of one round, together.
pub proof fn law_commit_brings_the_disk_up_to_date(disk: Disk, b: Buffered, ws: Seq<WriteData>)
    requires
        in_step(disk, b),
        brings_up_to_date(ws, b),
        forall|name: Seq<char>| #[trigger]
            b.staged.contains_key(name) ==> b.meta.contains_key(name) && b.meta[name]
                == b.staged[name],
    ensures
        agree(all_written(disk, ws), b),
{
    let after = all_written(disk, ws);
    assert forall|key: [u8; 32]| #[trigger] agree_at(after, b, key) by {
        lemma_written_account(disk, ws, b, key);
        if !b.dirty.contains(key) {
            assert(agree_at(disk, b, key));
        }
    }
    assert forall|name: Seq<char>| #[trigger] agree_on(after, b, name) by {
        lemma_written_meta(disk, ws, b, name);
        if !b.staged.contains_key(name) {
            assert(agree_on(disk, b, name));
        }
    }
}

/// Between commits the database lags behind by no more than what is marked: putting an
/// account in and taking one out keep it so.
pub proof fn law_writes_stay_in_step(
    disk: Disk,
    b: Buffered,
    key: [u8; 32],
    account: StateAccountData,
    name: Seq<char>,
    value: Seq<u8>,
)
    requires
        in_step(disk, b),
    ensures
        in_step(
            disk,
            (Buffered {
                accounts: b.accounts.insert(key, account),
                dirty: b.dirty.insert(key),
                ..b
            }),
        ),
        in_step(
            disk,
            (Buffered { accounts: b.accounts.remove(key), dirty: b.dirty.insert(key), ..b }),
        ),
        in_step(
            disk,
            (Buffered {
                meta: b.meta.insert(name, value),
                staged: b.staged.insert(name, value),
                ..b
            }),
        ),
{
    let put = Buffered {
        accounts: b.accounts.insert(key, account),
        dirty: b.dirty.insert(key),
        ..b
    };
    let dropped = Buffered { accounts: b.accounts.remove(key), dirty: b.dirty.insert(key), ..b };
    let staged = Buffered {
        meta: b.meta.insert(name, value),
        staged: b.staged.insert(name, value),
        ..b
    };
    assert forall|k: [u8; 32]| !put.dirty.contains(k) implies #[trigger] agree_at(disk, put, k) by {
        assert(agree_at(disk, b, k));
    }
    assert forall|k: [u8; 32]| !dropped.dirty.contains(k) implies #[trigger] agree_at(
        disk,
        dropped,
        k,
    ) by {
        assert(agree_at(disk, b, k));
    }
    assert forall|k: [u8; 32]| !staged.dirty.contains(k) implies #[trigger] agree_at(
        disk,
        staged,
        k,
    ) by {
        assert(agree_at(disk, b, k));
    }
    assert forall|n: Seq<char>| !put.staged.contains_key(n) implies #[trigger] agree_on(
        disk,
        put,
        n,
    ) by {
        assert(agree_on(disk, b, n));
    }
    assert forall|n: Seq<char>| !dropped.staged.contains_key(n) implies #[trigger] agree_on(
        disk,
        dropped,
        n,
    ) by {
        assert(agree_on(disk, b, n));
    }
    assert forall|n: Seq<char>| !staged.staged.contains_key(n) implies #[trigger] agree_on(
        disk,
        staged,
        n,
    ) by {
        assert(agree_on(disk, b, n));
    }
}

/// `rows` lists the accounts of a database, each once.
pub open spec fn lists_disk(rows: Seq<Row>, accounts: Map<[u8; 32], Seq<u8>>) -> bool {
    &&& forall|i: int|
        0 <= i < rows.len() ==> exists|k: [u8; 32]|
            k@ == (#[trigger] rows[i]).0@ && accounts.contains_key(k) && accounts[k] == rows[i].1@
    &&& forall|i: int, j: int|
        0 <= i < j < rows.len() ==> (#[trigger] rows[i]).0@ != (#[trigger] rows[j]).0@
    &&& forall|k: [u8; 32]| #[trigger]
        accounts.contains_key(k) ==> exists|i: int|
            0 <= i < rows.len() && (#[trigger] rows[i]).0@ == k@
}

/// There is an address with these bytes.
spec fn is_address(bytes: Seq<u8>) -> bool {
    exists|k: [u8; 32]| k@ == bytes
}

/// A row's account is loaded, where no later row has its key; and nothing is loaded that no
/// row has.
proof fn lemma_loaded(rows: Seq<Row>, k: [u8; 32])
    requires
        forall|i: int| 0 <= i < rows.len() ==> is_address((#[trigger] rows[i]).0@),
    ensures
        forall|i: int|
            0 <= i < rows.len() && rows[i].0@ == k@ && (forall|j: int|
                i < j < rows.len() ==> (#[trigger] rows[j]).0@ != k@) ==> loaded(rows).contains_key(k)
                && loaded(rows)[k] == account_of((#[trigger] rows[i]).1@),
        loaded(rows).contains_key(k) ==> exists|i: int|
            0 <= i < rows.len() && (#[trigger] rows[i]).0@ == k@,
    decreases rows.len(),
{
    if rows.len() > 0 {
        let t = rows.drop_last();
        let n = rows.len() - 1;
        assert forall|i: int| 0 <= i < t.len() implies is_address((#[trigger] t[i]).0@) by {
            assert(is_address(rows[i].0@));
        }
        lemma_loaded(t, k);
        assert(is_address(rows[n].0@));
        let last = address_in(rows[n].0@);
        assert(last@ == rows[n].0@);
        if rows[n].0@ == k@ {
            assert(last =~= k);
        }
        assert forall|i: int|
            0 <= i < rows.len() && rows[i].0@ == k@ && (forall|j: int|
                i < j < rows.len() ==> (#[trigger] rows[j]).0@ != k@) implies loaded(
            rows,
        ).contains_key(k) && loaded(rows)[k] == account_of((#[trigger] rows[i]).1@) by {
            if i < n {
                assert(rows[n].0@ != k@);
                assert(t[i] == rows[i]);
                assert forall|j: int| i < j < t.len() implies (#[trigger] t[j]).0@ != k@ by {
                    assert(rows[j].0@ != k@);
                }
            }
        }
        if loaded(rows).contains_key(k) {
            if loaded(t).contains_key(k) {
                let i = choose|i: int| 0 <= i < t.len() && (#[trigger] t[i]).0@ == k@;
                assert(rows[i].0@ == k@);
            } else {
                assert(rows[n].0@ == k@);
            }
        }
    }
}

/// A store that is opened on a database that was brought up to date holds the accounts that
/// were there when it was: what a commit wrote is read back.
pub proof fn law_committed_accounts_are_read_back(disk: Disk, b: Buffered, rows: Seq<Row>)
    requires
        agree(disk, b),
        lists_disk(rows, disk.accounts),
        forall|k: [u8; 32]| #[trigger] b.accounts.contains_key(k) ==> encodable(b.accounts[k]),
    ensures
        sound(rows),
        loaded(rows) == b.accounts,
{
    assert forall|i: int| 0 <= i < rows.len() implies is_address((#[trigger] rows[i]).0@) by {}
    assert forall|i: int| 0 <= i < rows.len() implies row_fault(row_data(#[trigger] rows[i])) is None by {
        let k = choose|k: [u8; 32]|
            k@ == rows[i].0@ && disk.accounts.contains_key(k) && disk.accounts[k] == rows[i].1@;
        assert(agree_at(disk, b, k));
        law_account_round_trip(b.accounts[k]);
    }
    assert forall|k: [u8; 32]| #[trigger] loaded(rows).contains_key(k) == b.accounts.contains_key(k) by {
        lemma_loaded(rows, k);
        assert(agree_at(disk, b, k));
        if loaded(rows).contains_key(k) {
            let i = choose|i: int| 0 <= i < rows.len() && (#[trigger] rows[i]).0@ == k@;
            let x = choose|x: [u8; 32]|
                x@ == rows[i].0@ && disk.accounts.contains_key(x) && disk.accounts[x] == rows[i].1@;
            assert(x =~= k);
        }
        if b.accounts.contains_key(k) {
            let i = choose|i: int| 0 <= i < rows.len() && (#[trigger] rows[i]).0@ == k@;
            assert forall|j: int| i < j < rows.len() implies (#[trigger] rows[j]).0@ != k@ by {
                assert(rows[i].0@ != rows[j].0@);
            }
        }
    }
    assert forall|k: [u8; 32]| #[trigger] b.accounts.contains_key(k) implies loaded(rows)[k]
        == b.accounts[k] by {
        lemma_loaded(rows, k);
        assert(agree_at(disk, b, k));
        let i = choose|i: int| 0 <= i < rows.len() && (#[trigger] rows[i]).0@ == k@;
        assert forall|j: int| i < j < rows.len() implies (#[trigger] rows[j]).0@ != k@ by {
            assert(rows[i].0@ != rows[j].0@);
        }
        let x = choose|x: [u8; 32]|
            x@ == rows[i].0@ && disk.accounts.contains_key(x) && disk.accounts[x] == rows[i].1@;
        assert(x =~= k);
        law_account_round_trip(b.accounts[k]);
    }
    assert(loaded(rows) =~= b.accounts);
}

/// `rows` lists the metadata of a database, each name once.
pub open spec fn lists_meta(rows: Seq<Row>, meta: Map<Seq<char>, Seq<u8>>) -> bool {
    &&& forall|i: int|
        0 <= i < rows.len() ==> valid_utf8((#[trigger] rows[i]).0@) && meta.contains_key(
            decode_utf8(rows[i].0@),
        ) && meta[decode_utf8(rows[i].0@)] == rows[i].1@
    &&& forall|name: Seq<char>| #[trigger]
        meta.contains_key(name) ==> exists|i: int|
            0 <= i < rows.len() && decode_utf8((#[trigger] rows[i]).0@) == name
}

proof fn lemma_loaded_meta(rows: Seq<Row>, meta: Map<Seq<char>, Seq<u8>>, name: Seq<char>)
    requires
        forall|i: int|
            0 <= i < rows.len() ==> meta.contains_key(decode_utf8((#[trigger] rows[i]).0@))
                && meta[decode_utf8(rows[i].0@)] == rows[i].1@,
    ensures
        loaded_meta(rows).contains_key(name) <==> exists|i: int|
            0 <= i < rows.len() && decode_utf8((#[trigger] rows[i]).0@) == name,
        loaded_meta(rows).contains_key(name) ==> meta.contains_key(name) && loaded_meta(rows)[name]
            == meta[name],
    decreases rows.len(),
{
    if rows.len() > 0 {
        let t = rows.drop_last();
        let n = rows.len() - 1;
        assert forall|i: int| 0 <= i < t.len() implies meta.contains_key(
            decode_utf8((#[trigger] t[i]).0@),
        ) && meta[decode_utf8(t[i].0@)] == t[i].1@ by {
            assert(t[i] == rows[i]);
        }
        lemma_loaded_meta(t, meta, name);
        assert(rows.last() == rows[n]);
        if loaded_meta(t).contains_key(name) {
            let i = choose|i: int| 0 <= i < t.len() && decode_utf8((#[trigger] t[i]).0@) == name;
            assert(decode_utf8(rows[i].0@) == name);
        }
        if exists|i: int| 0 <= i < rows.len() && decode_utf8((#[trigger] rows[i]).0@) == name {
            let i = choose|i: int|
                0 <= i < rows.len() && decode_utf8((#[trigger] rows[i]).0@) == name;
            if i < n {
                assert(decode_utf8(t[i].0@) == name);
            }
        }
    }
}

/// A store that was just opened on a database holds what the database holds.
pub proof fn law_opened_store_agrees(
    disk: Disk,
    accounts: Seq<Row>,
    meta: Seq<Row>,
    b: Buffered,
)
    requires
        lists_disk(accounts, disk.accounts),
        lists_meta(meta, disk.meta),
        sound(accounts),
        b.accounts == loaded(accounts),
        b.meta == loaded_meta(meta),
    ensures
        agree(disk, b),
{
    assert forall|i: int| 0 <= i < accounts.len() implies is_address((#[trigger] accounts[i]).0@) by {}
    assert forall|k: [u8; 32]| #[trigger] agree_at(disk, b, k) by {
        lemma_loaded(accounts, k);
        if b.accounts.contains_key(k) || disk.accounts.contains_key(k) {
            let i = choose|i: int| 0 <= i < accounts.len() && (#[trigger] accounts[i]).0@ == k@;
            assert forall|j: int| i < j < accounts.len() implies (#[trigger] accounts[j]).0@
                != k@ by {
                assert(accounts[i].0@ != accounts[j].0@);
            }
            let x = choose|x: [u8; 32]|
                x@ == accounts[i].0@ && disk.accounts.contains_key(x) && disk.accounts[x]
                    == accounts[i].1@;
            assert(x =~= k);
            assert(row_fault(row_data(accounts[i])) is None);
        }
    }
    assert forall|name: Seq<char>| #[trigger] agree_on(disk, b, name) by {
        lemma_loaded_meta(meta, disk.meta, name);
    }
}

} // verus!
