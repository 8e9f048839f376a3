//! Where accounts are kept.
use crate::keymap::KeyMap;
use crate::pubkey::Pubkey;
use crate::state_account::{StateAccount, StateAccountData};
use vstd::prelude::*;

verus! {

/// Why a store could not write what it holds.
#[derive(Debug)]
pub struct StoreError {
    pub message: String,
}

/// `entries` lists each pair of `m` exactly once.
pub open spec fn lists(
    entries: Seq<(Pubkey, StateAccount)>,
    m: Map<[u8; 32], StateAccountData>,
) -> bool {
    &&& forall|i: int, j: int|
        0 <= i < j < entries.len() ==> (#[trigger] entries[i]).0.0 != (#[trigger] entries[j]).0.0
    &&& forall|i: int|
        0 <= i < entries.len() ==> m.contains_key((#[trigger] entries[i]).0.0) && m[entries[i].0.0]
            == entries[i].1@
    &&& forall|k: [u8; 32]| #[trigger]
        m.contains_key(k) ==> exists|i: int|
            0 <= i < entries.len() && (#[trigger] entries[i]).0.0 == k
}

/// A place where accounts are kept, each under its address.
pub trait StateStore: Sized {
    /// The store is in a state that its methods leave behind.
    spec fn wf(&self) -> bool;

    /// The accounts.
    spec fn contents(&self) -> Map<[u8; 32], StateAccountData>;

    /// A copy of the account under `key`.
    fn get(&self, key: &Pubkey) -> (account: Option<StateAccount>)
        requires
            self.wf(),
        ensures
            match account {
                Some(a) => self.contents().contains_key(key.0) && a@ == self.contents()[key.0],
                None => !self.contents().contains_key(key.0),
            },
    ;

    /// Puts `account` under `key`.
    fn set(&mut self, key: Pubkey, account: StateAccount)
        requires
            old(self).wf(),
        ensures
            final(self).wf(),
            final(self).contents() == old(self).contents().insert(key.0, account@),
    ;

    /// Takes the account under `key` out.
    fn remove(&mut self, key: &Pubkey)
        requires
            old(self).wf(),
        ensures
            final(self).wf(),
            final(self).contents() == old(self).contents().remove(key.0),
    ;

    /// Every account with its address.
    fn iter(&self) -> (entries: Vec<(Pubkey, StateAccount)>)
        requires
            self.wf(),
        ensures
            lists(entries@, self.contents()),
    ;

    /// Makes buffered writes durable. A store without a buffer has nothing to do.
    fn flush(&mut self) -> (done: Result<(), StoreError>)
        requires
            old(self).wf(),
        ensures
            final(self).wf(),
            final(self).contents() == old(self).contents(),
        default_ensures
            done is Ok,
    {
        Ok(())
    }

    /// Stages a metadata value. A store without metadata drops it.
    fn put_meta(&mut self, key: &str, value: Vec<u8>)
        requires
            old(self).wf(),
        ensures
            final(self).wf(),
            final(self).contents() == old(self).contents(),
        default_ensures
            *final(self) == *old(self),
    {
    }

    /// The metadata value under `key`. A store without metadata has none.
    fn get_meta(&self, key: &str) -> (value: Option<Vec<u8>>)
        requires
            self.wf(),
        default_ensures
            value is None,
    {
        None
    }

    /// Whether metadata is written together with the accounts, all or nothing.
    fn supports_atomic_meta(&self) -> (yes: bool)
        default_ensures
            !yes,
    {
        false
    }

    /// Whether the store has to be flushed after every round.
    fn needs_periodic_flush(&self) -> (yes: bool)
        default_ensures
            !yes,
    {
        false
    }
}

/// Metadata values by name; each name once, in no particular order.
pub struct MetaMap {
    entries: Vec<(String, Vec<u8>)>,
}

impl MetaMap {
    /// No name occurs twice.
    pub closed spec fn wf(&self) -> bool {
        forall|i: int, j: int|
            0 <= i < j < self.entries@.len() ==> (#[trigger] self.entries@[i]).0@ != (
            #[trigger] self.entries@[j]).0@
    }

    /// The values by name.
    pub closed spec fn view(&self) -> Map<Seq<char>, Seq<u8>> {
        Map::new(
            |name: Seq<char>|
                exists|i: int| 0 <= i < self.entries@.len() && (#[trigger] self.entries@[i]).0@ == name,
            |name: Seq<char>|
                self.entries@[choose|i: int|
                    0 <= i < self.entries@.len() && (#[trigger] self.entries@[i]).0@ == name].1@,
        )
    }

    /// No values.
    pub fn new() -> (meta: Self)
        ensures
            meta.wf(),
            meta@ == Map::<Seq<char>, Seq<u8>>::empty(),
    {
        let meta = MetaMap { entries: Vec::new() };
        proof {
            assert(meta@ =~= Map::<Seq<char>, Seq<u8>>::empty());
        }
        meta
    }

    /// The names and values in the order in which they are kept.
    pub closed spec fn listed(&self) -> Seq<(Seq<char>, Seq<u8>)> {
        self.entries@.map_values(|e: (String, Vec<u8>)| (e.0@, e.1@))
    }

    /// How many values there are.
    pub fn len(&self) -> (n: usize)
        ensures
            n == self.listed().len(),
    {
        self.entries.len()
    }

    /// A copy of the name and value at place `i`.
    pub fn entry(&self, i: usize) -> (entry: (String, Vec<u8>))
        requires
            i < self.listed().len(),
        ensures
            (entry.0@, entry.1@) == self.listed()[i as int],
    {
        let value = self.entries[i].1.clone();
        proof {
            assert(value@ =~= self.entries@[i as int].1@);
        }
        (self.entries[i].0.clone(), value)
    }

    /// The listed pairs are exactly those of the map, each name once.
    pub proof fn lemma_listed(&self)
        requires
            self.wf(),
        ensures
            forall|i: int, j: int|
                0 <= i < j < self.listed().len() ==> (#[trigger] self.listed()[i]).0 != (
                #[trigger] self.listed()[j]).0,
            forall|i: int|
                0 <= i < self.listed().len() ==> self@.contains_key(
                    (#[trigger] self.listed()[i]).0,
                ) && self@[self.listed()[i].0] == self.listed()[i].1,
            forall|n: Seq<char>| #[trigger]
                self@.contains_key(n) ==> exists|i: int|
                    0 <= i < self.listed().len() && (#[trigger] self.listed()[i]).0 == n,
    {
        assert forall|i: int| 0 <= i < self.listed().len() implies self@.contains_key(
            (#[trigger] self.listed()[i]).0,
        ) && self@[self.listed()[i].0] == self.listed()[i].1 by {
            let n = self.listed()[i].0;
            assert(self.entries@[i].0@ == n);
            let x = choose|x: int|
                0 <= x < self.entries@.len() && (#[trigger] self.entries@[x]).0@ == n;
            assert(x == i);
        }
        assert forall|n: Seq<char>| #[trigger] self@.contains_key(n) implies exists|i: int|
            0 <= i < self.listed().len() && (#[trigger] self.listed()[i]).0 == n by {
            let x = choose|x: int|
                0 <= x < self.entries@.len() && (#[trigger] self.entries@[x]).0@ == n;
            assert(self.listed()[x].0 == n);
        }
    }

    fn find(&self, name: &str) -> (at: Option<usize>)
        requires
            self.wf(),
        ensures
            match at {
                Some(i) => i < self.entries@.len() && self.entries@[i as int].0@ == name@
                    && self@.contains_key(name@) && self@[name@] == self.entries@[i as int].1@,
                None => !self@.contains_key(name@),
            },
    {
        let wanted: String = name.to_owned();
        let mut i: usize = 0;
        while i < self.entries.len()
            invariant
                i <= self.entries@.len(),
                self.wf(),
                wanted@ == name@,
                forall|j: int| 0 <= j < i ==> (#[trigger] self.entries@[j]).0@ != name@,
            decreases self.entries@.len() - i,
        {
            if self.entries[i].0 == wanted {
                proof {
                    let x = choose|x: int|
                        0 <= x < self.entries@.len() && (#[trigger] self.entries@[x]).0@ == name@;
                    assert(self.entries@[i as int].0@ == name@);
                    assert(x == i);
                }
                return Some(i);
            }
            i += 1;
        }
        None
    }

    /// The value under `name`.
    pub fn get(&self, name: &str) -> (value: Option<Vec<u8>>)
        requires
            self.wf(),
        ensures
            match value {
                Some(v) => self@.contains_key(name@) && v@ == self@[name@],
                None => !self@.contains_key(name@),
            },
    {
        match self.find(name) {
            Some(i) => {
                let v = self.entries[i].1.clone();
                proof {
                    assert(v@ =~= self.entries@[i as int].1@);
                }
                Some(v)
            },
            None => None,
        }
    }

    /// Puts `value` under `name`.
    pub fn insert(&mut self, name: &str, value: Vec<u8>)
        requires
            old(self).wf(),
        ensures
            final(self).wf(),
            final(self)@ == old(self)@.insert(name@, value@),
    {
        let ghost before = *self;
        match self.find(name) {
            Some(i) => {
                let kept: String = self.entries[i].0.clone();
                self.entries[i] = (kept, value);
                proof {
                    assert(self.entries@ =~= before.entries@.update(i as int, (kept, value)));
                    assert(kept@ == name@);
                }
            },
            None => {
                let kept: String = name.to_owned();
                self.entries.push((kept, value));
                proof {
                    assert forall|j: int| 0 <= j < before.entries@.len() implies (
                    #[trigger] before.entries@[j]).0@ != name@ by {
                        assert(before@.contains_key(before.entries@[j].0@));
                    }
                    assert forall|j: int| 0 <= j < before.entries@.len() implies self.entries@[j]
                        == #[trigger] before.entries@[j] by {}
                }
            },
        }
        proof {
            let m = before@.insert(name@, value@);
            assert(self.wf());
            assert forall|n: Seq<char>| #[trigger] self@.contains_key(n) == m.contains_key(n) by {
                if self@.contains_key(n) && n != name@ {
                    let x = choose|x: int|
                        0 <= x < self.entries@.len() && (#[trigger] self.entries@[x]).0@ == n;
                    assert(before.entries@[x].0@ == n);
                }
                if m.contains_key(n) {
                    if n != name@ {
                        let x = choose|x: int|
                            0 <= x < before.entries@.len() && (#[trigger] before.entries@[x]).0@ == n;
                        assert(self.entries@[x].0@ == n);
                    } else {
                        let last = self.entries@.len() - 1;
                        if self.entries@[last].0@ != n {
                            let x = choose|x: int|
                                0 <= x < before.entries@.len() && (
                                #[trigger] before.entries@[x]).0@ == n;
                            assert(self.entries@[x].0@ == n);
                        }
                    }
                }
            }
            assert forall|n: Seq<char>| #[trigger] self@.contains_key(n) implies self@[n] == m[n] by {
                let x = choose|x: int|
                    0 <= x < self.entries@.len() && (#[trigger] self.entries@[x]).0@ == n;
                if n != name@ {
                    assert(before.entries@[x].0@ == n);
                    let y = choose|y: int|
                        0 <= y < before.entries@.len() && (#[trigger] before.entries@[y]).0@ == n;
                    assert(x == y);
                }
            }
            assert(self@ =~= m);
        }
    }
}

/// Accounts and metadata in memory.
pub struct InMemoryStore {
    accounts: KeyMap<StateAccount>,
    meta: MetaMap,
}

/// What the accounts of a map hold.
pub open spec fn account_data(m: Map<[u8; 32], StateAccount>) -> Map<[u8; 32], StateAccountData> {
    m.map_values(|a: StateAccount| a@)
}

/// The entries of `accounts` in ascending order of their addresses.
pub(crate) fn list_accounts(accounts: &KeyMap<StateAccount>) -> (entries: Vec<
    (Pubkey, StateAccount),
>)
    requires
        accounts.wf(),
    ensures
        lists(entries@, account_data(accounts@)),
        forall|i: int, j: int|
            0 <= i < j < entries@.len() ==> crate::keymap::key_lt(
                (#[trigger] entries@[i]).0.0,
                (#[trigger] entries@[j]).0.0,
            ),
{
    let n: usize = accounts.len();
    let mut entries: Vec<(Pubkey, StateAccount)> = Vec::new();
    let mut i: usize = 0;
    while i < n
        invariant
            accounts.wf(),
            i <= n == accounts.listed().len(),
            entries@.len() == i,
            forall|j: int|
                0 <= j < i ==> (#[trigger] entries@[j]).0.0 == accounts.listed()[j].0 && entries@[j].1@
                    == accounts.listed()[j].1@,
        decreases n - i,
    {
        let entry = accounts.entry(i);
        entries.push((Pubkey(entry.0), entry.1.clone()));
        i += 1;
    }
    proof {
        accounts.lemma_listed();
        let l = accounts.listed();
        let m = account_data(accounts@);
        assert forall|a: int, b: int| 0 <= a < b < entries@.len() implies crate::keymap::key_lt(
            (#[trigger] entries@[a]).0.0,
            (#[trigger] entries@[b]).0.0,
        ) by {
            assert(crate::keymap::key_lt(l[a].0, l[b].0));
        }
        assert forall|a: int, b: int| 0 <= a < b < entries@.len() implies (#[trigger] entries@[a]).0.0
            != (#[trigger] entries@[b]).0.0 by {
            crate::keymap::lemma_key_lt_asymmetric(entries@[a].0.0, entries@[b].0.0);
        }
        assert forall|k: [u8; 32]| #[trigger] m.contains_key(k) implies exists|i: int|
            0 <= i < entries@.len() && (#[trigger] entries@[i]).0.0 == k by {
            let x = choose|x: int| 0 <= x < l.len() && #[trigger] l[x].0 == k;
            assert(entries@[x].0.0 == k);
        }
    }
    entries
}

impl InMemoryStore {
    /// A store that holds nothing.
    pub fn new() -> (store: Self)
        ensures
            store.wf(),
            store.contents() == Map::<[u8; 32], StateAccountData>::empty(),
            store.meta() == Map::<Seq<char>, Seq<u8>>::empty(),
    {
        let store = InMemoryStore { accounts: KeyMap::new(), meta: MetaMap::new() };
        proof {
            assert(store.contents() =~= Map::<[u8; 32], StateAccountData>::empty());
        }
        store
    }

    /// The metadata.
    pub closed spec fn meta(&self) -> Map<Seq<char>, Seq<u8>> {
        self.meta@
    }
}

impl Default for InMemoryStore {
    fn default() -> (store: Self)
        ensures
            store.wf(),
            store.contents() == Map::<[u8; 32], StateAccountData>::empty(),
            store.meta() == Map::<Seq<char>, Seq<u8>>::empty(),
    {
        InMemoryStore::new()
    }
}

impl StateStore for InMemoryStore {
    closed spec fn wf(&self) -> bool {
        self.accounts.wf() && self.meta.wf()
    }

    closed spec fn contents(&self) -> Map<[u8; 32], StateAccountData> {
        account_data(self.accounts@)
    }

    fn get(&self, key: &Pubkey) -> (account: Option<StateAccount>) {
        match self.accounts.get(&key.0) {
            Some(a) => Some(a.clone()),
            None => None,
        }
    }

    fn set(&mut self, key: Pubkey, account: StateAccount)
        ensures
            final(self).meta() == old(self).meta(),
    {
        let ghost before = self.contents();
        let ghost data = account@;
        self.accounts.insert(key.0, account);
        proof {
            assert(self.contents() =~= before.insert(key.0, data));
        }
    }

    fn remove(&mut self, key: &Pubkey)
        ensures
            final(self).meta() == old(self).meta(),
    {
        let ghost before = self.contents();
        self.accounts.remove(&key.0);
        proof {
            assert(self.contents() =~= before.remove(key.0));
        }
    }

    fn iter(&self) -> (entries: Vec<(Pubkey, StateAccount)>)
        ensures
            forall|i: int, j: int|
                0 <= i < j < entries@.len() ==> crate::keymap::key_lt(
                    (#[trigger] entries@[i]).0.0,
                    (#[trigger] entries@[j]).0.0,
                ),
    {
        list_accounts(&self.accounts)
    }

    fn put_meta(&mut self, key: &str, value: Vec<u8>)
        ensures
            final(self).meta() == old(self).meta().insert(key@, value@),
    {
        self.meta.insert(key, value);
    }

    fn get_meta(&self, key: &str) -> (value: Option<Vec<u8>>)
        ensures
            match value {
                Some(v) => self.meta().contains_key(key@) && v@ == self.meta()[key@],
                None => !self.meta().contains_key(key@),
            },
    {
        self.meta.get(key)
    }
}

} // verus!
