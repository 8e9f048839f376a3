//! Proof of history: a chain of hashes that orders what was mixed into it.
use crate::hash::{digests_equal, sha256, sha256_digest};
use vstd::prelude::*;

verus! {

/// One link of the chain.
#[derive(Debug, PartialEq, Eq)]
pub struct PohEntry {
    pub tick_height: u64,
    pub hash: [u8; 32],
    /// What was mixed in; nothing in a plain tick.
    pub mixed_data: Option<Vec<u8>>,
}

impl Clone for PohEntry {
    fn clone(&self) -> (copy: Self)
        ensures
            copy.tick_height == self.tick_height,
            copy.hash == self.hash,
            mixed(copy) == mixed(*self),
            copy.mixed_data is Some == self.mixed_data is Some,
    {
        let mixed_data = match &self.mixed_data {
            Some(data) => {
                let copied = data.clone();
                proof {
                    assert(copied@ =~= data@);
                }
                Some(copied)
            },
            None => None,
        };
        PohEntry { tick_height: self.tick_height, hash: self.hash, mixed_data }
    }
}

/// The bytes that an entry mixes in.
pub open spec fn mixed(entry: PohEntry) -> Seq<u8> {
    match entry.mixed_data {
        Some(data) => data@,
        None => Seq::empty(),
    }
}

/// The hash that follows `before` with `data` mixed in.
pub open spec fn next_hash(before: [u8; 32], data: Seq<u8>) -> [u8; 32] {
    sha256(before@ + data)
}

/// The hash before entry `i`.
pub open spec fn hash_before(seed: [u8; 32], entries: Seq<PohEntry>, i: int) -> [u8; 32] {
    if i == 0 {
        seed
    } else {
        entries[i - 1].hash
    }
}

/// Entry `i` follows from the one before it, the first from the seed.
pub open spec fn linked(seed: [u8; 32], entries: Seq<PohEntry>, i: int) -> bool {
    entries[i].hash == next_hash(hash_before(seed, entries, i), mixed(entries[i]))
}

/// Every entry follows from the one before it.
pub open spec fn chained(seed: [u8; 32], entries: Seq<PohEntry>) -> bool {
    forall|i: int| 0 <= i < entries.len() ==> #[trigger] linked(seed, entries, i)
}

/// The running chain.
pub struct Poh {
    hash: [u8; 32],
    tick_height: u64,
}

fn hash_with(before: &[u8; 32], data: &[u8]) -> (after: [u8; 32])
    ensures
        after == next_hash(*before, data@),
{
    let mut bytes: Vec<u8> = Vec::new();
    bytes.extend_from_slice(before.as_slice());
    bytes.extend_from_slice(data);
    proof {
        assert(bytes@ =~= before@ + data@);
    }
    sha256_digest(bytes.as_slice())
}

impl Poh {
    /// The hash that the chain is at.
    pub closed spec fn at(&self) -> [u8; 32] {
        self.hash
    }

    /// How many entries there were.
    pub closed spec fn height(&self) -> u64 {
        self.tick_height
    }

    /// A chain that begins at `seed`.
    pub fn new(seed: [u8; 32]) -> (poh: Self)
        ensures
            poh.at() == seed,
            poh.height() == 0,
    {
        Poh { hash: seed, tick_height: 0 }
    }

    /// A link with nothing mixed in.
    pub fn tick(&mut self) -> (entry: PohEntry)
        requires
            old(self).height() < u64::MAX,
        ensures
            final(self).at() == next_hash(old(self).at(), Seq::empty()),
            final(self).height() == old(self).height() + 1,
            entry.hash == final(self).at(),
            entry.tick_height == final(self).height(),
            entry.mixed_data is None,
    {
        let nothing: Vec<u8> = Vec::new();
        self.hash = hash_with(&self.hash, nothing.as_slice());
        self.tick_height = self.tick_height + 1;
        PohEntry { tick_height: self.tick_height, hash: self.hash, mixed_data: None }
    }

    /// A link with `data` mixed in.
    pub fn record(&mut self, data: &[u8]) -> (entry: PohEntry)
        requires
            old(self).height() < u64::MAX,
        ensures
            final(self).at() == next_hash(old(self).at(), data@),
            final(self).height() == old(self).height() + 1,
            entry.hash == final(self).at(),
            entry.tick_height == final(self).height(),
            entry.mixed_data is Some,
            mixed(entry) == data@,
    {
        self.hash = hash_with(&self.hash, data);
        self.tick_height = self.tick_height + 1;
        let mut kept: Vec<u8> = Vec::new();
        kept.extend_from_slice(data);
        proof {
            assert(kept@ =~= data@);
        }
        PohEntry { tick_height: self.tick_height, hash: self.hash, mixed_data: Some(kept) }
    }

    /// The hash that the chain is at.
    pub fn current_hash(&self) -> (hash: [u8; 32])
        ensures
            hash == self.at(),
    {
        self.hash
    }

    /// How many entries there were.
    pub fn tick_height(&self) -> (height: u64)
        ensures
            height == self.height(),
    {
        self.tick_height
    }
}

/// Whether the entries follow from the seed and from each other.
pub fn verify_poh_sequence(seed: [u8; 32], entries: &Vec<PohEntry>) -> (good: bool)
    ensures
        good == chained(seed, entries@),
{
    let mut hash: [u8; 32] = seed;
    let mut i: usize = 0;
    while i < entries.len()
        invariant
            i <= entries@.len(),
            hash == hash_before(seed, entries@, i as int),
            forall|j: int| 0 <= j < i ==> #[trigger] linked(seed, entries@, j),
        decreases entries@.len() - i,
    {
        let computed: [u8; 32] = match &entries[i].mixed_data {
            Some(data) => hash_with(&hash, data.as_slice()),
            None => {
                let nothing: Vec<u8> = Vec::new();
                hash_with(&hash, nothing.as_slice())
            },
        };
        if !digests_equal(&computed, &entries[i].hash) {
            proof {
                assert(!linked(seed, entries@, i as int));
            }
            return false;
        }
        hash = computed;
        i += 1;
    }
    true
}

/// A chain goes on being verifiable: an entry that was made at the end of a verified
/// chain can be appended to it.
pub proof fn law_chain_extends(seed: [u8; 32], entries: Seq<PohEntry>, entry: PohEntry)
    requires
        chained(seed, entries),
        entry.hash == next_hash(hash_before(seed, entries, entries.len() as int), mixed(entry)),
    ensures
        chained(seed, entries.push(entry)),
{
    let all = entries.push(entry);
    assert forall|i: int| 0 <= i < all.len() implies #[trigger] linked(seed, all, i) by {
        if i < entries.len() {
            assert(linked(seed, entries, i));
            assert(all[i] == entries[i]);
            if i > 0 {
                assert(all[i - 1] == entries[i - 1]);
            }
        } else if i > 0 {
            assert(all[i - 1] == entries[i - 1]);
        }
    }
}

/// The two byte strings differ and have one SHA-256 digest.
pub open spec fn sha256_collide(a: Seq<u8>, b: Seq<u8>) -> bool {
    a != b && sha256(a) == sha256(b)
}

/// What was hashed for some entry of the one chain and for the entry at the same place of
/// the other collides.
pub open spec fn entries_collide(
    seed: [u8; 32],
    a: Seq<PohEntry>,
    b: Seq<PohEntry>,
) -> bool {
    exists|i: int|
        0 <= i < a.len() && sha256_collide(
            #[trigger] link_input(seed, a, i),
            link_input(seed, b, i),
        )
}

/// What is hashed for the entry at `i`: the hash before it and what it mixes in.
pub open spec fn link_input(seed: [u8; 32], entries: Seq<PohEntry>, i: int) -> Seq<u8> {
    hash_before(seed, entries, i)@ + mixed(entries[i])
}

/// History cannot be changed afterwards: two chains of one length that begin and end at
/// the same hashes mixed in the same data in the same order, unless what was
/// hashed for two of the entries collides.
pub proof fn law_history_is_fixed(
    seed: [u8; 32],
    a: Seq<PohEntry>,
    b: Seq<PohEntry>,
)
    requires
        chained(seed, a),
        chained(seed, b),
        a.len() == b.len(),
        hash_before(seed, a, a.len() as int) == hash_before(seed, b, b.len() as int),
    ensures
        (forall|i: int| 0 <= i < a.len() ==> mixed(#[trigger] a[i]) == mixed(b[i]) && a[i].hash
            == b[i].hash) || entries_collide(seed, a, b),
    decreases a.len(),
{
    if a.len() > 0 {
        let n = a.len() - 1;
        let x = hash_before(seed, a, n);
        let y = hash_before(seed, b, n);
        let s = x@ + mixed(a[n]);
        let t = y@ + mixed(b[n]);
        assert(linked(seed, a, n) && linked(seed, b, n));
        assert(sha256(s) == sha256(t));
        if s == t {
            assert(x =~= y) by {
                assert forall|i: int| 0 <= i < 32 implies x[i] == y[i] by {
                    assert(s[i] == x@[i] && t[i] == y@[i]);
                }
            }
            assert(mixed(a[n]) =~= s.subrange(32, s.len() as int));
            assert(mixed(b[n]) =~= t.subrange(32, t.len() as int));
            let a1 = a.drop_last();
            let b1 = b.drop_last();
            assert forall|i: int| 0 <= i < a1.len() implies #[trigger] linked(seed, a1, i) by {
                assert(linked(seed, a, i));
                assert(a1[i] == a[i]);
                if i > 0 {
                    assert(a1[i - 1] == a[i - 1]);
                }
            }
            assert forall|i: int| 0 <= i < b1.len() implies #[trigger] linked(seed, b1, i) by {
                assert(linked(seed, b, i));
                assert(b1[i] == b[i]);
                if i > 0 {
                    assert(b1[i - 1] == b[i - 1]);
                }
            }
            law_history_is_fixed(seed, a1, b1);
            if entries_collide(seed, a1, b1) {
                let i = choose|i: int|
                    0 <= i < a1.len() && sha256_collide(
                        #[trigger] link_input(seed, a1, i),
                        link_input(seed, b1, i),
                    );
                assert(link_input(seed, a, i) == link_input(seed, a1, i));
                assert(link_input(seed, b, i) == link_input(seed, b1, i));
            } else {
                assert forall|i: int| 0 <= i < a.len() implies mixed(#[trigger] a[i]) == mixed(b[i])
                    && a[i].hash == b[i].hash by {
                    if i < n {
                        assert(a1[i] == a[i] && b1[i] == b[i]);
                    }
                }
            }
        } else {
            assert(sha256_collide(link_input(seed, a, n), link_input(seed, b, n)));
        }
    }
}

} // verus!
