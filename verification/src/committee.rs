//! The validators of a round, and what they weigh.
use crate::keys::PublicKeyBundle;
use crate::pubkey::Pubkey;
use vstd::prelude::*;

verus! {

/// A validator as the others know it.
#[derive(Debug)]
pub struct ValidatorInfo {
    pub id: Pubkey,
    pub pubkey_bundle: PublicKeyBundle,
    pub stake: u64,
}

/// The validators of a round, and the stake that makes a quorum.
#[derive(Debug)]
pub struct ValidatorSet {
    pub members: Vec<ValidatorInfo>,
    pub quorum: u64,
}

/// The place of the first member with this id; the number of members where there is none.
pub open spec fn place_of(members: Seq<ValidatorInfo>, id: Pubkey) -> int
    decreases members.len(),
{
    if members.len() == 0 {
        0
    } else if members[0].id == id {
        0
    } else {
        1 + place_of(members.skip(1), id)
    }
}

/// A validator is one of the set.
pub open spec fn is_member(set: ValidatorSet, id: Pubkey) -> bool {
    place_of(set.members@, id) < set.members@.len()
}

/// The stake of a validator; nothing where it is not of the set.
pub open spec fn stake_in(set: ValidatorSet, id: Pubkey) -> nat {
    if is_member(set, id) {
        set.members@[place_of(set.members@, id)].stake as nat
    } else {
        0
    }
}

proof fn lemma_place(members: Seq<ValidatorInfo>, id: Pubkey, at: int)
    requires
        0 <= at <= members.len(),
        forall|i: int| 0 <= i < at ==> (#[trigger] members[i]).id != id,
        at < members.len() ==> members[at].id == id,
    ensures
        place_of(members, id) == at,
    decreases members.len(),
{
    if at > 0 {
        assert(members[0].id != id);
        assert forall|i: int| 0 <= i < at - 1 implies (#[trigger] members.skip(1)[i]).id != id by {
            assert(members.skip(1)[i] == members[i + 1]);
        }
        lemma_place(members.skip(1), id, at - 1);
    }
}

impl ValidatorSet {
    /// The member with this id, where there is one.
    pub fn get(&self, id: &Pubkey) -> (member: Option<&ValidatorInfo>)
        ensures
            match member {
                Some(m) => is_member(*self, *id) && *m == self.members@[place_of(
                    self.members@,
                    *id,
                )],
                None => !is_member(*self, *id),
            },
    {
        let mut i: usize = 0;
        while i < self.members.len()
            invariant
                i <= self.members@.len(),
                forall|j: int| 0 <= j < i ==> (#[trigger] self.members@[j]).id != *id,
            decreases self.members@.len() - i,
        {
            if self.members[i].id.same_as(id) {
                proof {
                    lemma_place(self.members@, *id, i as int);
                }
                return Some(&self.members[i]);
            }
            i += 1;
        }
        proof {
            lemma_place(self.members@, *id, i as int);
        }
        None
    }

    /// The stake of a validator.
    pub fn stake_of(&self, id: &Pubkey) -> (stake: u64)
        ensures
            stake == stake_in(*self, *id),
    {
        match self.get(id) {
            Some(m) => m.stake,
            None => 0,
        }
    }

    /// The stake that makes a quorum.
    pub fn quorum_threshold(&self) -> (quorum: u64)
        ensures
            quorum == self.quorum,
    {
        self.quorum
    }
}

/// The sum of the weights of keys.
pub open spec fn weight(keys: Set<[u8; 32]>, w: spec_fn([u8; 32]) -> nat) -> nat
    decreases keys.len(),
    when keys.finite()
{
    if keys.len() == 0 {
        0
    } else {
        w(keys.choose()) + weight(keys.remove(keys.choose()), w)
    }
}

/// Any key can be taken out of the sum.
pub proof fn lemma_weight_remove(keys: Set<[u8; 32]>, w: spec_fn([u8; 32]) -> nat, k: [u8; 32])
    requires
        keys.finite(),
        keys.contains(k),
    ensures
        weight(keys, w) == w(k) + weight(keys.remove(k), w),
    decreases keys.len(),
{
    let c = keys.choose();
    assert(keys.len() > 0) by {
        if keys.len() == 0 {
            assert(keys =~= Set::empty());
        }
    }
    if c != k {
        lemma_weight_remove(keys.remove(c), w, k);
        lemma_weight_remove(keys.remove(k), w, c);
        assert(keys.remove(c).remove(k) =~= keys.remove(k).remove(c));
    }
}

/// Adding a key adds its weight.
pub proof fn lemma_weight_insert(keys: Set<[u8; 32]>, w: spec_fn([u8; 32]) -> nat, k: [u8; 32])
    requires
        keys.finite(),
        !keys.contains(k),
    ensures
        weight(keys.insert(k), w) == weight(keys, w) + w(k),
{
    lemma_weight_remove(keys.insert(k), w, k);
    assert(keys.insert(k).remove(k) =~= keys);
}

} // verus!
