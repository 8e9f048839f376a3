//! A run of the simulation, step by step: what validators say is sent off, lost, delayed and
//! delivered. What is lost and how long the rest takes is decided outside.
use crate::keymap::{key_before, key_lt, lemma_key_lt_transitive};
use crate::keys::Keypair;
use crate::pubkey::Pubkey;
use crate::signer::address;
use crate::sim::{
    cut_off, index_of, is_cut_off, peers_of, Certified, Event, EventQueue, Partition,
    ValidatorSchedule,
};
use crate::sim_validator::{
    actions_data, asking_each, carries_out, judged_in, lemma_own_accord_is_sent, may_go_on,
    message_has_digest, perform, reaction, unanswered, went_on, ActionData, ByzantineBehavior, SimMessage, SimMessageData, SimState, SimValidator,
};
use crate::vertex::vertex_digest;
use vstd::prelude::*;

verus! {

/// The addresses ascend.
pub open spec fn in_address_order(s: Seq<Keypair>) -> bool {
    forall|i: int, j: int|
        0 <= i < j < s.len() ==> !key_lt(address(#[trigger] s[j]).0, address(#[trigger] s[i]).0)
}

/// Puts keypairs in ascending order of their addresses, so that a validator's place does not
/// depend on chance.
pub fn sort_keypairs(list: Vec<Keypair>) -> (sorted: Vec<Keypair>)
    ensures
        in_address_order(sorted@),
        sorted@.to_multiset() == list@.to_multiset(),
{
    let mut rest = list;
    let ghost all = list@;
    let mut out: Vec<Keypair> = Vec::new();
    proof {
        assert(out@ + rest@ =~= all);
    }
    while rest.len() > 0
        invariant
            in_address_order(out@),
            (out@ + rest@).to_multiset() == all.to_multiset(),
        decreases rest@.len(),
    {
        let ghost before_out = out@;
        let ghost before_rest = rest@;
        let keypair = rest.remove(0);
        let key: [u8; 32] = keypair.pubkey().0;
        let mut at: usize = 0;
        while at < out.len() && !key_before(&key, &out[at].pubkey().0)
            invariant
                at <= out@.len(),
                key == address(keypair).0,
                forall|i: int| 0 <= i < at ==> !key_lt(key, address(#[trigger] out@[i]).0),
            decreases out@.len() - at,
        {
            at += 1;
        }
        out.insert(at, keypair);
        proof {
            assert(out@ =~= before_out.insert(at as int, keypair));
            assert forall|i: int, j: int| 0 <= i < j < out@.len() implies !key_lt(
                address(#[trigger] out@[j]).0,
                address(#[trigger] out@[i]).0,
            ) by {
                let x = if i < at {
                    i
                } else {
                    i - 1
                };
                let y = if j < at {
                    j
                } else {
                    j - 1
                };
                if i != at && j != at {
                    assert(out@[i] == before_out[x] && out@[j] == before_out[y]);
                } else if j == at {
                    assert(out@[i] == before_out[i]);
                } else {
                    assert(out@[j] == before_out[j - 1]);
                    let after = address(before_out[j - 1]).0;
                    let first = address(before_out[at as int]).0;
                    assert(key_lt(key, first));
                    if key_lt(after, key) {
                        lemma_key_lt_transitive(after, key, first);
                        assert(j - 1 > at ==> !key_lt(after, first));
                        if j - 1 == at {
                            crate::keymap::lemma_key_lt_asymmetric(key, first);
                        }
                    }
                }
            }
            lemma_moved_over(before_out, before_rest, at as int);
            assert(rest@ =~= before_rest.skip(1));
            assert(out@ + rest@ =~= before_out.insert(at as int, before_rest[0])
                + before_rest.skip(1));
        }
    }
    proof {
        assert(out@ + rest@ =~= out@);
    }
    out
}

/// Moving an element from the front of one list into another changes no count.
proof fn lemma_moved_over(out: Seq<Keypair>, rest: Seq<Keypair>, at: int)
    requires
        0 <= at <= out.len(),
        rest.len() > 0,
    ensures
        (out.insert(at, rest[0]) + rest.skip(1)).to_multiset() == (out + rest).to_multiset(),
{
    let a = out.insert(at, rest[0]) + rest.skip(1);
    let b = out + rest;
    let n = out.len() as int;
    assert(a.remove(at) =~= b.remove(n));
    assert(a[at] == rest[0]);
    assert(b[n] == rest[0]);
    a.to_multiset_ensures();
    b.to_multiset_ensures();
    let m = a.to_multiset();
    let k = b.to_multiset();
    assert(a.remove(at).to_multiset() =~= m.remove(a[at]));
    assert(b.remove(n).to_multiset() =~= k.remove(b[n]));
    assert(a.contains(rest[0]));
    assert(b.contains(rest[0]));
    assert forall|x: Keypair| m.count(x) == k.count(x) by {
        assert(m.remove(rest[0]).count(x) == k.remove(rest[0]).count(x));
    }
    assert(m =~= k);
}

/// The ids of the validators.
pub open spec fn ids_of(sims: Seq<SimValidator>) -> Seq<Pubkey> {
    sims.map_values(|s: SimValidator| s.id)
}

/// The place of the first validator with an id.
pub open spec fn place_of(ids: Seq<Pubkey>, id: Pubkey) -> Option<int>
    decreases ids.len(),
{
    if ids.len() == 0 {
        None
    } else {
        match place_of(ids.drop_last(), id) {
            Some(i) => Some(i),
            None => if ids.last() == id {
                Some(ids.len() - 1)
            } else {
                None
            },
        }
    }
}

proof fn lemma_place_of(ids: Seq<Pubkey>, id: Pubkey)
    ensures
        match place_of(ids, id) {
            Some(i) => 0 <= i < ids.len() && ids[i] == id && forall|j: int|
                0 <= j < i ==> ids[j] != id,
            None => !ids.contains(id),
        },
    decreases ids.len(),
{
    if ids.len() > 0 {
        lemma_place_of(ids.drop_last(), id);
        let n = ids.len() - 1;
        match place_of(ids.drop_last(), id) {
            Some(i) => {
                assert forall|j: int| 0 <= j < i implies ids[j] != id by {
                    assert(ids.drop_last()[j] == ids[j]);
                }
            },
            None => {
                assert forall|j: int| 0 <= j < n implies ids[j] != id by {
                    assert(ids.drop_last()[j] == ids[j]);
                    assert(ids.drop_last().contains(ids.drop_last()[j]));
                }
            },
        }
    }
}

/// Messages and the ids they are for.
pub open spec fn letters(s: Seq<(Pubkey, SimMessage)>) -> Seq<(Pubkey, SimMessageData)> {
    s.map_values(|l: (Pubkey, SimMessage)| (l.0, l.1@))
}

/// Messages and the places they are for.
pub open spec fn parcels(s: Seq<(usize, SimMessage)>) -> Seq<(usize, SimMessageData)> {
    s.map_values(|p: (usize, SimMessage)| (p.0, p.1@))
}

/// The messages for validators that take part, with their places.
pub open spec fn placed(ids: Seq<Pubkey>, s: Seq<(Pubkey, SimMessageData)>) -> Seq<
    (usize, SimMessageData),
>
    decreases s.len(),
{
    if s.len() == 0 {
        Seq::empty()
    } else {
        let before = placed(ids, s.drop_last());
        match place_of(ids, s.last().0) {
            Some(i) => before.push((i as usize, s.last().1)),
            None => before,
        }
    }
}

/// Whether the vertex in a message has a digest.
pub fn has_digest(message: &SimMessage) -> (fits: bool)
    ensures
        fits == message_has_digest(message@),
{
    match message {
        SimMessage::VertexProposal { vertex, author_signature } => vertex.digest().is_some(),
        SimMessage::CertificateBroadcast(c) => c.vertex.digest().is_some(),
        SimMessage::CertificateResponse(c) => c.vertex.digest().is_some(),
        _ => true,
    }
}

/// The messages with their places, where all their vertices have digests.
fn place_all(ids: &Vec<Pubkey>, list: Vec<(Pubkey, SimMessage)>) -> (out: Option<
    Vec<(usize, SimMessage)>,
>)
    ensures
        out is Some ==> parcels(out->0@) == placed(ids@, letters(list@)) && forall|i: int|
            0 <= i < out->0@.len() ==> message_has_digest((#[trigger] out->Some_0@[i]).1@)
                && out->Some_0@[i].0 < ids@.len(),
        out is None ==> exists|i: int|
            0 <= i < list@.len() && !message_has_digest((#[trigger] list@[i]).1@),
{
    let ghost all = list@;
    let mut rest = list;
    let mut out: Vec<(usize, SimMessage)> = Vec::new();
    let ghost mut k: int = 0;
    proof {
        assert(letters(all.take(0)) =~= Seq::empty());
        assert(parcels(out@) =~= Seq::empty());
    }
    while rest.len() > 0
        invariant
            0 <= k <= all.len(),
            all == list@,
            rest@ == all.skip(k),
            parcels(out@) == placed(ids@, letters(all.take(k))),
            forall|i: int|
                0 <= i < out@.len() ==> message_has_digest((#[trigger] out@[i]).1@) && out@[i].0
                    < ids@.len(),
        decreases rest@.len(),
    {
        let (to, message) = rest.remove(0);
        proof {
            assert((to, message) == all[k]);
            assert(rest@ =~= all.skip(k + 1));
            let t = letters(all.take(k + 1));
            assert(t.drop_last() =~= letters(all.take(k)));
            assert(t.last() == (to, message@));
            lemma_place_of(ids@, to);
        }
        if !has_digest(&message) {
            return None;
        }
        let ghost before = out@;
        match index_of(ids, &to) {
            Some(i) => {
                let ghost m = message@;
                out.push((i, message));
                proof {
                    let p = place_of(ids@, to);
                    assert(ids@.contains(ids@[i as int]));
                    assert(p == Some(i as int));
                    assert(parcels(out@) =~= parcels(before).push((i, m)));
                }
            },
            None => {},
        }
        proof {
            k = k + 1;
        }
    }
    proof {
        assert(all.take(k) =~= all);
    }
    Some(out)
}

/// The messages carry the actions out, one for each.
pub open spec fn carried(
    keypair: Keypair,
    actions: Seq<ActionData>,
    messages: Seq<(Pubkey, SimMessageData)>,
) -> bool {
    &&& messages.len() == actions.len()
    &&& forall|i: int|
        0 <= i < actions.len() ==> carries_out(
            keypair,
            #[trigger] actions[i],
            messages[i].0,
            messages[i].1,
        )
}

/// Only the validator at `i` may have changed, and not in who it is.
pub open spec fn only_at(before: Seq<SimValidator>, after: Seq<SimValidator>, i: int) -> bool {
    &&& after.len() == before.len()
    &&& forall|j: int| 0 <= j < before.len() && j != i ==> #[trigger] after[j] == before[j]
    &&& after[i].id == before[i].id
    &&& after[i].behavior == before[i].behavior
}

/// The round before; the first round has none, and stands in for it.
pub open spec fn round_before(round: u64) -> u64 {
    if round == 0 {
        0
    } else {
        (round - 1) as u64
    }
}

/// What was said, where it carries out what the validator at `i` did of its own accord.
pub open spec fn spoke(
    before: Simulation,
    after: SimState,
    i: int,
    actions: Seq<ActionData>,
    messages: Seq<(Pubkey, SimMessageData)>,
) -> bool {
    let v = before.sims@[i];
    &&& went_on(
        v@,
        v.id,
        v.behavior,
        before.keypairs@[i],
        before.schedule.at(round_before(v@.next_round)),
        before.schedule.at(v@.next_round),
        ids_of(before.sims@).remove(i),
        (after, actions),
    )
    &&& carried(before.keypairs@[i], actions, messages)
}

/// Everything that takes part in a run.
pub struct Simulation {
    pub keypairs: Vec<Keypair>,
    pub sims: Vec<SimValidator>,
    pub schedule: ValidatorSchedule,
    pub partition: Option<Partition>,
    pub queue: EventQueue,
    pub certified: Certified,
}

/// Apart from its validators the simulation is as it was.
pub open spec fn others_kept(before: Simulation, after: Simulation) -> bool {
    &&& after.keypairs == before.keypairs
    &&& after.schedule == before.schedule
    &&& after.partition == before.partition
    &&& after.queue == before.queue
    &&& after.certified == before.certified
}

/// The messages are for validators that take part, and their vertices have digests.
pub open spec fn can_be_sent(said: Seq<(usize, SimMessage)>, validators: nat) -> bool {
    forall|k: int|
        0 <= k < said.len() ==> message_has_digest((#[trigger] said[k]).1@) && said[k].0
            < validators
}

/// The event is between validators that take part, and the vertex in it has a digest.
pub open spec fn can_be_delivered(event: Event, validators: nat) -> bool {
    event.from < validators && event.to < validators && message_has_digest(event.message@)
}

/// The validator at `i` did what it does of its own accord and, where that went well, said
/// this. It fails only where a number has run out, or where a fresh vertex was to be signed,
/// and then nothing has changed.
pub open spec fn has_proposed(
    before: Simulation,
    i: int,
    well: bool,
    said: Seq<(usize, SimMessage)>,
    after: Simulation,
) -> bool {
    let v = before.sims@[i];
    &&& only_at(before.sims@, after.sims@, i)
    &&& others_kept(before, after)
    &&& well ==> can_be_sent(said, before.sims@.len())
    &&& well ==> exists|actions: Seq<ActionData>, messages: Seq<(Pubkey, SimMessageData)>|
        #[trigger] spoke(before, after.sims@[i]@, i, actions, messages) && parcels(said) == placed(
            ids_of(before.sims@),
            messages,
        )
    &&& !well ==> after.sims@[i]@ == v@
    &&& !well ==> {
        ||| v@.next_round == u64::MAX
        ||| v@.dag.len() > u32::MAX
        ||| !(v.behavior is Silent) && v@.own_pending is None && may_go_on(
            v@,
            v.id,
            before.schedule.at(round_before(v@.next_round)),
        )
    }
}

/// The validator at `i` asked again for what it is missing.
pub open spec fn has_retried(
    before: Simulation,
    i: int,
    said: Seq<(usize, SimMessage)>,
    after: Simulation,
) -> bool {
    let s = before.sims@[i]@;
    let open = unanswered(s.requests, s.dag);
    &&& only_at(before.sims@, after.sims@, i)
    &&& others_kept(before, after)
    &&& after.sims@[i]@ == (SimState { requests: open, ..s })
    &&& can_be_sent(said, before.sims@.len())
    &&& exists|messages: Seq<(Pubkey, SimMessageData)>| #[trigger]
        carried(before.keypairs@[i], asking_each(open), messages) && parcels(said) == placed(
            ids_of(before.sims@),
            messages,
        )
}

/// A message was sent off at `tick`. A certificate that is broadcast is noted; then the
/// message is lost where a partition is in its way or `fate` says so, and arrives after the
/// delay that `fate` gives otherwise.
pub open spec fn has_sent(
    before: Simulation,
    tick: u64,
    from: usize,
    to: usize,
    message: SimMessage,
    fate: Option<u64>,
    after: Simulation,
) -> bool {
    &&& after.sims == before.sims
    &&& after.keypairs == before.keypairs
    &&& after.schedule == before.schedule
    &&& after.partition == before.partition
    &&& after.certified@ == (match message@ {
        SimMessageData::CertificateBroadcast(c) => {
            let entry = (c.vertex.round, c.vertex.author, vertex_digest(c.vertex));
            if before.certified@.contains(entry) {
                before.certified@
            } else {
                before.certified@.push(entry)
            }
        },
        _ => before.certified@,
    })
    &&& if is_cut_off(before.partition, tick, from, to) || fate is None {
        after.queue == before.queue
    } else {
        &&& after.queue.seq() == before.queue.seq() + 1
        &&& exists|k: int|
            0 <= k <= before.queue@.len() && after.queue@ == #[trigger] before.queue@.insert(
                k,
                (Event {
                    at: (tick + 1 + fate->0) as u64,
                    seq: before.queue.seq(),
                    from,
                    to,
                    message,
                }),
            )
    }
}

/// What arrives at `tick` or earlier was taken off its way, in order.
pub open spec fn has_taken(before: Simulation, tick: u64, due: Seq<Event>, after: Simulation) -> bool {
    &&& after.sims == before.sims
    &&& after.keypairs == before.keypairs
    &&& after.schedule == before.schedule
    &&& after.partition == before.partition
    &&& after.certified == before.certified
    &&& after.queue.seq() == before.queue.seq()
    &&& due + after.queue@ == before.queue@
    &&& forall|i: int| 0 <= i < due.len() ==> (#[trigger] due[i]).at <= tick
    &&& forall|i: int| 0 <= i < after.queue@.len() ==> (#[trigger] after.queue@[i]).at > tick
}

/// A message was handed to the validator it is for, who judged it under the committee of the
/// round that it is about, and, where that went well, this was answered. It fails only where
/// a vote was to be signed.
pub open spec fn has_delivered(
    before: Simulation,
    event: Event,
    verified: bool,
    well: bool,
    said: Seq<(usize, SimMessage)>,
    after: Simulation,
) -> bool {
    let v = before.sims@[event.to as int];
    let r = reaction(
        v@,
        v.behavior,
        before.sims@[event.from as int].id,
        event.message@,
        before.schedule.at(judged_in(v@, event.message@)),
        ids_of(before.sims@).remove(event.to as int),
        verified,
    );
    &&& only_at(before.sims@, after.sims@, event.to as int)
    &&& others_kept(before, after)
    &&& after.sims@[event.to as int]@ == r.0
    &&& well ==> can_be_sent(said, before.sims@.len())
    &&& well ==> exists|messages: Seq<(Pubkey, SimMessageData)>| #[trigger]
        carried(before.keypairs@[event.to as int], r.1, messages) && parcels(said) == placed(
            ids_of(before.sims@),
            messages,
        )
    &&& !well ==> exists|k: int| 0 <= k < r.1.len() && (#[trigger] r.1[k]) is Vote
}

/// The validator at `i` took over what the ordering of its certificates has settled.
pub open spec fn has_committed(
    before: Simulation,
    i: int,
    newly: Seq<[u8; 32]>,
    after: Simulation,
) -> bool {
    &&& only_at(before.sims@, after.sims@, i)
    &&& others_kept(before, after)
    &&& after.sims@[i]@ == (SimState {
        committed: before.sims@[i]@.committed + newly,
        ..before.sims@[i]@
    })
}

impl Simulation {
    /// Each validator has its keypair, and what is on its way is for one of them.
    pub open spec fn wf(&self) -> bool {
        &&& self.keypairs@.len() == self.sims@.len()
        &&& forall|i: int| 0 <= i < self.keypairs@.len() ==> (#[trigger] self.keypairs@[i]).wf()
        &&& forall|i: int| 0 <= i < self.sims@.len() ==> (#[trigger] self.sims@[i]).wf()
        &&& self.queue.wf()
        &&& self.certified.wf()
        &&& forall|i: int|
            0 <= i < self.queue@.len() ==> can_be_delivered(
                #[trigger] self.queue@[i],
                self.sims@.len(),
            )
    }

    /// Nobody has said anything yet. The validators are named by their keypairs, and those
    /// without a behavior of their own are honest.
    pub fn new(
        keypairs: Vec<Keypair>,
        behaviors: &Vec<ByzantineBehavior>,
        schedule: ValidatorSchedule,
        partition: Option<Partition>,
    ) -> (run: Self)
        requires
            forall|i: int| 0 <= i < keypairs@.len() ==> (#[trigger] keypairs@[i]).wf(),
        ensures
            run.wf(),
            run.keypairs == keypairs,
            run.schedule == schedule,
            run.partition == partition,
            run.queue@ == Seq::<Event>::empty(),
            run.queue.seq() == 0,
            run.certified@ == Seq::<(u64, Pubkey, [u8; 32])>::empty(),
            forall|i: int|
                0 <= i < keypairs@.len() ==> {
                    let v = #[trigger] run.sims@[i];
                    &&& v.id == address(keypairs@[i])
                    &&& v.behavior == if i < behaviors@.len() {
                        behaviors@[i]
                    } else {
                        ByzantineBehavior::Honest
                    }
                    &&& v@ == blank()
                },
    {
        let mut sims: Vec<SimValidator> = Vec::new();
        let mut i: usize = 0;
        while i < keypairs.len()
            invariant
                i <= keypairs@.len(),
                sims@.len() == i,
                forall|j: int| 0 <= j < i ==> (#[trigger] sims@[j]).wf(),
                forall|j: int|
                    0 <= j < i ==> {
                        let v = #[trigger] sims@[j];
                        &&& v.id == address(keypairs@[j])
                        &&& v.behavior == if j < behaviors@.len() {
                            behaviors@[j]
                        } else {
                            ByzantineBehavior::Honest
                        }
                        &&& v@ == blank()
                    },
            decreases keypairs@.len() - i,
        {
            let behavior = if i < behaviors.len() {
                behaviors[i]
            } else {
                ByzantineBehavior::Honest
            };
            let id = keypairs[i].pubkey();
            sims.push(SimValidator::new(id, behavior));
            i += 1;
        }
        Simulation {
            keypairs,
            sims,
            schedule,
            partition,
            queue: EventQueue::new(),
            certified: Certified::new(),
        }
    }

    /// The ids of the validators.
    pub fn ids(&self) -> (ids: Vec<Pubkey>)
        ensures
            ids@ == ids_of(self.sims@),
    {
        let mut ids: Vec<Pubkey> = Vec::new();
        let mut i: usize = 0;
        while i < self.sims.len()
            invariant
                i <= self.sims@.len(),
                ids@ == ids_of(self.sims@).take(i as int),
            decreases self.sims@.len() - i,
        {
            ids.push(self.sims[i].id);
            proof {
                assert(ids@ =~= ids_of(self.sims@).take(i + 1));
            }
            i += 1;
        }
        proof {
            assert(ids@ =~= ids_of(self.sims@));
        }
        ids
    }

    /// Lets the validator at `i` do what it does of its own accord. None where rounds or
    /// places for certificates have run out, or where a fresh vertex is to be signed and the
    /// system has no random numbers; then nothing has changed.
    pub fn propose(&mut self, i: usize) -> (said: Option<Vec<(usize, SimMessage)>>)
        requires
            old(self).wf(),
            i < old(self).sims@.len(),
        ensures
            final(self).wf(),
            has_proposed(*old(self), i as int, said is Some, said->0@, *final(self)),
    {
        let ghost before = *self;
        let ids = self.ids();
        let peers = peers_of(&ids, i);
        proof {
            self.sims@[i as int].lemma_fields();
        }
        if self.sims[i].next_round == u64::MAX {
            return None;
        }
        if self.sims[i].dag.len() as u64 > u32::MAX as u64 {
            return None;
        }
        let round: u64 = self.sims[i].next_round;
        let last: u64 = if round == 0 {
            0
        } else {
            round - 1
        };
        let actions = match self.sims[i].propose_under(
            &self.keypairs[i],
            self.schedule.for_round(last),
            self.schedule.for_round(round),
            &peers,
        ) {
            Some(a) => a,
            None => return None,
        };
        let ghost list = actions@;
        proof {
            lemma_own_accord_is_sent(
                before.sims@[i as int]@,
                before.sims@[i as int].id,
                before.sims@[i as int].behavior,
                before.keypairs@[i as int],
                before.schedule.at(last),
                before.schedule.at(round),
                peers@,
                (self.sims@[i as int]@, actions_data(list)),
            );
        }
        let letters_out = match perform(&self.keypairs[i], actions) {
            Some(m) => m,
            None => {
                proof {
                    let k = choose|k: int| 0 <= k < list.len() && (#[trigger] list[k])@ is Vote;
                    assert(actions_data(list)[k] is Vote);
                }
                return None;
            },
        };
        let ghost raw = letters(letters_out@);
        proof {
            let did = actions_data(list);
            assert forall|k: int| 0 <= k < did.len() implies carries_out(
                before.keypairs@[i as int],
                #[trigger] did[k],
                raw[k].0,
                raw[k].1,
            ) by {
                assert(did[k] == list[k]@);
            }
            assert(spoke(before, self.sims@[i as int]@, i as int, did, raw));
        }
        let ghost sent = letters_out@;
        let said = place_all(&ids, letters_out);
        proof {
            if said is None {
                let k = choose|k: int|
                    0 <= k < sent.len() && !message_has_digest((#[trigger] sent[k]).1@);
                let did = actions_data(list)[k];
                assert(carries_out(before.keypairs@[i as int], did, raw[k].0, raw[k].1));
            }
        }
        said
    }

    /// Lets the validator at `i` ask again for what it is missing.
    pub fn retry(&mut self, i: usize) -> (said: Vec<(usize, SimMessage)>)
        requires
            old(self).wf(),
            i < old(self).sims@.len(),
        ensures
            final(self).wf(),
            has_retried(*old(self), i as int, said@, *final(self)),
    {
        let ghost before = *self;
        let ids = self.ids();
        let actions = self.sims[i].retry_pending_cert_requests();
        let ghost list = actions@;
        let letters_out = match perform(&self.keypairs[i], actions) {
            Some(m) => m,
            None => {
                proof {
                    let k = choose|k: int| 0 <= k < list.len() && (#[trigger] list[k])@ is Vote;
                    let s = before.sims@[i as int]@;
                    assert(actions_data(list)[k] is Vote);
                    let open = unanswered(s.requests, s.dag);
                    assert(actions_data(list).len() == list.len());
                    assert(asking_each(open).len() == open.len());
                    assert(asking_each(open)[k] == ActionData::Send {
                        to: open[k].1,
                        message: SimMessageData::CertificateRequest { digest: open[k].0 },
                    });
                }
                Vec::new()
            },
        };
        let ghost raw = letters(letters_out@);
        proof {
            let did = actions_data(list);
            assert forall|k: int| 0 <= k < did.len() implies carries_out(
                before.keypairs@[i as int],
                #[trigger] did[k],
                raw[k].0,
                raw[k].1,
            ) by {
                assert(did[k] == list[k]@);
            }
            assert(carried(before.keypairs@[i as int], did, raw));
        }
        let ghost sent = letters_out@;
        match place_all(&ids, letters_out) {
            Some(said) => said,
            None => {
                proof {
                    let k = choose|k: int|
                        0 <= k < sent.len() && !message_has_digest((#[trigger] sent[k]).1@);
                    let did = actions_data(list)[k];
                    assert(carries_out(before.keypairs@[i as int], did, raw[k].0, raw[k].1));
                    assert(did->message is CertificateRequest);
                }
                Vec::new()
            },
        }
    }

    /// Sends a message off at `tick`. A certificate that is broadcast is noted; then the
    /// message is lost where a partition is in its way or `fate` says so, and arrives after
    /// the delay that `fate` gives otherwise.
    pub fn send(
        &mut self,
        tick: u64,
        from: usize,
        to: usize,
        message: SimMessage,
        fate: Option<u64>,
    )
        requires
            old(self).wf(),
            from < old(self).sims@.len(),
            to < old(self).sims@.len(),
            message_has_digest(message@),
            old(self).queue.seq() < u64::MAX,
            fate is Some ==> tick + 1 + fate->0 <= u64::MAX,
        ensures
            final(self).wf(),
            has_sent(*old(self), tick, from, to, message, fate, *final(self)),
    {
        let ghost before = self.queue@;
        self.certified.note(&message);
        if cut_off(&self.partition, tick, from, to) {
            return;
        }
        match fate {
            None => {},
            Some(delay) => {
                self.queue.push(tick, delay, from, to, message);
                proof {
                    let event = Event {
                        at: (tick + 1 + delay) as u64,
                        seq: old(self).queue.seq(),
                        from,
                        to,
                        message,
                    };
                    let k = choose|k: int|
                        0 <= k <= before.len() && self.queue@ == #[trigger] before.insert(k, event);
                    assert forall|i: int| 0 <= i < self.queue@.len() implies (
                    #[trigger] self.queue@[i]).from < self.sims@.len() && self.queue@[i].to
                        < self.sims@.len() && message_has_digest(self.queue@[i].message@) by {
                        if i < k {
                            assert(self.queue@[i] == before[i]);
                        } else if i > k {
                            assert(self.queue@[i] == before[i - 1]);
                        }
                    }
                }
            },
        }
    }

    /// Takes what arrives at `tick` off its way, in order.
    pub fn take_due(&mut self, tick: u64) -> (due: Vec<Event>)
        requires
            old(self).wf(),
        ensures
            final(self).wf(),
            has_taken(*old(self), tick, due@, *final(self)),
            forall|i: int|
                0 <= i < due@.len() ==> can_be_delivered(#[trigger] due@[i], old(self).sims@.len()),
    {
        let ghost before = self.queue@;
        let due = self.queue.take_due(tick);
        proof {
            assert forall|i: int| 0 <= i < due@.len() implies (#[trigger] due@[i]).at <= tick
                && due@[i].from < self.sims@.len() && due@[i].to < self.sims@.len()
                && message_has_digest(due@[i].message@) by {
                assert(due@[i] == before[i]);
            }
            assert forall|i: int| 0 <= i < self.queue@.len() implies (
            #[trigger] self.queue@[i]).from < self.sims@.len() && self.queue@[i].to
                < self.sims@.len() && message_has_digest(self.queue@[i].message@) by {
                assert(self.queue@[i] == before[due@.len() + i]);
            }
        }
        due
    }

    /// Hands a message to the validator it is for. `verified` says whether the certificate
    /// in it, where there is one, is good. None where a vote is to be signed and the system
    /// has no random numbers.
    pub fn deliver(&mut self, event: Event, verified: bool) -> (said: Option<
        Vec<(usize, SimMessage)>,
    >)
        requires
            old(self).wf(),
            can_be_delivered(event, old(self).sims@.len()),
        ensures
            final(self).wf(),
            has_delivered(*old(self), event, verified, said is Some, said->0@, *final(self)),
    {
        let ghost before = *self;
        let ids = self.ids();
        let to: usize = event.to;
        let peers = peers_of(&ids, to);
        let from: Pubkey = ids[event.from];
        let round: u64 = self.sims[to].judged_round(&event.message);
        proof {
            self.sims@[to as int].lemma_fields();
        }
        let answers = self.sims[to].handle_message(
            &self.keypairs[to],
            from,
            event.message,
            self.schedule.for_round(round),
            &peers,
            verified,
        );
        match answers {
            None => None,
            Some(list) => {
                let ghost raw = letters(list@);
                proof {
                    let v = before.sims@[to as int];
                    let r = reaction(
                        v@,
                        v.behavior,
                        from,
                        event.message@,
                        before.schedule.at(round),
                        peers@,
                        verified,
                    );
                    assert(carried(before.keypairs@[to as int], r.1, raw));
                }
                let ghost sent = list@;
                let said = place_all(&ids, list);
                proof {
                    if said is None {
                        let v = before.sims@[to as int];
                        let did = reaction(
                            v@,
                            v.behavior,
                            from,
                            event.message@,
                            before.schedule.at(round),
                            peers@,
                            verified,
                        ).1;
                        let k = choose|k: int|
                            0 <= k < sent.len() && !message_has_digest((#[trigger] sent[k]).1@);
                        assert(carries_out(before.keypairs@[to as int], did[k], raw[k].0, raw[k].1));
                    }
                }
                said
            },
        }
    }

    /// The validator at `i` takes over what the ordering of its certificates has settled.
    pub fn commit(&mut self, i: usize, newly: &Vec<[u8; 32]>)
        requires
            old(self).wf(),
            i < old(self).sims@.len(),
        ensures
            final(self).wf(),
            has_committed(*old(self), i as int, newly@, *final(self)),
    {
        self.sims[i].commit(newly);
    }
}

/// What a validator remembers before anything has happened.
pub open spec fn blank() -> SimState {
    SimState {
        own_pending: None,
        votes: Map::empty(),
        voted_for: Map::empty(),
        first_seen: Map::empty(),
        evidence: Map::empty(),
        requests: Seq::empty(),
        dag: Map::empty(),
        next_round: 0,
        committed: Seq::empty(),
    }
}

} // verus!
