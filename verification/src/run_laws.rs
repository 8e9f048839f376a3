//! How a run of the simulation goes: who speaks when, what arrives and when, and what is told of
//! it at the end.
use crate::keymap::key_lt;
use crate::keys::{ed25519_signed, mldsa_signs, Keypair};
use crate::pubkey::{base58, Pubkey};
use crate::signer::address;
use crate::sim::{
    authors_of, certificates_of, committed_round, diverge, divergence_words, first_rival,
    has_quorum, is_cut_off, list_words, note_words, rival_certificates, rivals_words, Event,
    ValidatorSchedule,
};
use crate::sim_driver::{advanced, coming, Next, Phase, Run};
use crate::sim_run::{
    blank, carried, has_committed, has_delivered, has_proposed, has_retried, has_sent, has_taken,
    ids_of, in_address_order, parcels, place_of, placed, spoke, Simulation,
};
use crate::sim_validator::{
    asking_each, carries_out, judged_in, reaction, unanswered, went_on, ActionData, SimMessage,
    SimMessageData, SimState, SimValidator,
};
use crate::text::decimal;
use crate::vertex::vertex_digest;
use vstd::prelude::*;
use vstd::string::*;

verus! {

/// A validator stands where its id first stands, and nowhere where it does not.
pub proof fn law_validators_have_their_places(ids: Seq<Pubkey>, id: Pubkey)
    ensures
        match place_of(ids, id) {
            Some(i) => 0 <= i < ids.len() && ids[i] == id && forall|j: int|
                0 <= j < i ==> #[trigger] ids[j] != id,
            None => !ids.contains(id),
        },
    decreases ids.len(),
{
    if ids.len() > 0 {
        let front = ids.drop_last();
        law_validators_have_their_places(front, id);
        match place_of(front, id) {
            Some(i) => {
                assert(ids[i] == front[i]);
                assert forall|j: int| 0 <= j < i implies #[trigger] ids[j] != id by {
                    assert(front[j] == ids[j]);
                }
            },
            None => {
                assert forall|j: int| 0 <= j < front.len() implies #[trigger] ids[j] != id by {
                    assert(front[j] == ids[j]);
                    if ids[j] == id {
                        assert(front.contains(id));
                    }
                }
            },
        }
    }
}

/// Messages go to the places of those whom they are for, in their order; those for nobody here
/// are dropped.
pub proof fn law_messages_go_to_places(
    ids: Seq<Pubkey>,
    s: Seq<(Pubkey, SimMessageData)>,
    last: (Pubkey, SimMessageData),
)
    ensures
        placed(ids, Seq::empty()) == Seq::<(usize, SimMessageData)>::empty(),
        place_of(ids, last.0) matches Some(i) ==> placed(ids, s.push(last)) == placed(ids, s).push(
            (i as usize, last.1),
        ),
        place_of(ids, last.0) is None ==> placed(ids, s.push(last)) == placed(ids, s),
{
    assert(s.push(last).drop_last() =~= s);
}

/// What a validator does is what it says: a message goes out as it is, to whom it is for, and a
/// vote with its own signature of the digest.
pub proof fn law_actions_are_carried_out(
    keypair: Keypair,
    actions: Seq<ActionData>,
    messages: Seq<(Pubkey, SimMessageData)>,
    i: int,
)
    requires
        carried(keypair, actions, messages),
        0 <= i < actions.len(),
    ensures
        messages.len() == actions.len(),
        match actions[i] {
            ActionData::Send { to, message } => messages[i] == (to, message),
            ActionData::Vote { to, digest } => messages[i].0 == to && (
            messages[i].1 matches SimMessageData::Vote { vertex_digest, signature }
                && vertex_digest == digest && signature.ed25519 == ed25519_signed(
                keypair.ed25519_secret(),
                digest@,
            ) && mldsa_signs(keypair.mldsa_secret(), digest@, signature.mldsa)),
        },
{
    assert(carries_out(keypair, actions[i], messages[i].0, messages[i].1));
}

/// Requests that are still open are asked again, each of whom it was asked before.
pub proof fn law_open_requests_are_asked_again(open: Seq<([u8; 32], Pubkey)>, i: int)
    ensures
        asking_each(open).len() == open.len(),
        0 <= i < open.len() ==> asking_each(open)[i] == (ActionData::Send {
            to: open[i].1,
            message: SimMessageData::CertificateRequest { digest: open[i].0 },
        }),
{
}

/// A message that is neither cut off nor lost arrives one tick after it was sent, and as many
/// more as it is delayed. Whether it arrives or not, a certificate that is sent out is counted as
/// formed, once.
pub proof fn law_messages_take_time(
    before: Simulation,
    tick: u64,
    from: usize,
    to: usize,
    message: SimMessage,
    fate: Option<u64>,
    after: Simulation,
)
    requires
        has_sent(before, tick, from, to, message, fate, after),
    ensures
        after.sims == before.sims,
        after.schedule == before.schedule && after.partition == before.partition
            && after.keypairs == before.keypairs,
        is_cut_off(before.partition, tick, from, to) || fate is None ==> after.queue
            == before.queue,
        !is_cut_off(before.partition, tick, from, to) ==> (fate matches Some(delay) ==> (tick + 1
            + delay <= u64::MAX ==> {
            &&& after.queue@.len() == before.queue@.len() + 1
            &&& after.queue.seq() == before.queue.seq() + 1
            &&& exists|k: int|
                0 <= k < after.queue@.len() && {
                    &&& (#[trigger] after.queue@[k]).at == tick + 1 + delay
                    &&& after.queue@[k].from == from
                    &&& after.queue@[k].to == to
                    &&& after.queue@[k].message == message
                    &&& after.queue@[k].seq == before.queue.seq()
                    &&& after.queue@.remove(k) == before.queue@
                }
        })),
        message@ matches SimMessageData::CertificateBroadcast(c) ==> {
            let entry = (c.vertex.round, c.vertex.author, vertex_digest(c.vertex));
            &&& after.certified@.contains(entry)
            &&& before.certified@.contains(entry) ==> after.certified@ == before.certified@
            &&& !before.certified@.contains(entry) ==> after.certified@ == before.certified@.push(
                entry,
            )
        },
        !(message@ is CertificateBroadcast) ==> after.certified@ == before.certified@,
{
    if !is_cut_off(before.partition, tick, from, to) && fate is Some {
        let e = Event {
            at: (tick + 1 + fate->0) as u64,
            seq: before.queue.seq(),
            from,
            to,
            message,
        };
        let k = choose|k: int|
            0 <= k <= before.queue@.len() && after.queue@ == #[trigger] before.queue@.insert(k, e);
        assert(after.queue@[k] == e);
        assert(after.queue@.remove(k) =~= before.queue@);
    }
    if let SimMessageData::CertificateBroadcast(c) = message@ {
        let entry = (c.vertex.round, c.vertex.author, vertex_digest(c.vertex));
        if !before.certified@.contains(entry) {
            assert(after.certified@[before.certified@.len() as int] == entry);
        }
    }
}

/// What is due in a tick is everything that has arrived by then, in its order; the rest waits.
pub proof fn law_due_messages_are_taken(
    before: Simulation,
    tick: u64,
    due: Seq<Event>,
    after: Simulation,
    i: int,
)
    requires
        has_taken(before, tick, due, after),
        0 <= i < before.queue@.len(),
    ensures
        due.len() + after.queue@.len() == before.queue@.len(),
        i < due.len() ==> due[i] == before.queue@[i] && before.queue@[i].at <= tick,
        i >= due.len() ==> after.queue@[i - due.len()] == before.queue@[i] && before.queue@[i].at
            > tick,
        after.sims == before.sims && after.certified == before.certified,
        after.queue.seq() == before.queue.seq(),
        after.schedule == before.schedule && after.partition == before.partition
            && after.keypairs == before.keypairs,
{
    assert(before.queue@[i] == (due + after.queue@)[i]);
    if i < due.len() {
        assert(due[i].at <= tick);
    } else {
        assert(after.queue@[i - due.len()].at > tick);
    }
}

/// What is newly ordered comes after what was, and nothing else of the validator changes.
pub proof fn law_orders_grow_at_the_end(
    before: Simulation,
    i: int,
    newly: Seq<[u8; 32]>,
    after: Simulation,
)
    requires
        has_committed(before, i, newly, after),
    ensures
        after.sims@[i]@.committed == before.sims@[i]@.committed + newly,
        after.sims@[i]@.dag == before.sims@[i]@.dag,
        after.sims@[i]@.next_round == before.sims@[i]@.next_round,
        after.sims@[i]@.own_pending == before.sims@[i]@.own_pending,
        after.sims@[i]@.votes == before.sims@[i]@.votes,
        after.queue == before.queue && after.certified == before.certified,
        after.schedule == before.schedule && after.partition == before.partition
            && after.keypairs == before.keypairs,
        forall|j: int|
            0 <= j < before.sims@.len() && j != i ==> #[trigger] after.sims@[j] == before.sims@[j],
{
}

/// A validator starts with nothing, in round zero.
pub proof fn law_validators_start_blank()
    ensures
        blank().next_round == 0,
        blank().own_pending is None,
        blank().committed.len() == 0,
        blank().requests.len() == 0,
        blank().dag == Map::<[u8; 32], crate::dag::CertificateData>::empty(),
        forall|d: [u8; 32]| !#[trigger] blank().votes.contains_key(d),
        forall|k: (u64, Pubkey)| !#[trigger] blank().voted_for.contains_key(k),
        forall|k: (u64, Pubkey)| !#[trigger] blank().first_seen.contains_key(k),
        forall|k: (u64, Pubkey)| !#[trigger] blank().evidence.contains_key(k),
{
}

/// What comes next in a run. First what was said goes out, one by one, lost where the partition
/// cuts it off; then whoever just got a message orders what it knows. In every tick each
/// validator proposes and asks again, in their order; then what is due is collected and
/// delivered, certificates after a verdict on them; then the next tick comes, until all are over.
pub proof fn law_what_comes_next(run: Run)
    ensures
        run.tick >= run.ticks <==> coming(run) is Done,
        run.tick < run.ticks && run.outbox@.len() > 0 ==> {
            let cut = is_cut_off(run.sim.partition, run.tick, run.from, run.outbox@[0].0);
            &&& cut ==> coming(run) is Lose
            &&& !cut ==> coming(run) is Fate
        },
        run.tick < run.ticks && run.outbox@.len() == 0 ==> {
            &&& run.settling matches Some(i) ==> coming(run) == Next::Order(i)
            &&& run.settling is None ==> match run.phase {
                Phase::Propose(i) => if i < run.sim.sims@.len() {
                    coming(run) == Next::Propose(i)
                } else {
                    coming(run) is Collect
                },
                Phase::Retry(i) => coming(run) == Next::Retry(i),
                Phase::Deliver => {
                    &&& run.due@.len() == 0 ==> coming(run) is Tick
                    &&& run.due@.len() > 0 ==> match run.due@[0].message@ {
                        SimMessageData::CertificateBroadcast(c) => coming(run) is Verdict,
                        SimMessageData::CertificateResponse(c) => coming(run) is Verdict,
                        _ => coming(run) is Deliver,
                    }
                },
            }
        },
{
}

/// After a validator proposed it asks again, after that the next one proposes; after the
/// collecting comes the delivering, the first first; and a new tick begins with the first.
pub proof fn law_runs_go_in_turn(a: Run, b: Run)
    requires
        advanced(a, true, b),
        a.tick < u64::MAX,
    ensures
        coming(a) matches Next::Propose(i) ==> b.phase == Phase::Retry(i) && b.from == i && b.tick
            == a.tick,
        coming(a) matches Next::Retry(i) ==> (i < usize::MAX ==> b.phase == Phase::Propose(
            (i + 1) as usize,
        )) && b.from == i && b.tick == a.tick,
        coming(a) is Collect ==> b.phase is Deliver && b.tick == a.tick,
        coming(a) is Deliver ==> b.due@ == a.due@.skip(1) && b.settling == Some(a.due@[0].to)
            && b.from == a.due@[0].to && b.phase == a.phase && b.tick == a.tick,
        coming(a) is Lose ==> b.outbox@ == a.outbox@.skip(1) && b.sim.queue == a.sim.queue
            && b.tick == a.tick,
        coming(a) is Tick ==> b.tick == a.tick + 1 && b.phase == Phase::Propose(0) && b.sim
            == a.sim,
        b.ticks == a.ticks,
{
}

/// The authors that have a certificate of a round.
pub proof fn law_authors_of_a_round(
    c: Seq<(u64, Pubkey, [u8; 32])>,
    round: u64,
    author: Pubkey,
)
    ensures
        authors_of(c, round).contains(author) <==> exists|i: int|
            0 <= i < c.len() && (#[trigger] c[i]).0 == round && c[i].1 == author,
{
    lemma_counted(c, round, author);
}

proof fn lemma_counted(c: Seq<(u64, Pubkey, [u8; 32])>, round: u64, author: Pubkey)
    ensures
        certificates_of(c, round, author) >= 1 <==> exists|i: int|
            0 <= i < c.len() && (#[trigger] c[i]).0 == round && c[i].1 == author,
    decreases c.len(),
{
    if c.len() > 0 {
        let front = c.drop_last();
        lemma_counted(front, round, author);
        if c.last().0 == round && c.last().1 == author {
            assert(c[c.len() - 1].0 == round);
        }
        if exists|i: int| 0 <= i < front.len() && (#[trigger] front[i]).0 == round && front[i].1
            == author {
            let i = choose|i: int|
                0 <= i < front.len() && (#[trigger] front[i]).0 == round && front[i].1 == author;
            assert(c[i] == front[i]);
        }
        if exists|i: int| 0 <= i < c.len() && (#[trigger] c[i]).0 == round && c[i].1 == author {
            let i = choose|i: int|
                0 <= i < c.len() && (#[trigger] c[i]).0 == round && c[i].1 == author;
            if i < front.len() {
                assert(front[i].0 == round);
            }
        }
    }
}

/// A round has a quorum where it has a certificate and its authors are as many as the quorum of
/// the committee in charge of it.
pub proof fn law_rounds_with_a_quorum(
    c: Seq<(u64, Pubkey, [u8; 32])>,
    schedule: ValidatorSchedule,
    round: u64,
)
    ensures
        has_quorum(c, schedule, round) <==> authors_of(c, round).len() >= schedule.at(round).quorum
            && exists|i: int| 0 <= i < c.len() && (#[trigger] c[i]).0 == round,
{
}

/// Two honest validators diverge where at some place both have ordered, they ordered differently.
pub proof fn law_divergence(s: Seq<SimValidator>, i: int, j: int)
    requires
        0 <= i < j < s.len(),
    ensures
        diverge(s, i, j) <==> s[i].behavior is Honest && s[j].behavior is Honest && exists|k: int|
            0 <= k < s[i]@.committed.len() && k < s[j]@.committed.len()
                && #[trigger] s[i]@.committed[k] != s[j]@.committed[k],
{
}

/// The first certificate that is told of as a rival is the first whose author has two or more of
/// its round.
pub proof fn law_first_rival(c: Seq<(u64, Pubkey, [u8; 32])>, i: int)
    ensures
        first_rival(c, i) <==> 0 <= i < c.len() && certificates_of(c, c[i].0, c[i].1) >= 2
            && forall|k: int|
            0 <= k < i ==> certificates_of(c, (#[trigger] c[k]).0, c[k].1) <= 1,
{
}

/// A round counts as committed where an honest validator has ordered a vertex of it.
pub proof fn law_committed_rounds(s: Seq<SimValidator>, i: int, k: int, round: u64)
    requires
        0 <= i < s.len(),
        0 <= k < s[i]@.committed.len(),
    ensures
        committed_round(s, i, k, round) <==> {
            let d = s[i]@.committed[k];
            s[i].behavior is Honest && s[i]@.dag.contains_key(d) && s[i]@.dag[d].vertex.round
                == round
        },
{
}

/// What is told at the end of a run.
pub proof fn law_runs_are_told(
    i: nat,
    j: nat,
    n: nat,
    round: u64,
    author: Pubkey,
    counts: Seq<usize>,
    last: usize,
)
    ensures
        divergence_words(i as int, j as int) == "honest validators at index "@ + decimal(i)
            + " and "@ + decimal(j) + " disagree on committed order"@,
        rivals_words(n, round, author) == decimal(n) + " distinct certificates formed for round "@
            + decimal(round as nat) + ", author "@ + base58(author.0@),
        list_words(Seq::empty()) == "["@ + "]"@,
        list_words(seq![last]) == "["@ + decimal(last as nat) + "]"@,
        counts.len() > 0 ==> list_words(counts.push(last)) == "["@ + crate::sim::list_items(counts)
            + ", "@ + decimal(last as nat) + "]"@,
{
    assert("["@ + Seq::<char>::empty() =~= "["@);
    assert(counts.push(last).drop_last() =~= counts);
    let items = crate::sim::list_items(counts);
    assert("["@ + (items + ", "@ + decimal(last as nat)) =~= "["@ + items + ", "@ + decimal(
        last as nat,
    ));
}

/// What is told of a run that did not cross the epoch's boundary.
pub proof fn law_stuck_runs_are_told(
    committed: u64,
    epoch_rounds: u64,
    counts: Seq<usize>,
    quorum: u64,
)
    ensures
        note_words(committed, epoch_rounds, counts, quorum)
            == "did not cross epoch boundary: max_committed_round="@ + decimal(committed as nat)
            + " < epoch_rounds="@ + decimal(epoch_rounds as nat) + " (committed counts "@
            + list_words(counts) + "); max_round_with_quorum="@ + decimal(quorum as nat)
            + ". This is the documented leader-starvation liveness limit under the injected certificate loss (extend_order stops at the first Undecided round; the indirect commit rule is deferred), NOT a safety issue and NOT noise — it is deterministic for this seed's drop schedule."@,
{
}

/// In its turn a validator goes on under the committee of the round before its next one, with all
/// others as its peers, in their order; what it says goes to their places. Nobody else changes.
pub proof fn law_validators_take_turns(
    before: Simulation,
    i: int,
    said: Seq<(usize, SimMessage)>,
    after: Simulation,
) -> (done: (Seq<ActionData>, Seq<(Pubkey, SimMessageData)>))
    requires
        has_proposed(before, i, true, said, after),
        0 <= i < before.sims@.len(),
    ensures
        ({
            let v = before.sims@[i];
            let round = v@.next_round;
            &&& went_on(
                v@,
                v.id,
                v.behavior,
                before.keypairs@[i],
                before.schedule.at(
                    if round == 0 {
                        0
                    } else {
                        (round - 1) as u64
                    },
                ),
                before.schedule.at(round),
                all_ids(before).remove(i),
                (after.sims@[i]@, done.0),
            )
            &&& carried(before.keypairs@[i], done.0, done.1)
            &&& parcels(said) == placed(all_ids(before), done.1)
        }),
        forall|j: int|
            0 <= j < before.sims@.len() && j != i ==> #[trigger] after.sims@[j] == before.sims@[j],
        after.sims@.len() == before.sims@.len(),
        after.queue == before.queue && after.certified == before.certified,
        after.schedule == before.schedule && after.partition == before.partition
            && after.keypairs == before.keypairs,
{
    let (actions, messages): (Seq<ActionData>, Seq<(Pubkey, SimMessageData)>) = choose|
        actions: Seq<ActionData>,
        messages: Seq<(Pubkey, SimMessageData)>,
    | #[trigger]
        spoke(before, after.sims@[i]@, i, actions, messages) && parcels(said) == placed(
            ids_of(before.sims@),
            messages,
        );
    assert(all_ids(before) =~= ids_of(before.sims@));
    (actions, messages)
}

/// The ids of all validators, in their order.
pub open spec fn all_ids(sim: Simulation) -> Seq<Pubkey> {
    Seq::new(sim.sims@.len(), |i: int| sim.sims@[i].id)
}

/// A message is taken in by the one that it is for, as coming from its sender, under the
/// committee of the round that it is about; what that one says goes to the places of those it is
/// for. Nobody else changes.
pub proof fn law_messages_are_taken_in(
    before: Simulation,
    event: Event,
    verified: bool,
    said: Seq<(usize, SimMessage)>,
    after: Simulation,
) -> (messages: Seq<(Pubkey, SimMessageData)>)
    requires
        has_delivered(before, event, verified, true, said, after),
        event.to < before.sims@.len(),
    ensures
        ({
            let v = before.sims@[event.to as int];
            let r = reaction(
                v@,
                v.behavior,
                before.sims@[event.from as int].id,
                event.message@,
                before.schedule.at(judged_in(v@, event.message@)),
                all_ids(before).remove(event.to as int),
                verified,
            );
            &&& after.sims@[event.to as int]@ == r.0
            &&& carried(before.keypairs@[event.to as int], r.1, messages)
            &&& parcels(said) == placed(all_ids(before), messages)
        }),
        forall|j: int|
            0 <= j < before.sims@.len() && j != event.to ==> #[trigger] after.sims@[j]
                == before.sims@[j],
        after.sims@.len() == before.sims@.len(),
        after.queue == before.queue && after.certified == before.certified,
        after.schedule == before.schedule && after.partition == before.partition
            && after.keypairs == before.keypairs,
{
    let v = before.sims@[event.to as int];
    let r = reaction(
        v@,
        v.behavior,
        before.sims@[event.from as int].id,
        event.message@,
        before.schedule.at(judged_in(v@, event.message@)),
        ids_of(before.sims@).remove(event.to as int),
        verified,
    );
    assert(all_ids(before) =~= ids_of(before.sims@));
    choose|messages: Seq<(Pubkey, SimMessageData)>| #[trigger]
        carried(before.keypairs@[event.to as int], r.1, messages) && parcels(said) == placed(
            ids_of(before.sims@),
            messages,
        )
}

/// A validator that asks again forgets the requests that were answered, and asks for the others.
pub proof fn law_validators_ask_again(
    before: Simulation,
    i: int,
    said: Seq<(usize, SimMessage)>,
    after: Simulation,
) -> (messages: Seq<(Pubkey, SimMessageData)>)
    requires
        has_retried(before, i, said, after),
        0 <= i < before.sims@.len(),
    ensures
        ({
            let s = before.sims@[i]@;
            let open = unanswered(s.requests, s.dag);
            &&& after.sims@[i]@ == (SimState { requests: open, ..s })
            &&& carried(before.keypairs@[i], asking_each(open), messages)
            &&& parcels(said) == placed(all_ids(before), messages)
        }),
        forall|j: int|
            0 <= j < before.sims@.len() && j != i ==> #[trigger] after.sims@[j] == before.sims@[j],
        after.queue == before.queue && after.certified == before.certified,
        after.schedule == before.schedule && after.partition == before.partition
            && after.keypairs == before.keypairs,
{
    assert(all_ids(before) =~= ids_of(before.sims@));
    let s = before.sims@[i]@;
    choose|messages: Seq<(Pubkey, SimMessageData)>| #[trigger]
        carried(
            before.keypairs@[i],
            asking_each(unanswered(s.requests, s.dag)),
            messages,
        ) && parcels(said) == placed(ids_of(before.sims@), messages)
}

/// Two certificates are rivals where they are of one author and one round.
pub proof fn law_rival_certificates(c: Seq<(u64, Pubkey, [u8; 32])>, i: int, j: int)
    requires
        0 <= i < j < c.len(),
    ensures
        rival_certificates(c, i, j) <==> c[i].0 == c[j].0 && c[i].1 == c[j].1,
{
}

/// Keys are in order where no address comes before an earlier one.
pub proof fn law_keys_are_in_order(s: Seq<Keypair>, i: int, j: int)
    requires
        in_address_order(s),
        0 <= i < j < s.len(),
    ensures
        !key_lt(address(s[j]).0, address(s[i]).0),
{
}

/// What is done in each step of a run: the one whose turn it is proposes or asks again, what has
/// arrived by this tick is collected, and the first message is taken in as it is.
pub proof fn law_steps_do_what_is_next(a: Run, b: Run)
    requires
        advanced(a, true, b),
    ensures
        coming(a) matches Next::Propose(i) ==> has_proposed(
            a.sim,
            i as int,
            true,
            b.outbox@,
            b.sim,
        ) && b.due@ == a.due@ && b.settling == a.settling,
        coming(a) matches Next::Retry(i) ==> has_retried(a.sim, i as int, b.outbox@, b.sim)
            && b.due@ == a.due@ && b.settling == a.settling,
        coming(a) is Collect ==> has_taken(a.sim, a.tick, b.due@, b.sim) && b.outbox@ == a.outbox@
            && b.settling == a.settling,
        coming(a) is Deliver ==> has_delivered(a.sim, a.due@[0], false, true, b.outbox@, b.sim),
        coming(a) is Lose ==> has_sent(
            a.sim,
            a.tick,
            a.from,
            a.outbox@[0].0,
            a.outbox@[0].1,
            None,
            b.sim,
        ),
{
}

/// A round counts as committed only at a place of an order of somebody who is there.
pub proof fn law_committed_rounds_are_somewhere(
    s: Seq<SimValidator>,
    i: int,
    k: int,
    round: u64,
)
    requires
        committed_round(s, i, k, round),
    ensures
        0 <= i < s.len(),
        0 <= k < s[i]@.committed.len(),
{
}

/// Only validators that are there diverge, and the one that is told first comes first.
pub proof fn law_divergence_is_of_two(s: Seq<SimValidator>, i: int, j: int)
    requires
        diverge(s, i, j),
    ensures
        0 <= i < j < s.len(),
{
}

} // verus!
