//! What validators owe each other: on what a new round rests, when a vote and a certificate
//! come about, and what a run is told of it.
use crate::committee::{place_of, stake_in, weight, ValidatorSet};
use crate::dag::{in_round, lists_round, round_stake, CertificateData};
use crate::keymap::key_lt;
use crate::keys::{ed25519_signed, mldsa_signs, signature_good, BundleData, Keypair, SignatureData};
use crate::pubkey::Pubkey;
use crate::sim::{
    certificates_of, comes_first, consistent, honest_counts, is_cut_off, Event, Partition,
    ValidatorSchedule,
};
use crate::sim_run::round_before;
use crate::sim_validator::{
    are_parents, judged_in, made_with, may_go_on, missing, next_vertex, proposal_good, reaction,
    recorded, request_place, rival_count, unanswered, vote_place, vote_stake, went_on,
    with_requests, with_vote, ActionData, ByzantineBehavior, SimMessageData, SimState, SimValidator,
};
use crate::vertex::{vertex_digest, VertexData};
use vstd::prelude::*;

verus! {

/// The stake that a committee gives a validator: that of the first member with its id, and
/// none where no member has it.
pub open spec fn gives_stake(set: ValidatorSet, id: Pubkey, stake: nat) -> bool {
    ||| exists|i: int|
        0 <= i < set.members@.len() && (#[trigger] set.members@[i]).id == id
            && set.members@[i].stake == stake && forall|j: int|
            0 <= j < i ==> (#[trigger] set.members@[j]).id != id
    ||| stake == 0 && forall|i: int|
        0 <= i < set.members@.len() ==> (#[trigger] set.members@[i]).id != id
}

/// The public keys that a committee knows a validator by: those of the first member with its id.
pub open spec fn gives_keys(set: ValidatorSet, id: Pubkey, keys: BundleData) -> bool {
    exists|i: int|
        0 <= i < set.members@.len() && (#[trigger] set.members@[i]).id == id
            && set.members@[i].pubkey_bundle@ == keys && forall|j: int|
            0 <= j < i ==> (#[trigger] set.members@[j]).id != id
}

proof fn lemma_first_place(members: Seq<crate::committee::ValidatorInfo>, id: Pubkey)
    ensures
        0 <= place_of(members, id) <= members.len(),
        place_of(members, id) < members.len() ==> members[place_of(members, id)].id == id,
        forall|j: int| 0 <= j < place_of(members, id) ==> (#[trigger] members[j]).id != id,
    decreases members.len(),
{
    if members.len() > 0 && members[0].id != id {
        let rest = members.skip(1);
        lemma_first_place(rest, id);
        let p = place_of(rest, id);
        if p < rest.len() {
            assert(rest[p] == members[p + 1]);
        }
        assert forall|j: int| 0 <= j < place_of(members, id) implies (#[trigger] members[j]).id
            != id by {
            if j > 0 {
                assert(rest[j - 1] == members[j]);
            }
        }
    }
}

/// A validator weighs what its committee says, and whoever is not of it weighs nothing.
pub proof fn law_stake_is_what_the_committee_gives(set: ValidatorSet, id: Pubkey)
    ensures
        gives_stake(set, id, stake_in(set, id)),
{
    lemma_first_place(set.members@, id);
    let p = place_of(set.members@, id);
    if p < set.members@.len() {
        assert(set.members@[p].id == id);
    }
}

/// The stake behind a list of certificates: that of the author of each.
pub open spec fn stake_behind(
    certificates: Seq<[u8; 32]>,
    dag: Map<[u8; 32], CertificateData>,
    set: ValidatorSet,
) -> nat
    decreases certificates.len(),
{
    if certificates.len() == 0 {
        0
    } else {
        stake_in(set, dag[certificates.last()].vertex.author) + stake_behind(
            certificates.drop_last(),
            dag,
            set,
        )
    }
}

/// The list holds every certificate of the round once, and nothing else.
pub open spec fn all_of_round(
    certificates: Seq<[u8; 32]>,
    dag: Map<[u8; 32], CertificateData>,
    round: int,
) -> bool {
    &&& certificates.no_duplicates()
    &&& forall|d: [u8; 32]| #[trigger]
        certificates.contains(d) <==> dag.contains_key(d) && dag[d].vertex.round == round
}

proof fn lemma_stake_behind(
    certificates: Seq<[u8; 32]>,
    dag: Map<[u8; 32], CertificateData>,
    set: ValidatorSet,
    keys: Set<[u8; 32]>,
)
    requires
        certificates.no_duplicates(),
        keys.finite(),
        forall|d: [u8; 32]| #[trigger] certificates.contains(d) <==> keys.contains(d),
    ensures
        stake_behind(certificates, dag, set) == weight(
            keys,
            |d: [u8; 32]| stake_in(set, dag[d].vertex.author),
        ),
    decreases certificates.len(),
{
    let w = |d: [u8; 32]| stake_in(set, dag[d].vertex.author);
    if certificates.len() == 0 {
        assert forall|d: [u8; 32]| !keys.contains(d) by {
            assert(!certificates.contains(d));
        }
        assert(keys =~= Set::empty());
    } else {
        let last = certificates.last();
        let rest = certificates.drop_last();
        assert(certificates[certificates.len() - 1] == last);
        assert(certificates.contains(last));
        crate::committee::lemma_weight_remove(keys, w, last);
        assert forall|d: [u8; 32]| #[trigger] rest.contains(d) <==> keys.remove(last).contains(d) by {
            if rest.contains(d) {
                let i = choose|i: int| 0 <= i < rest.len() && rest[i] == d;
                assert(certificates[i] == d);
                assert(certificates.contains(d));
            }
            if keys.remove(last).contains(d) {
                assert(certificates.contains(d));
                let i = choose|i: int| 0 <= i < certificates.len() && certificates[i] == d;
                assert(rest[i] == d);
            }
        }
        lemma_stake_behind(rest, dag, set, keys.remove(last));
    }
}

proof fn lemma_round_stake(
    certificates: Seq<[u8; 32]>,
    dag: Map<[u8; 32], CertificateData>,
    set: ValidatorSet,
    round: u64,
)
    requires
        dag.dom().finite(),
        all_of_round(certificates, dag, round as int),
    ensures
        stake_behind(certificates, dag, set) == round_stake(dag, round, set),
{
    let keys = in_round(dag, round);
    assert forall|d: [u8; 32]| #[trigger] certificates.contains(d) <==> keys.contains(d) by {}
    lemma_stake_behind(certificates, dag, set, keys);
}

proof fn lemma_parents_are_all(parents: Seq<[u8; 32]>, s: SimState)
    requires
        are_parents(parents, s),
        s.next_round > 0,
    ensures
        all_of_round(parents, s.dag, s.next_round - 1),
{
    let round = (s.next_round - 1) as u64;
    assert forall|i: int, j: int|
        0 <= i < parents.len() && 0 <= j < parents.len() && i != j implies parents[i]
        != parents[j] by {
        if i < j {
            assert(key_lt(parents[i], parents[j]));
            crate::keymap::lemma_key_lt_asymmetric(parents[i], parents[j]);
        } else {
            assert(key_lt(parents[j], parents[i]));
            crate::keymap::lemma_key_lt_asymmetric(parents[j], parents[i]);
        }
    }
    assert forall|d: [u8; 32]| #[trigger] parents.contains(d) <==> s.dag.contains_key(d)
        && s.dag[d].vertex.round == s.next_round - 1 by {
        assert(parents.contains(d) <==> in_round(s.dag, round).contains(d));
    }
}

/// A validator opens its next round exactly where it is not silent and has nothing pending, and
/// the round is the first, or its own stake is a quorum of the committee `last` of the round
/// before, or the authors of all certificates of that round that it knows make up a quorum of
/// that committee. Otherwise it stays where it is.
pub proof fn law_new_rounds_rest_on_a_quorum(
    s: SimState,
    id: Pubkey,
    behavior: ByzantineBehavior,
    keypair: Keypair,
    last: ValidatorSet,
    set: ValidatorSet,
    peers: Seq<Pubkey>,
    after: (SimState, Seq<ActionData>),
    known: Seq<[u8; 32]>,
)
    requires
        went_on(s, id, behavior, keypair, last, set, peers, after),
        s.next_round < u64::MAX,
        s.dag.dom().finite(),
        s.next_round > 0 ==> all_of_round(known, s.dag, s.next_round - 1),
    ensures
        after.0.next_round == s.next_round || after.0.next_round == s.next_round + 1,
        after.0.next_round == s.next_round + 1 <==> !(behavior is Silent) && s.own_pending is None
            && {
            ||| s.next_round == 0
            ||| stake_in(last, id) >= last.quorum
            ||| stake_behind(known, s.dag, last) >= last.quorum
        },
        after.0.next_round == s.next_round ==> after.0 == s,
{
    if s.next_round > 0 {
        lemma_round_stake(known, s.dag, last, (s.next_round - 1) as u64);
    }
    if !(behavior is Silent) && s.own_pending is None && may_go_on(s, id, last) {
        let (parents, signature, rival): (
            Seq<[u8; 32]>,
            SignatureData,
            Option<(VertexData, SignatureData)>,
        ) = choose|
            parents: Seq<[u8; 32]>,
            signature: SignatureData,
            rival: Option<(VertexData, SignatureData)>,
        | #[trigger]
            made_with(s, id, behavior, keypair, set, peers, parents, signature, rival, after);
        assert(after.0.next_round == s.next_round + 1);
    }
}

/// No author has two certificates of the round.
pub open spec fn single_certificates(dag: Map<[u8; 32], CertificateData>, round: int) -> bool {
    forall|d: [u8; 32], e: [u8; 32]| #[trigger]
        dag.contains_key(d) && #[trigger] dag.contains_key(e) && dag[d].vertex.round == round
            && dag[e].vertex.round == round && dag[d].vertex.author == dag[e].vertex.author ==> d
            == e
}

/// The vertex that a message tells of: one that is proposed, or one that is certified.
pub open spec fn told_vertex(message: SimMessageData) -> Option<VertexData> {
    match message {
        SimMessageData::VertexProposal { vertex, author_signature } => Some(vertex),
        SimMessageData::CertificateBroadcast(c) => Some(c.vertex),
        _ => None,
    }
}

/// What a validator sends of its own accord, where nothing was pending, is vertices of its next
/// round and certificates of them: by itself, with every certificate of the round before that
/// it knows as a parent, so that, unless it is the first round or its own stake is a quorum, a
/// quorum of the committee of the round before stands behind each: of distinct authors, where
/// no author has two certificates of that round. Every peer gets one.
pub proof fn law_proposals_name_all_they_rest_on(
    s: SimState,
    id: Pubkey,
    behavior: ByzantineBehavior,
    keypair: Keypair,
    last: ValidatorSet,
    set: ValidatorSet,
    peers: Seq<Pubkey>,
    after: (SimState, Seq<ActionData>),
    k: int,
)
    requires
        went_on(s, id, behavior, keypair, last, set, peers, after),
        s.next_round < u64::MAX,
        s.dag.dom().finite(),
        s.own_pending is None,
        0 <= k < after.1.len(),
    ensures
        after.1[k] matches ActionData::Send { to, message } && peers.contains(to) && {
            &&& told_vertex(message) matches Some(vertex)
            &&& vertex.round == s.next_round
            &&& vertex.author == id
            &&& s.next_round == 0 ==> vertex.parents.len() == 0
            &&& s.next_round > 0 ==> all_of_round(vertex.parents, s.dag, s.next_round - 1)
            &&& s.next_round > 0 && stake_in(last, id) < last.quorum ==> stake_behind(
                vertex.parents,
                s.dag,
                last,
            ) >= last.quorum
            &&& s.next_round > 0 && single_certificates(s.dag, s.next_round - 1) ==> forall|
                i: int,
                j: int,
            |
                0 <= i < j < vertex.parents.len() ==> s.dag[#[trigger] vertex.parents[i]].vertex.author
                    != s.dag[#[trigger] vertex.parents[j]].vertex.author
            &&& vertex.batch_digests.len() == 1 && vertex.batch_digests[0].0 == 0
        },
        k < peers.len() ==> after.1[k]->Send_to == peers[k] && after.1[k]->message is VertexProposal
            && forall|i: int|
            0 <= i < 32 ==> #[trigger] after.1[k]->message->vertex.batch_digests[0].1@[i] == 0,
        after.1.len() >= peers.len(),
{
    let (parents, signature, rival): (
        Seq<[u8; 32]>,
        SignatureData,
        Option<(VertexData, SignatureData)>,
    ) = choose|
        parents: Seq<[u8; 32]>,
        signature: SignatureData,
        rival: Option<(VertexData, SignatureData)>,
    | #[trigger]
        made_with(s, id, behavior, keypair, set, peers, parents, signature, rival, after);
    assert(made_with(s, id, behavior, keypair, set, peers, parents, signature, rival, after));
    if s.next_round > 0 {
        lemma_parents_are_all(parents, s);
        lemma_round_stake(parents, s.dag, last, (s.next_round - 1) as u64);
        assert forall|i: int| 0 <= i < parents.len() implies s.dag.contains_key(
            #[trigger] parents[i],
        ) && s.dag[parents[i]].vertex.round == s.next_round - 1 by {
            assert(parents.contains(parents[i]));
        }
    }
    let v = next_vertex(s, id, parents, 0);
    let digest = vertex_digest(v);
    let kept = SimState {
        own_pending: Some((v, signature)),
        next_round: (s.next_round + 1) as u64,
        voted_for: s.voted_for.insert((v.round, id), digest),
        ..s
    };
    let r = recorded(kept, digest, id, signature, set);
    let n = peers.len() as int;
    let b = if r.1 is Some {
        n
    } else {
        0
    };
    if k < n {
        assert(after.1[k]->Send_to == peers[k]);
        assert(peers.contains(peers[k]));
    } else if k < n + b {
        assert(after.1[k]->Send_to == peers[k - n]);
        assert(peers.contains(peers[k - n]));
    } else {
        let half = peers.take(rival_count(peers.len()));
        assert(after.1[k]->Send_to == half[k - n - b]);
        assert(half[k - n - b] == peers[k - n - b]);
        assert(peers.contains(peers[k - n - b]));
    }
}

/// What a validator keeps of its own new vertex: it counts as voted for, with its own signature
/// as the first vote. Where its own stake is a quorum of the committee in charge the certificate
/// is there at once and goes to every peer; otherwise the vertex is pending. What goes to the
/// peers is signed with its own keys.
pub proof fn law_own_vertices_are_kept(
    s: SimState,
    id: Pubkey,
    behavior: ByzantineBehavior,
    keypair: Keypair,
    last: ValidatorSet,
    set: ValidatorSet,
    peers: Seq<Pubkey>,
    after: (SimState, Seq<ActionData>),
) -> (kept: (VertexData, SignatureData))
    requires
        went_on(s, id, behavior, keypair, last, set, peers, after),
        s.next_round < u64::MAX,
        s.own_pending is None,
        after.0.next_round != s.next_round,
    ensures
        kept.0.round == s.next_round && kept.0.author == id,
        signed_by(keypair, kept.0, kept.1),
        after.0.voted_for == s.voted_for.insert((s.next_round, id), vertex_digest(kept.0)),
        !s.votes.contains_key(vertex_digest(kept.0)) && stake_in(set, id) < set.quorum ==> {
            &&& after.0.own_pending == Some(kept)
            &&& after.0.dag == s.dag
            &&& after.0.votes == s.votes.insert(vertex_digest(kept.0), seq![(id, kept.1)])
        },
        !s.votes.contains_key(vertex_digest(kept.0)) && stake_in(set, id) >= set.quorum ==> {
            &&& after.0.own_pending is None
            &&& after.0.dag == s.dag.insert(
                vertex_digest(kept.0),
                CertificateData { vertex: kept.0, signatures: seq![(id, kept.1)] },
            )
            &&& forall|k: int| #![trigger after.1[peers.len() + k]]
                0 <= k < peers.len() ==> after.1[peers.len() + k] == (ActionData::Send {
                    to: peers[k],
                    message: SimMessageData::CertificateBroadcast(
                        CertificateData { vertex: kept.0, signatures: seq![(id, kept.1)] },
                    ),
                })
        },
        forall|k: int| #![trigger after.1[k]]
            0 <= k < peers.len() ==> after.1[k] == (ActionData::Send {
                to: peers[k],
                message: SimMessageData::VertexProposal {
                    vertex: kept.0,
                    author_signature: kept.1,
                },
            }),
{
    let (parents, signature, rival): (
        Seq<[u8; 32]>,
        SignatureData,
        Option<(VertexData, SignatureData)>,
    ) = choose|
        parents: Seq<[u8; 32]>,
        signature: SignatureData,
        rival: Option<(VertexData, SignatureData)>,
    | #[trigger]
        made_with(s, id, behavior, keypair, set, peers, parents, signature, rival, after);
    assert(made_with(s, id, behavior, keypair, set, peers, parents, signature, rival, after));
    let v = next_vertex(s, id, parents, 0);
    let none: Seq<(Pubkey, SignatureData)> = Seq::empty();
    assert(with_vote(none, id, signature) =~= seq![(id, signature)]);
    law_votes_add_up(none, (id, signature), set);
    assert(none.push((id, signature)) =~= seq![(id, signature)]);
    (v, signature)
}

/// The signature is by these keys, over the digest of the vertex.
pub open spec fn signed_by(keypair: Keypair, v: VertexData, signature: SignatureData) -> bool {
    &&& signature.ed25519 == ed25519_signed(keypair.ed25519_secret(), vertex_digest(v)@)
    &&& mldsa_signs(keypair.mldsa_secret(), vertex_digest(v)@, signature.mldsa)
}

/// Only an equivocator proposes a second vertex, and it does so to the first half of its peers,
/// at least to one, where it has any.
pub proof fn law_only_equivocators_propose_twice(
    s: SimState,
    id: Pubkey,
    behavior: ByzantineBehavior,
    keypair: Keypair,
    last: ValidatorSet,
    set: ValidatorSet,
    peers: Seq<Pubkey>,
    after: (SimState, Seq<ActionData>),
    k: int,
)
    requires
        went_on(s, id, behavior, keypair, last, set, peers, after),
        s.own_pending is None,
        peers.len() <= k < after.1.len(),
        after.1[k]->message is VertexProposal,
    ensures
        behavior is Equivocator,
        forall|i: int|
            0 <= i < 32 ==> #[trigger] after.1[k]->message->vertex.batch_digests[0].1@[i] == 1,
        ({
            let j = after.1.len() - k;
            let half = if peers.len() < 4 {
                1
            } else {
                peers.len() as int / 2
            };
            1 <= j <= half && after.1[k]->Send_to == peers[half - j]
        }),
{
    let (parents, signature, rival): (
        Seq<[u8; 32]>,
        SignatureData,
        Option<(VertexData, SignatureData)>,
    ) = choose|
        parents: Seq<[u8; 32]>,
        signature: SignatureData,
        rival: Option<(VertexData, SignatureData)>,
    | #[trigger]
        made_with(s, id, behavior, keypair, set, peers, parents, signature, rival, after);
    assert(made_with(s, id, behavior, keypair, set, peers, parents, signature, rival, after));
    let v = next_vertex(s, id, parents, 0);
    let digest = vertex_digest(v);
    let kept = SimState {
        own_pending: Some((v, signature)),
        next_round: (s.next_round + 1) as u64,
        voted_for: s.voted_for.insert((v.round, id), digest),
        ..s
    };
    let r = recorded(kept, digest, id, signature, set);
    let n = peers.len() as int;
    let b = if r.1 is Some {
        n
    } else {
        0
    };
    if k < n + b {
        assert(after.1[k]->message is CertificateBroadcast);
    } else {
        let half = peers.take(rival_count(peers.len()));
        assert(after.1[k]->Send_to == half[k - n - b]);
        assert(half[k - n - b] == peers[k - n - b]);
    }
}

/// The stake of voters adds up, voter by voter.
pub proof fn law_votes_add_up(s: Seq<(Pubkey, SignatureData)>, vote: (Pubkey, SignatureData), set: ValidatorSet)
    ensures
        vote_stake(Seq::empty(), set) == 0,
        vote_stake(s.push(vote), set) == vote_stake(s, set) + stake_in(set, vote.0),
{
    assert(s.push(vote).drop_last() =~= s);
}

proof fn lemma_vote_place(s: Seq<(Pubkey, SignatureData)>, voter: Pubkey)
    ensures
        0 <= vote_place(s, voter) <= s.len(),
        vote_place(s, voter) < s.len() ==> s[vote_place(s, voter)].0 == voter,
        forall|i: int| 0 <= i < vote_place(s, voter) ==> (#[trigger] s[i]).0 != voter,
    decreases s.len(),
{
    if s.len() > 0 && s[0].0 != voter {
        let rest = s.skip(1);
        lemma_vote_place(rest, voter);
        let p = vote_place(rest, voter);
        if p < rest.len() {
            assert(rest[p] == s[p + 1]);
        }
        assert forall|i: int| 0 <= i < vote_place(s, voter) implies (#[trigger] s[i]).0 != voter by {
            if i > 0 {
                assert(rest[i - 1] == s[i]);
            }
        }
    }
}

/// A vote is counted once for its voter: where the voter had none it comes last, and where it
/// had one the new signature takes its place; all other votes stay where they are.
pub proof fn law_votes_are_counted_once(
    s: Seq<(Pubkey, SignatureData)>,
    voter: Pubkey,
    signature: SignatureData,
)
    ensures
        ({
            let t = with_vote(s, voter, signature);
            if exists|i: int| 0 <= i < s.len() && (#[trigger] s[i]).0 == voter {
                &&& t.len() == s.len()
                &&& exists|i: int|
                    0 <= i < s.len() && s[i].0 == voter && #[trigger] t[i] == (voter, signature)
                        && forall|j: int| 0 <= j < s.len() && j != i ==> #[trigger] t[j] == s[j]
            } else {
                t == s.push((voter, signature))
            }
        }),
{
    lemma_vote_place(s, voter);
    let t = with_vote(s, voter, signature);
    let at = vote_place(s, voter);
    if at < s.len() {
        assert(s[at].0 == voter);
        assert(t[at] == (voter, signature));
    }
}

/// A vote makes a certificate exactly where it is for the vertex that is pending and brings the
/// stake of its voters up to the quorum. Then nothing is pending any more, the votes are not
/// kept twice, and the certificate, with all votes, is known and goes to every peer; otherwise
/// the vote is kept and nothing is sent.
pub proof fn law_certificates_come_with_the_quorum(
    s: SimState,
    behavior: ByzantineBehavior,
    from: Pubkey,
    digest: [u8; 32],
    signature: SignatureData,
    set: ValidatorSet,
    peers: Seq<Pubkey>,
    verified: bool,
)
    requires
        !(behavior is Silent),
    ensures
        ({
            let message = SimMessageData::Vote { vertex_digest: digest, signature };
            let r = reaction(s, behavior, from, message, set, peers, verified);
            let before = if s.votes.contains_key(digest) {
                s.votes[digest]
            } else {
                Seq::empty()
            };
            let votes = with_vote(before, from, signature);
            let done = s.own_pending is Some && vertex_digest(s.own_pending->Some_0.0) == digest
                && vote_stake(votes, set) >= set.quorum;
            if done {
                let c = CertificateData { vertex: s.own_pending->Some_0.0, signatures: votes };
                &&& r.0.own_pending is None
                &&& !r.0.votes.contains_key(digest)
                &&& r.0.dag == s.dag.insert(digest, c)
                &&& r.1.len() == peers.len()
                &&& forall|i: int|
                    0 <= i < peers.len() ==> #[trigger] r.1[i] == (ActionData::Send {
                        to: peers[i],
                        message: SimMessageData::CertificateBroadcast(c),
                    })
            } else {
                &&& r.0.own_pending == s.own_pending
                &&& r.0.votes == s.votes.insert(digest, votes)
                &&& r.0.dag == s.dag
                &&& r.1.len() == 0
            }
        }),
        ({
            let message = SimMessageData::Vote { vertex_digest: digest, signature };
            let r = reaction(s, behavior, from, message, set, peers, verified);
            &&& r.0.voted_for == s.voted_for
            &&& r.0.first_seen == s.first_seen
            &&& r.0.evidence == s.evidence
            &&& r.0.requests == s.requests
            &&& r.0.next_round == s.next_round
            &&& r.0.committed == s.committed
            &&& forall|d: [u8; 32]| d != digest ==> (#[trigger] r.0.votes.contains_key(d)
                <==> s.votes.contains_key(d)) && (s.votes.contains_key(d) ==> r.0.votes[d]
                == s.votes[d])
        }),
{
}

/// A proposal is heeded exactly where it comes from its author, who is of the committee and
/// signed it with the keys that the committee knows.
pub proof fn law_only_authors_propose(
    vertex: VertexData,
    signature: SignatureData,
    from: Pubkey,
    set: ValidatorSet,
)
    ensures
        proposal_good(vertex, signature, from, set) <==> vertex.author == from && exists|i: int|
            0 <= i < set.members@.len() && (#[trigger] set.members@[i]).id == from && (forall|
                j: int,
            | 0 <= j < i ==> (#[trigger] set.members@[j]).id != from) && signature_good(
                set.members@[i].pubkey_bundle@.ed25519,
                set.members@[i].pubkey_bundle@.mldsa,
                vertex_digest(vertex)@,
                signature.ed25519,
                signature.mldsa,
            ),
{
    lemma_first_place(set.members@, from);
    let p = place_of(set.members@, from);
    if p < set.members@.len() {
        assert(set.members@[p].id == from);
    }
    if exists|i: int|
        0 <= i < set.members@.len() && (#[trigger] set.members@[i]).id == from && (forall|j: int|
            0 <= j < i ==> (#[trigger] set.members@[j]).id != from) {
        let i = choose|i: int|
            0 <= i < set.members@.len() && (#[trigger] set.members@[i]).id == from && (forall|
                j: int,
            | 0 <= j < i ==> (#[trigger] set.members@[j]).id != from);
        assert(i == p) by {
            if i < p {
                assert(set.members@[i].id != from);
            } else if p < i {
                assert(set.members@[p].id != from);
            }
        }
    }
}

/// What a validator that is not silent does with a proposal. One that is not heeded changes
/// nothing. One that is heeded makes it ask the author, in their order, for the parents that it
/// does not know, and vote for it, last, unless it has voted for another vertex of that author
/// and round; the first such vertex is kept, and a second, different one is kept as evidence
/// beside it, once.
pub proof fn law_proposals_are_voted_for(
    s: SimState,
    behavior: ByzantineBehavior,
    from: Pubkey,
    vertex: VertexData,
    signature: SignatureData,
    set: ValidatorSet,
    peers: Seq<Pubkey>,
    verified: bool,
)
    requires
        !(behavior is Silent),
    ensures
        ({
            let message = SimMessageData::VertexProposal { vertex, author_signature: signature };
            let r = reaction(s, behavior, from, message, set, peers, verified);
            let key = (vertex.round, vertex.author);
            let digest = vertex_digest(vertex);
            if !proposal_good(vertex, signature, from, set) {
                r.0 == s && r.1.len() == 0
            } else {
                let lacking = missing(vertex.parents, s.dag);
                let free = !s.voted_for.contains_key(key) || s.voted_for[key] == digest;
                &&& r.1.len() == lacking.len() + if free {
                    1int
                } else {
                    0
                }
                &&& forall|i: int|
                    0 <= i < lacking.len() ==> #[trigger] r.1[i] == (ActionData::Send {
                        to: from,
                        message: SimMessageData::CertificateRequest { digest: lacking[i] },
                    })
                &&& free ==> r.1.last() == (ActionData::Vote { to: from, digest })
                &&& r.0.voted_for == if free {
                    s.voted_for.insert(key, digest)
                } else {
                    s.voted_for
                }
                &&& r.0.first_seen == if s.first_seen.contains_key(key) {
                    s.first_seen
                } else {
                    s.first_seen.insert(key, (vertex, signature))
                }
                &&& (r.0.evidence.contains_key(key) && !s.evidence.contains_key(key))
                    <==> !s.evidence.contains_key(key) && s.first_seen.contains_key(key)
                    && vertex_digest(s.first_seen[key].0) != digest
                &&& s.evidence.contains_key(key) ==> r.0.evidence == s.evidence
                &&& r.0.evidence.contains_key(key) && !s.evidence.contains_key(key) ==> {
                    let e = r.0.evidence[key];
                    &&& e.vertex_a == s.first_seen[key].0 && e.signature_a == s.first_seen[key].1
                    &&& e.vertex_b == vertex && e.signature_b == signature
                    &&& gives_keys(set, from, e.author_bundle)
                }
                &&& r.0.requests == with_requests(s.requests, lacking, from)
                &&& r.0.own_pending == s.own_pending && r.0.votes == s.votes && r.0.dag == s.dag
                &&& r.0.next_round == s.next_round && r.0.committed == s.committed
            }
        }),
{
    let message = SimMessageData::VertexProposal { vertex, author_signature: signature };
    let r = reaction(s, behavior, from, message, set, peers, verified);
    let key = (vertex.round, vertex.author);
    lemma_first_place(set.members@, from);
    let p = place_of(set.members@, from);
    if p < set.members@.len() {
        assert(set.members@[p].id == from);
    }
    if proposal_good(vertex, signature, from, set) && s.voted_for.contains_key(key)
        && s.voted_for[key] == vertex_digest(vertex) {
        assert(s.voted_for.insert(key, vertex_digest(vertex)) =~= s.voted_for);
    }
}

/// What a validator that is not silent does with certificates. A good one is known from then
/// on, under the digest of its vertex, and the parents that are not are asked for; one that is
/// not good changes nothing. Who asks for a certificate gets it where it is known, and nothing
/// where it is not.
pub proof fn law_certificates_are_kept_and_given(
    s: SimState,
    behavior: ByzantineBehavior,
    from: Pubkey,
    c: CertificateData,
    digest: [u8; 32],
    set: ValidatorSet,
    peers: Seq<Pubkey>,
    verified: bool,
)
    requires
        !(behavior is Silent),
    ensures
        ({
            let told = reaction(
                s,
                behavior,
                from,
                SimMessageData::CertificateBroadcast(c),
                set,
                peers,
                verified,
            );
            let answered = reaction(
                s,
                behavior,
                from,
                SimMessageData::CertificateResponse(c),
                set,
                peers,
                verified,
            );
            let asked = reaction(
                s,
                behavior,
                from,
                SimMessageData::CertificateRequest { digest },
                set,
                peers,
                verified,
            );
            let known = s.dag.insert(vertex_digest(c.vertex), c);
            let lacking = missing(c.vertex.parents, known);
            &&& told == answered
            &&& !verified ==> told.0 == s && told.1.len() == 0
            &&& verified ==> {
                &&& told.0.dag == known
                &&& told.0 == (SimState {
                    dag: known,
                    requests: with_requests(s.requests, lacking, from),
                    ..s
                })
                &&& told.1.len() == lacking.len()
                &&& forall|i: int|
                    0 <= i < lacking.len() ==> #[trigger] told.1[i] == (ActionData::Send {
                        to: from,
                        message: SimMessageData::CertificateRequest { digest: lacking[i] },
                    })
            }
            &&& asked.0 == s
            &&& !s.dag.contains_key(digest) ==> asked.1.len() == 0
            &&& s.dag.contains_key(digest) ==> asked.1 == seq![
                ActionData::Send {
                    to: from,
                    message: SimMessageData::CertificateResponse(s.dag[digest]),
                },
            ]
        }),
{
}

/// A silent validator does nothing, whatever comes.
pub proof fn law_silent_validators_stay_silent(
    s: SimState,
    from: Pubkey,
    message: SimMessageData,
    set: ValidatorSet,
    peers: Seq<Pubkey>,
    verified: bool,
)
    ensures
        reaction(s, ByzantineBehavior::Silent, from, message, set, peers, verified) == (
            s,
            Seq::<ActionData>::empty(),
        ),
{
}

/// The parents that are missing are those that are not known, in their order.
pub proof fn law_missing_are_those_not_known(
    parents: Seq<[u8; 32]>,
    last: [u8; 32],
    dag: Map<[u8; 32], CertificateData>,
)
    ensures
        missing(Seq::empty(), dag) == Seq::<[u8; 32]>::empty(),
        dag.contains_key(last) ==> missing(parents.push(last), dag) == missing(parents, dag),
        !dag.contains_key(last) ==> missing(parents.push(last), dag) == missing(parents, dag).push(
            last,
        ),
{
    assert(parents.push(last).drop_last() =~= parents);
}

/// The requests that stay open are those whose certificates are not known, in their order.
pub proof fn law_open_requests_are_those_not_answered(
    requests: Seq<([u8; 32], Pubkey)>,
    last: ([u8; 32], Pubkey),
    dag: Map<[u8; 32], CertificateData>,
)
    ensures
        unanswered(Seq::empty(), dag) == Seq::<([u8; 32], Pubkey)>::empty(),
        dag.contains_key(last.0) ==> unanswered(requests.push(last), dag) == unanswered(
            requests,
            dag,
        ),
        !dag.contains_key(last.0) ==> unanswered(requests.push(last), dag) == unanswered(
            requests,
            dag,
        ).push(last),
{
    assert(requests.push(last).drop_last() =~= requests);
}

/// A certificate is asked of one validator at a time: where it was asked of one, the new one
/// takes its place, and else the request comes last. All other requests stay where they are.
pub proof fn law_requests_are_kept_once(
    s: Seq<([u8; 32], Pubkey)>,
    digest: [u8; 32],
    from: Pubkey,
    digests: Seq<[u8; 32]>,
)
    ensures
        with_requests(s, Seq::empty(), from) == s,
        ({
            let before = with_requests(s, digests, from);
            let t = with_requests(s, digests.push(digest), from);
            if exists|i: int| 0 <= i < before.len() && (#[trigger] before[i]).0 == digest {
                &&& t.len() == before.len()
                &&& exists|i: int|
                    0 <= i < before.len() && before[i].0 == digest && #[trigger] t[i] == (
                        digest,
                        from,
                    ) && forall|j: int|
                        0 <= j < before.len() && j != i ==> #[trigger] t[j] == before[j]
            } else {
                t == before.push((digest, from))
            }
        }),
{
    assert(digests.push(digest).drop_last() =~= digests);
    let before = with_requests(s, digests, from);
    lemma_request_place(before, digest);
    let t = with_requests(s, digests.push(digest), from);
    let at = request_place(before, digest);
    if at < before.len() {
        assert(before[at].0 == digest);
        assert(t[at] == (digest, from));
    }
}

proof fn lemma_request_place(s: Seq<([u8; 32], Pubkey)>, digest: [u8; 32])
    ensures
        0 <= request_place(s, digest) <= s.len(),
        request_place(s, digest) < s.len() ==> s[request_place(s, digest)].0 == digest,
        forall|i: int| 0 <= i < request_place(s, digest) ==> (#[trigger] s[i]).0 != digest,
    decreases s.len(),
{
    if s.len() > 0 && s[0].0 != digest {
        let rest = s.skip(1);
        lemma_request_place(rest, digest);
        let p = request_place(rest, digest);
        if p < rest.len() {
            assert(rest[p] == s[p + 1]);
        }
        assert forall|i: int| 0 <= i < request_place(s, digest) implies (#[trigger] s[i]).0
            != digest by {
            if i > 0 {
                assert(rest[i - 1] == s[i]);
            }
        }
    }
}

/// A partition cuts its two groups off from each other, both ways, until it heals, and nobody
/// else from anybody.
pub proof fn law_partitions_cut_both_ways(p: Option<Partition>, tick: u64, a: usize, b: usize)
    ensures
        is_cut_off(p, tick, a, b) == is_cut_off(p, tick, b, a),
        p is None ==> !is_cut_off(p, tick, a, b),
        p matches Some(q) ==> {
            &&& tick >= q.until ==> !is_cut_off(p, tick, a, b)
            &&& tick < q.until && q.group_a@.contains(a) && q.group_b@.contains(b) ==> is_cut_off(
                p,
                tick,
                a,
                b,
            )
            &&& !(q.group_a@.contains(a) || q.group_b@.contains(a)) ==> !is_cut_off(p, tick, a, b)
            &&& q.group_a@.contains(a) && !q.group_b@.contains(a) && !q.group_b@.contains(b)
                ==> !is_cut_off(p, tick, a, b)
        },
{
}

/// The first committee is in charge of the rounds of the first epoch, and the later one, where
/// there is one, of all others.
pub proof fn law_committees_change_at_the_epoch(schedule: ValidatorSchedule, round: u64)
    ensures
        schedule.later is None ==> schedule.at(round) == schedule.first,
        round < schedule.epoch_rounds ==> schedule.at(round) == schedule.first,
        schedule.later is Some && round >= schedule.epoch_rounds ==> schedule.at(round)
            == schedule.later->0,
        round_before(0) == 0,
        round > 0 ==> round_before(round) == round - 1,
{
}

/// A message is judged under the committee of the round that it is about: that of its vertex,
/// and for a vote that of the vertex that is waiting for votes.
pub proof fn law_messages_are_judged_in_their_round(s: SimState, message: SimMessageData)
    ensures
        match message {
            SimMessageData::VertexProposal { vertex, author_signature } => judged_in(s, message)
                == vertex.round,
            SimMessageData::CertificateBroadcast(c) => judged_in(s, message) == c.vertex.round,
            SimMessageData::CertificateResponse(c) => judged_in(s, message) == c.vertex.round,
            SimMessageData::Vote { vertex_digest, signature } => s.own_pending is Some ==> judged_in(
                s,
                message,
            ) == s.own_pending->Some_0.0.round,
            SimMessageData::CertificateRequest { digest } => true,
        },
{
}

/// Of two messages on their way one comes first: the one that arrives earlier, and of two that
/// arrive together the one that was sent earlier.
pub proof fn law_messages_arrive_in_order(a: Event, b: Event)
    ensures
        a.at < b.at ==> comes_first(a, b),
        a.at == b.at && a.seq < b.seq ==> comes_first(a, b),
        !(comes_first(a, b) && comes_first(b, a)),
        a.at != b.at || a.seq != b.seq ==> comes_first(a, b) || comes_first(b, a),
{
}

/// Two orders agree exactly where one continues the other.
pub proof fn law_orders_agree_where_one_continues_the_other(a: Seq<[u8; 32]>, b: Seq<[u8; 32]>)
    ensures
        consistent(a, b) <==> (a.len() <= b.len() && b.take(a.len() as int) == a) || (b.len()
            <= a.len() && a.take(b.len() as int) == b),
        consistent(a, b) == consistent(b, a),
{
    if consistent(a, b) {
        if a.len() <= b.len() {
            assert(b.take(a.len() as int) =~= a);
        } else {
            assert(a.take(b.len() as int) =~= b);
        }
    }
    if a.len() <= b.len() && b.take(a.len() as int) == a {
        assert forall|i: int| 0 <= i < a.len() && i < b.len() implies a[i] == b[i] by {
            assert(b.take(a.len() as int)[i] == b[i]);
        }
    }
    if b.len() <= a.len() && a.take(b.len() as int) == b {
        assert forall|i: int| 0 <= i < a.len() && i < b.len() implies a[i] == b[i] by {
            assert(a.take(b.len() as int)[i] == a[i]);
        }
    }
}

/// The certificates of an author for a round are counted one by one.
pub proof fn law_certificates_are_counted(
    c: Seq<(u64, Pubkey, [u8; 32])>,
    last: (u64, Pubkey, [u8; 32]),
    round: u64,
    author: Pubkey,
)
    ensures
        certificates_of(Seq::empty(), round, author) == 0,
        certificates_of(c.push(last), round, author) == certificates_of(c, round, author) + if last.0
            == round && last.1 == author {
            1int
        } else {
            0
        },
{
    assert(c.push(last).drop_last() =~= c);
}

/// What honest validators have committed is counted one by one, in their order, and nobody
/// else's.
pub proof fn law_honest_commits_are_counted(s: Seq<SimValidator>, last: SimValidator)
    ensures
        honest_counts(Seq::empty()) == Seq::<usize>::empty(),
        last.behavior is Honest ==> honest_counts(s.push(last)) == honest_counts(s).push(
            last@.committed.len() as usize,
        ),
        !(last.behavior is Honest) ==> honest_counts(s.push(last)) == honest_counts(s),
{
    assert(s.push(last).drop_last() =~= s);
}

/// The stake of a round is that of the author of each of its certificates.
pub proof fn law_stake_of_a_round(
    certificates: Seq<[u8; 32]>,
    dag: Map<[u8; 32], CertificateData>,
    set: ValidatorSet,
    round: u64,
)
    requires
        dag.dom().finite(),
        all_of_round(certificates, dag, round as int),
    ensures
        round_stake(dag, round, set) == stake_behind(certificates, dag, set),
{
    lemma_round_stake(certificates, dag, set, round);
}

/// The certificates of a round are listed once each, in the order of their digests.
pub proof fn law_rounds_are_listed(
    s: Seq<[u8; 32]>,
    dag: Map<[u8; 32], CertificateData>,
    round: u64,
)
    requires
        lists_round(s, dag, round),
    ensures
        all_of_round(s, dag, round as int),
        forall|i: int, j: int|
            0 <= i < j < s.len() ==> key_lt(#[trigger] s[i], #[trigger] s[j]),
{
    assert forall|i: int, j: int|
        0 <= i < s.len() && 0 <= j < s.len() && i != j implies s[i] != s[j] by {
        if i < j {
            crate::keymap::lemma_key_lt_asymmetric(s[i], s[j]);
        } else {
            crate::keymap::lemma_key_lt_asymmetric(s[j], s[i]);
        }
    }
    assert forall|d: [u8; 32]| #[trigger] s.contains(d) <==> dag.contains_key(d)
        && dag[d].vertex.round == round by {
        assert(s.contains(d) <==> in_round(dag, round).contains(d));
    }
}

/// An equivocator that opens a round proposes a second vertex, with another batch but else the
/// same, to each of the first half of its peers, in their order, after everything else.
pub proof fn law_equivocators_propose_twice(
    s: SimState,
    id: Pubkey,
    keypair: Keypair,
    last: ValidatorSet,
    set: ValidatorSet,
    peers: Seq<Pubkey>,
    after: (SimState, Seq<ActionData>),
    k: int,
)
    requires
        went_on(s, id, ByzantineBehavior::Equivocator, keypair, last, set, peers, after),
        s.next_round < u64::MAX,
        s.own_pending is None,
        after.0.next_round != s.next_round,
        peers.len() > 0,
        0 <= k < if peers.len() < 4 {
            1
        } else {
            peers.len() as int / 2
        },
    ensures
        ({
            let half = if peers.len() < 4 {
                1
            } else {
                peers.len() as int / 2
            };
            let at = after.1.len() - half + k;
            &&& after.1.len() >= peers.len() + half
            &&& after.1[at] is Send && after.1[at]->Send_to == peers[k]
            &&& after.1[at]->message matches SimMessageData::VertexProposal {
                vertex,
                author_signature,
            } && {
                &&& vertex.round == s.next_round && vertex.author == id
                &&& vertex.parents == after.1[0]->message->vertex.parents
                &&& vertex.batch_digests.len() == 1 && vertex.batch_digests[0].0 == 0
                &&& forall|i: int|
                    0 <= i < 32 ==> #[trigger] vertex.batch_digests[0].1@[i] == 1
                &&& signed_by(keypair, vertex, author_signature)
            }
        }),
{
    let (parents, signature, rival): (
        Seq<[u8; 32]>,
        SignatureData,
        Option<(VertexData, SignatureData)>,
    ) = choose|
        parents: Seq<[u8; 32]>,
        signature: SignatureData,
        rival: Option<(VertexData, SignatureData)>,
    | #[trigger]
        made_with(
            s,
            id,
            ByzantineBehavior::Equivocator,
            keypair,
            set,
            peers,
            parents,
            signature,
            rival,
            after,
        );
    let half = peers.take(rival_count(peers.len()));
    let at = after.1.len() - half.len() + k;
    assert(half[k] == peers[k]);
    assert(after.1[at]->Send_to == half[k]);
    assert(after.1[0]->Send_to == peers[0]);
}

} // verus!
