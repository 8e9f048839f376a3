//! What holds of a validator whatever messages come, in whatever order.
use crate::committee::{is_member, place_of, ValidatorSet};
use crate::dag::CertificateData;
use crate::hash::collide;
use crate::keys::{signature_good, BundleData, Keypair, SignatureData};
use crate::pubkey::Pubkey;
use crate::sim_validator::{
    asked, asking, missing, next_vertex, proposal_good, proposed, reaction, recorded, request_place,
    to_all, vote_place, vote_stake, votes_for, went_on, with_request, with_requests, with_vote,
    witnessed, ActionData, ByzantineBehavior, EvidenceData, SimMessageData, SimState,
};
use crate::vertex::{law_digest_names_one_vertex, vertex_bytes, vertex_digest, VertexData};
use vstd::prelude::*;

verus! {

/// A message that comes, and what is known of it.
pub ghost struct Delivery {
    pub from: Pubkey,
    pub message: SimMessageData,
    pub set: ValidatorSet,
    pub peers: Seq<Pubkey>,
    pub verified: bool,
}

/// What a delivery does.
pub open spec fn reaction_to(
    s: SimState,
    behavior: ByzantineBehavior,
    d: Delivery,
) -> (SimState, Seq<ActionData>) {
    reaction(s, behavior, d.from, d.message, d.set, d.peers, d.verified)
}

/// What is remembered after the first `n` deliveries.
pub open spec fn sim_run(
    start: SimState,
    behavior: ByzantineBehavior,
    deliveries: Seq<Delivery>,
    n: nat,
) -> SimState
    decreases n,
{
    if n == 0 {
        start
    } else {
        reaction_to(
            sim_run(start, behavior, deliveries, (n - 1) as nat),
            behavior,
            deliveries[n - 1],
        ).0
    }
}

/// The delivery at `i` makes the validator vote for `digest`.
pub open spec fn votes_at(
    start: SimState,
    behavior: ByzantineBehavior,
    deliveries: Seq<Delivery>,
    i: int,
    digest: [u8; 32],
) -> bool {
    exists|to: Pubkey|
        reaction_to(
            sim_run(start, behavior, deliveries, i as nat),
            behavior,
            deliveries[i],
        ).1.contains(#[trigger] vote_for(to, digest))
}

/// A vote for a digest.
pub open spec fn vote_for(to: Pubkey, digest: [u8; 32]) -> ActionData {
    ActionData::Vote { to, digest }
}

/// What is voted for stays as it is, whatever comes.
proof fn lemma_votes_stay(s: SimState, behavior: ByzantineBehavior, d: Delivery, key: (u64, Pubkey))
    requires
        s.voted_for.contains_key(key),
    ensures
        reaction_to(s, behavior, d).0.voted_for.contains_key(key),
        reaction_to(s, behavior, d).0.voted_for[key] == s.voted_for[key],
{
}

/// A vote is for the vertex that was proposed, and is remembered.
proof fn lemma_vote_is_remembered(
    s: SimState,
    behavior: ByzantineBehavior,
    d: Delivery,
    to: Pubkey,
    digest: [u8; 32],
)
    requires
        reaction_to(s, behavior, d).1.contains(vote_for(to, digest)),
    ensures
        d.message is VertexProposal,
        digest == vertex_digest(d.message->vertex),
        ({
            let key = (d.message->vertex.round, d.message->vertex.author);
            &&& reaction_to(s, behavior, d).0.voted_for.contains_key(key)
            &&& reaction_to(s, behavior, d).0.voted_for[key] == digest
        }),
{
    let r = reaction_to(s, behavior, d);
    let i = choose|i: int| 0 <= i < r.1.len() && r.1[i] == vote_for(to, digest);
    assert(r.1[i] is Vote);
    match d.message {
        SimMessageData::VertexProposal { vertex, author_signature } => {},
        SimMessageData::Vote { vertex_digest, signature } => {
            assert(false);
        },
        SimMessageData::CertificateBroadcast(c) => {
            assert(false);
        },
        SimMessageData::CertificateRequest { digest } => {
            assert(false);
        },
        SimMessageData::CertificateResponse(c) => {
            assert(false);
        },
    }
}

proof fn lemma_vote_stays_remembered(
    start: SimState,
    behavior: ByzantineBehavior,
    deliveries: Seq<Delivery>,
    i: int,
    j: nat,
    digest: [u8; 32],
)
    requires
        0 <= i < j <= deliveries.len(),
        votes_at(start, behavior, deliveries, i, digest),
    ensures
        deliveries[i].message is VertexProposal,
        ({
            let v = deliveries[i].message->vertex;
            let key = (v.round, v.author);
            let s = sim_run(start, behavior, deliveries, j);
            s.voted_for.contains_key(key) && s.voted_for[key] == digest
        }),
    decreases j,
{
    let s = sim_run(start, behavior, deliveries, i as nat);
    let to = choose|to: Pubkey|
        reaction_to(s, behavior, deliveries[i]).1.contains(#[trigger] vote_for(to, digest));
    lemma_vote_is_remembered(s, behavior, deliveries[i], to, digest);
    if i < j - 1 {
        lemma_vote_stays_remembered(start, behavior, deliveries, i, (j - 1) as nat, digest);
        let v = deliveries[i].message->vertex;
        lemma_votes_stay(
            sim_run(start, behavior, deliveries, (j - 1) as nat),
            behavior,
            deliveries[j - 1],
            (v.round, v.author),
        );
    }
}

/// Whatever messages come, a validator never votes for two different vertices of one author
/// and one round.
pub proof fn law_one_vote_per_author_and_round(
    start: SimState,
    behavior: ByzantineBehavior,
    deliveries: Seq<Delivery>,
    i: int,
    j: int,
    first: [u8; 32],
    second: [u8; 32],
)
    requires
        0 <= i < j < deliveries.len(),
        votes_at(start, behavior, deliveries, i, first),
        votes_at(start, behavior, deliveries, j, second),
        deliveries[i].message is VertexProposal,
        deliveries[j].message is VertexProposal,
        deliveries[i].message->vertex.round == deliveries[j].message->vertex.round,
        deliveries[i].message->vertex.author == deliveries[j].message->vertex.author,
    ensures
        first == second,
{
    lemma_vote_stays_remembered(start, behavior, deliveries, i, j as nat, first);
    let v = deliveries[j].message->vertex;
    lemma_votes_stay(
        sim_run(start, behavior, deliveries, j as nat),
        behavior,
        deliveries[j],
        (v.round, v.author),
    );
    lemma_vote_stays_remembered(start, behavior, deliveries, j, (j + 1) as nat, second);
}

/// No voter is counted twice.
pub open spec fn distinct_voters(s: Seq<(Pubkey, SignatureData)>) -> bool {
    forall|i: int, j: int|
        0 <= i < j < s.len() ==> (#[trigger] s[i]).0 != (#[trigger] s[j]).0
}

/// No voter is counted twice for any digest.
pub open spec fn votes_are_distinct(s: SimState) -> bool {
    forall|d: [u8; 32]| #[trigger] s.votes.contains_key(d) ==> distinct_voters(s.votes[d])
}

proof fn lemma_vote_place_bounds(s: Seq<(Pubkey, SignatureData)>, voter: Pubkey)
    ensures
        0 <= vote_place(s, voter) <= s.len(),
        vote_place(s, voter) < s.len() ==> s[vote_place(s, voter)].0 == voter,
        forall|i: int| 0 <= i < vote_place(s, voter) ==> (#[trigger] s[i]).0 != voter,
    decreases s.len(),
{
    if s.len() > 0 && s[0].0 != voter {
        lemma_vote_place_bounds(s.skip(1), voter);
        let p = vote_place(s.skip(1), voter);
        assert forall|i: int| 0 <= i < vote_place(s, voter) implies (#[trigger] s[i]).0 != voter by {
            if i > 0 {
                assert(s.skip(1)[i - 1] == s[i]);
            }
        }
        if p < s.skip(1).len() {
            assert(s.skip(1)[p] == s[p + 1]);
        }
    }
}

proof fn lemma_with_vote_is_distinct(
    s: Seq<(Pubkey, SignatureData)>,
    voter: Pubkey,
    signature: SignatureData,
)
    requires
        distinct_voters(s),
    ensures
        distinct_voters(with_vote(s, voter, signature)),
{
    lemma_vote_place_bounds(s, voter);
    let t = with_vote(s, voter, signature);
    assert forall|i: int, j: int| 0 <= i < j < t.len() implies (#[trigger] t[i]).0
        != (#[trigger] t[j]).0 by {
        if j < s.len() {
            assert(s[i].0 != s[j].0);
        } else {
            assert(s[i].0 != voter);
        }
    }
}

/// No voter is counted twice, whatever messages come; and what is certified has the votes of
/// a quorum, each of another voter.
pub proof fn law_certificates_have_a_quorum(s: SimState, behavior: ByzantineBehavior, d: Delivery)
    requires
        votes_are_distinct(s),
    ensures
        votes_are_distinct(reaction_to(s, behavior, d).0),
        !(behavior is Silent) && d.message is Vote ==> {
            let r = recorded(
                s,
                d.message->vertex_digest,
                d.from,
                d.message->signature,
                d.set,
            );
            r.1 is Some ==> {
                &&& vote_stake(r.1->0.signatures, d.set) >= d.set.quorum
                &&& distinct_voters(r.1->0.signatures)
                &&& r.1->0.vertex == s.own_pending->Some_0.0
            }
        },
{
    if d.message is Vote {
        let digest = d.message->vertex_digest;
        lemma_with_vote_is_distinct(votes_for(s, digest), d.from, d.message->signature);
    }
}

/// A signature under the keys of an author.
pub open spec fn signed_by(v: VertexData, signature: SignatureData, bundle: BundleData) -> bool {
    signature_good(
        bundle.ed25519,
        bundle.mldsa,
        vertex_digest(v)@,
        signature.ed25519,
        signature.mldsa,
    )
}

/// What is kept as first seen was signed by its author, and evidence shows two different
/// vertices of one author and round, both signed by that author.
pub open spec fn evidence_is_sound(s: SimState, set: ValidatorSet) -> bool {
    &&& forall|k: (u64, Pubkey)| #[trigger]
        s.first_seen.contains_key(k) ==> seen_is_sound(s.first_seen[k], k, set)
    &&& forall|k: (u64, Pubkey)| #[trigger]
        s.evidence.contains_key(k) ==> shows_equivocation(s.evidence[k], k)
}

/// A vertex that is kept is of its key, and signed by its author.
pub open spec fn seen_is_sound(
    p: (VertexData, SignatureData),
    k: (u64, Pubkey),
    set: ValidatorSet,
) -> bool {
    &&& p.0.round == k.0
    &&& p.0.author == k.1
    &&& is_member(set, k.1)
    &&& signed_by(p.0, p.1, set.members@[place_of(set.members@, k.1)].pubkey_bundle@)
}

/// Evidence shows two different vertices of one author and round, both signed by that
/// author.
pub open spec fn shows_equivocation(e: EvidenceData, k: (u64, Pubkey)) -> bool {
    &&& e.vertex_a.round == k.0 && e.vertex_b.round == k.0
    &&& e.vertex_a.author == k.1 && e.vertex_b.author == k.1
    &&& vertex_digest(e.vertex_a) != vertex_digest(e.vertex_b)
    &&& signed_by(e.vertex_a, e.signature_a, e.author_bundle)
    &&& signed_by(e.vertex_b, e.signature_b, e.author_bundle)
}

/// Whatever messages come, evidence of equivocation stays sound.
pub proof fn law_evidence_stays_sound(s: SimState, behavior: ByzantineBehavior, d: Delivery)
    requires
        evidence_is_sound(s, d.set),
    ensures
        evidence_is_sound(reaction_to(s, behavior, d).0, d.set),
{
    let r = reaction_to(s, behavior, d).0;
    if let SimMessageData::VertexProposal { vertex, author_signature } = d.message {
        if !(behavior is Silent) && proposal_good(vertex, author_signature, d.from, d.set) {
            let key = (vertex.round, vertex.author);
            let bundle = d.set.members@[place_of(d.set.members@, vertex.author)].pubkey_bundle@;
            let w = witnessed(s, vertex, author_signature, bundle);
            assert(r.first_seen == w.first_seen);
            assert(r.evidence == w.evidence);
            assert(signed_by(vertex, author_signature, bundle));
            if s.first_seen.contains_key(key) {
                assert(seen_is_sound(s.first_seen[key], key, d.set));
            }
        }
    }
}

/// A second, different vertex of an author and round is evidence, once it has come.
pub proof fn law_equivocation_is_caught(
    s: SimState,
    vertex: VertexData,
    signature: SignatureData,
    bundle: BundleData,
)
    requires
        s.first_seen.contains_key((vertex.round, vertex.author)),
        vertex_digest(s.first_seen[(vertex.round, vertex.author)].0) != vertex_digest(vertex),
    ensures
        witnessed(s, vertex, signature, bundle).evidence.contains_key((vertex.round, vertex.author)),
{
}

/// The two vertices that an equivocator proposes differ in their digests, unless their
/// bytes collide.
pub proof fn law_rival_vertices_differ(s: SimState, id: Pubkey, parents: Seq<[u8; 32]>)
    requires
        parents.len() <= u32::MAX,
    ensures
        vertex_digest(next_vertex(s, id, parents, 0)) != vertex_digest(
            next_vertex(s, id, parents, 1),
        ) || collide(
            vertex_bytes(next_vertex(s, id, parents, 0)),
            vertex_bytes(next_vertex(s, id, parents, 1)),
        ),
{
    let a = next_vertex(s, id, parents, 0);
    let b = next_vertex(s, id, parents, 1);
    if vertex_digest(a) == vertex_digest(b) {
        law_digest_names_one_vertex(a, b);
        if a == b {
            assert(a.batch_digests[0].1[0] == 0u8);
            assert(b.batch_digests[0].1[0] == 1u8);
        }
    }
}

proof fn lemma_request_place_bounds(s: Seq<([u8; 32], Pubkey)>, digest: [u8; 32])
    ensures
        0 <= request_place(s, digest) <= s.len(),
        request_place(s, digest) < s.len() ==> s[request_place(s, digest)].0 == digest,
    decreases s.len(),
{
    if s.len() > 0 && s[0].0 != digest {
        lemma_request_place_bounds(s.skip(1), digest);
        let p = request_place(s.skip(1), digest);
        if p < s.skip(1).len() {
            assert(s.skip(1)[p] == s[p + 1]);
        }
    }
}

proof fn lemma_requests_are_kept(
    s: Seq<([u8; 32], Pubkey)>,
    digests: Seq<[u8; 32]>,
    from: Pubkey,
    digest: [u8; 32],
)
    requires
        digests.contains(digest),
    ensures
        with_requests(s, digests, from).contains((digest, from)),
    decreases digests.len(),
{
    let t = with_requests(s, digests.drop_last(), from);
    let last = digests.last();
    lemma_request_place_bounds(t, last);
    let at = request_place(t, last);
    let r = with_request(t, last, from);
    if digest == last {
        assert(r[at] == (digest, from));
    } else {
        let i = choose|i: int| 0 <= i < digests.len() && digests[i] == digest;
        assert(digests.drop_last()[i] == digest);
        lemma_requests_are_kept(s, digests.drop_last(), from, digest);
        let k = choose|k: int| 0 <= k < t.len() && t[k] == (digest, from);
        assert(k != at);
        assert(r[k] == (digest, from));
    }
}

proof fn lemma_missing_contains(
    parents: Seq<[u8; 32]>,
    dag: Map<[u8; 32], CertificateData>,
    parent: [u8; 32],
)
    requires
        parents.contains(parent),
        !dag.contains_key(parent),
    ensures
        missing(parents, dag).contains(parent),
    decreases parents.len(),
{
    let rest = missing(parents.drop_last(), dag);
    let m = missing(parents, dag);
    if parents.last() == parent {
        assert(m[rest.len() as int] == parent);
    } else {
        let i = choose|i: int| 0 <= i < parents.len() && parents[i] == parent;
        assert(parents.drop_last()[i] == parent);
        lemma_missing_contains(parents.drop_last(), dag, parent);
        let k = choose|k: int| 0 <= k < rest.len() && rest[k] == parent;
        assert(m[k] == parent);
    }
}

/// A parent that is not known is asked for and stays asked for: each parent of a vertex that
/// was taken in is known, or there is an open request for it.
pub proof fn law_missing_parents_are_asked_for(
    s: SimState,
    parents: Seq<[u8; 32]>,
    from: Pubkey,
    parent: [u8; 32],
)
    requires
        parents.contains(parent),
    ensures
        s.dag.contains_key(parent) || asked(s, parents, from).requests.contains((parent, from)),
        s.dag.contains_key(parent) || asking(missing(parents, s.dag), from).contains(
            ActionData::Send {
                to: from,
                message: SimMessageData::CertificateRequest { digest: parent },
            },
        ),
{
    if !s.dag.contains_key(parent) {
        lemma_missing_contains(parents, s.dag, parent);
        let m = missing(parents, s.dag);
        lemma_requests_are_kept(s.requests, m, from, parent);
        let k = choose|k: int| 0 <= k < m.len() && m[k] == parent;
        assert(asking(m, from)[k] == ActionData::Send {
            to: from,
            message: SimMessageData::CertificateRequest { digest: parent },
        });
    }
}

/// What a validator remembers before the call at `j` of a row of calls.
pub open spec fn before_call(
    s: SimState,
    calls: Seq<(SimState, Seq<ActionData>)>,
    j: int,
) -> SimState {
    if j == 0 {
        s
    } else {
        calls[j - 1].0
    }
}

/// A proposal that has no certificate yet is sent again, unchanged, to every peer in their
/// order, each time that the validator goes on, however often that is; no new round is
/// opened and the validator stays what it is. A silent validator never does anything.
pub proof fn law_pending_proposals_are_resent(
    s: SimState,
    id: Pubkey,
    behavior: ByzantineBehavior,
    keypair: Keypair,
    lasts: Seq<ValidatorSet>,
    sets: Seq<ValidatorSet>,
    peers: Seq<Seq<Pubkey>>,
    calls: Seq<(SimState, Seq<ActionData>)>,
    i: int,
)
    requires
        0 <= i < calls.len(),
        forall|j: int|
            0 <= j < calls.len() ==> went_on(
                before_call(s, calls, j),
                id,
                behavior,
                keypair,
                lasts[j],
                sets[j],
                peers[j],
                #[trigger] calls[j],
            ),
        behavior is Silent || s.own_pending is Some,
    ensures
        calls[i].0 == s,
        behavior is Silent ==> calls[i].1 == Seq::<ActionData>::empty(),
        !(behavior is Silent) ==> calls[i].1 == to_all(
            peers[i],
            SimMessageData::VertexProposal {
                vertex: s.own_pending->Some_0.0,
                author_signature: s.own_pending->Some_0.1,
            },
        ),
    decreases i,
{
    assert(went_on(
        before_call(s, calls, i),
        id,
        behavior,
        keypair,
        lasts[i],
        sets[i],
        peers[i],
        calls[i],
    ));
    if i > 0 {
        law_pending_proposals_are_resent(s, id, behavior, keypair, lasts, sets, peers, calls, i - 1);
    }
}

/// What a validator proposes is what it keeps to be sent again, unless its own vote gave it
/// the certificate at once.
pub proof fn law_a_proposal_stays_pending(
    s: SimState,
    id: Pubkey,
    vertex: VertexData,
    signature: SignatureData,
    rival: Option<(VertexData, SignatureData)>,
    set: ValidatorSet,
    peers: Seq<Pubkey>,
)
    ensures
        ({
            let after = proposed(s, id, vertex, signature, rival, set, peers);
            after.0.own_pending == Some((vertex, signature)) || after.0.dag.contains_key(
                vertex_digest(vertex),
            )
        }),
{
}

} // verus!
