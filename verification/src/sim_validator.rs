//! A validator as a state machine: it proposes, votes, certifies, and asks again for what
//! it misses.
use crate::committee::{is_member, place_of, stake_in, ValidatorSet};
use crate::dag::{
    lists_round, round_stake, votes_data, Certificate, CertificateData, DagStore,
};
use crate::hash::digests_equal;
use crate::keymap::{key_lt, KeyMap};
use crate::keys::{
    ed25519_signed, mldsa_signs, signature_good, verify, BundleData,
    HybridSignature, Keypair, PublicKeyBundle, SignatureData,
};
use crate::pubkey::Pubkey;
use crate::roundmap::RoundMap;
use crate::vertex::{vertex_digest, vertex_fits, Vertex, VertexData};
use vstd::prelude::*;

verus! {

/// How a validator behaves.
#[derive(Clone, Copy, Debug, PartialEq, Eq, Structural)]
pub enum ByzantineBehavior {
    Honest,
    /// It never proposes and never votes.
    Silent,
    /// It proposes a second vertex for the same round to half of its peers.
    Equivocator,
}

/// What validators say to each other.
#[derive(Debug)]
pub enum SimMessage {
    VertexProposal { vertex: Vertex, author_signature: HybridSignature },
    Vote { vertex_digest: [u8; 32], signature: HybridSignature },
    CertificateBroadcast(Certificate),
    CertificateRequest { digest: [u8; 32] },
    CertificateResponse(Certificate),
}

/// What a message says.
#[verifier::ext_equal]
pub ghost enum SimMessageData {
    VertexProposal { vertex: VertexData, author_signature: SignatureData },
    Vote { vertex_digest: [u8; 32], signature: SignatureData },
    CertificateBroadcast(CertificateData),
    CertificateRequest { digest: [u8; 32] },
    CertificateResponse(CertificateData),
}

impl View for SimMessage {
    type V = SimMessageData;

    open spec fn view(&self) -> SimMessageData {
        match self {
            SimMessage::VertexProposal { vertex, author_signature } => SimMessageData::VertexProposal {
                vertex: vertex@,
                author_signature: author_signature@,
            },
            SimMessage::Vote { vertex_digest, signature } => SimMessageData::Vote {
                vertex_digest: *vertex_digest,
                signature: signature@,
            },
            SimMessage::CertificateBroadcast(c) => SimMessageData::CertificateBroadcast(c@),
            SimMessage::CertificateRequest { digest } => SimMessageData::CertificateRequest {
                digest: *digest,
            },
            SimMessage::CertificateResponse(c) => SimMessageData::CertificateResponse(c@),
        }
    }
}

/// The vertex in a message has bytes, and so a digest.
pub open spec fn message_has_digest(m: SimMessageData) -> bool {
    match m {
        SimMessageData::VertexProposal { vertex, author_signature } => vertex_fits(vertex),
        SimMessageData::CertificateBroadcast(c) => vertex_fits(c.vertex),
        SimMessageData::CertificateResponse(c) => vertex_fits(c.vertex),
        _ => true,
    }
}

/// Two vertices of one author for one round, both signed by that author.
pub struct EquivocationEvidence {
    pub vertex_a: Vertex,
    pub signature_a: HybridSignature,
    pub vertex_b: Vertex,
    pub signature_b: HybridSignature,
    pub author_bundle: PublicKeyBundle,
}

/// What evidence says.
#[verifier::ext_equal]
pub ghost struct EvidenceData {
    pub vertex_a: VertexData,
    pub signature_a: SignatureData,
    pub vertex_b: VertexData,
    pub signature_b: SignatureData,
    pub author_bundle: BundleData,
}

impl View for EquivocationEvidence {
    type V = EvidenceData;

    open spec fn view(&self) -> EvidenceData {
        EvidenceData {
            vertex_a: self.vertex_a@,
            signature_a: self.signature_a@,
            vertex_b: self.vertex_b@,
            signature_b: self.signature_b@,
            author_bundle: self.author_bundle@,
        }
    }
}

/// What a validator does in answer to a message.
#[derive(Debug)]
pub enum Action {
    /// It sends a message.
    Send { to: Pubkey, message: SimMessage },
    /// It signs the digest of a vertex, and sends the signature as its vote.
    Vote { to: Pubkey, digest: [u8; 32] },
}

/// What an action says.
#[verifier::ext_equal]
pub ghost enum ActionData {
    Send { to: Pubkey, message: SimMessageData },
    Vote { to: Pubkey, digest: [u8; 32] },
}

impl View for Action {
    type V = ActionData;

    open spec fn view(&self) -> ActionData {
        match self {
            Action::Send { to, message } => ActionData::Send { to: *to, message: message@ },
            Action::Vote { to, digest } => ActionData::Vote { to: *to, digest: *digest },
        }
    }
}

/// What a list of actions says.
pub open spec fn actions_data(s: Seq<Action>) -> Seq<ActionData> {
    s.map_values(|a: Action| a@)
}

/// What a validator remembers.
#[verifier::ext_equal]
pub ghost struct SimState {
    pub own_pending: Option<(VertexData, SignatureData)>,
    /// The votes for each digest, one for each voter.
    pub votes: Map<[u8; 32], Seq<(Pubkey, SignatureData)>>,
    /// The digest voted for, for each round and author.
    pub voted_for: Map<(u64, Pubkey), [u8; 32]>,
    /// The first vertex seen with its author's signature, for each round and author.
    pub first_seen: Map<(u64, Pubkey), (VertexData, SignatureData)>,
    pub evidence: Map<(u64, Pubkey), EvidenceData>,
    /// The certificates asked for and not yet got, with the validator asked.
    pub requests: Seq<([u8; 32], Pubkey)>,
    pub dag: Map<[u8; 32], CertificateData>,
    pub next_round: u64,
    pub committed: Seq<[u8; 32]>,
}

/// The place of the first entry of `s` for `digest`; its length where there is none.
pub open spec fn request_place(s: Seq<([u8; 32], Pubkey)>, digest: [u8; 32]) -> int
    decreases s.len(),
{
    if s.len() == 0 {
        0
    } else if s[0].0 == digest {
        0
    } else {
        1 + request_place(s.skip(1), digest)
    }
}

/// `s` with `from` as the validator that was asked for `digest`. A request that is there
/// keeps its place.
pub open spec fn with_request(
    s: Seq<([u8; 32], Pubkey)>,
    digest: [u8; 32],
    from: Pubkey,
) -> Seq<([u8; 32], Pubkey)> {
    let at = request_place(s, digest);
    if at < s.len() {
        s.update(at, (digest, from))
    } else {
        s.push((digest, from))
    }
}

/// `s` with all of `digests` asked of `from`.
pub open spec fn with_requests(
    s: Seq<([u8; 32], Pubkey)>,
    digests: Seq<[u8; 32]>,
    from: Pubkey,
) -> Seq<([u8; 32], Pubkey)>
    decreases digests.len(),
{
    if digests.len() == 0 {
        s
    } else {
        with_request(with_requests(s, digests.drop_last(), from), digests.last(), from)
    }
}

/// The parents that are not known.
pub open spec fn missing(
    parents: Seq<[u8; 32]>,
    dag: Map<[u8; 32], CertificateData>,
) -> Seq<[u8; 32]>
    decreases parents.len(),
{
    if parents.len() == 0 {
        Seq::empty()
    } else {
        let rest = missing(parents.drop_last(), dag);
        if dag.contains_key(parents.last()) {
            rest
        } else {
            rest.push(parents.last())
        }
    }
}

/// The requests that are still open.
pub open spec fn unanswered(
    s: Seq<([u8; 32], Pubkey)>,
    dag: Map<[u8; 32], CertificateData>,
) -> Seq<([u8; 32], Pubkey)>
    decreases s.len(),
{
    if s.len() == 0 {
        Seq::empty()
    } else {
        let rest = unanswered(s.drop_last(), dag);
        if dag.contains_key(s.last().0) {
            rest
        } else {
            rest.push(s.last())
        }
    }
}

/// Asking `to` for certificates.
pub open spec fn asking(digests: Seq<[u8; 32]>, to: Pubkey) -> Seq<ActionData> {
    digests.map_values(
        |d: [u8; 32]|
            ActionData::Send { to, message: SimMessageData::CertificateRequest { digest: d } },
    )
}

/// Asking each validator for the certificate it was asked for.
pub open spec fn asking_each(s: Seq<([u8; 32], Pubkey)>) -> Seq<ActionData> {
    s.map_values(
        |r: ([u8; 32], Pubkey)|
            ActionData::Send {
                to: r.1,
                message: SimMessageData::CertificateRequest { digest: r.0 },
            },
    )
}

/// The same message to each of `peers`.
pub open spec fn to_all(peers: Seq<Pubkey>, message: SimMessageData) -> Seq<ActionData> {
    peers.map_values(|p: Pubkey| ActionData::Send { to: p, message })
}

/// The place of the first vote of `voter`; the number of votes where there is none.
pub open spec fn vote_place(s: Seq<(Pubkey, SignatureData)>, voter: Pubkey) -> int
    decreases s.len(),
{
    if s.len() == 0 {
        0
    } else if s[0].0 == voter {
        0
    } else {
        1 + vote_place(s.skip(1), voter)
    }
}

/// `s` with a vote, in place of an earlier one of the same voter.
pub open spec fn with_vote(
    s: Seq<(Pubkey, SignatureData)>,
    voter: Pubkey,
    signature: SignatureData,
) -> Seq<(Pubkey, SignatureData)> {
    let at = vote_place(s, voter);
    if at < s.len() {
        s.update(at, (voter, signature))
    } else {
        s.push((voter, signature))
    }
}

/// The stake behind a list of votes.
pub open spec fn vote_stake(s: Seq<(Pubkey, SignatureData)>, set: ValidatorSet) -> nat
    decreases s.len(),
{
    if s.len() == 0 {
        0
    } else {
        vote_stake(s.drop_last(), set) + stake_in(set, s.last().0)
    }
}

/// The votes for a digest.
pub open spec fn votes_for(s: SimState, digest: [u8; 32]) -> Seq<(Pubkey, SignatureData)> {
    if s.votes.contains_key(digest) {
        s.votes[digest]
    } else {
        Seq::empty()
    }
}

/// Taking a vote in: where it makes a quorum for the own vertex that is pending, that
/// vertex is certified.
pub open spec fn recorded(
    s: SimState,
    digest: [u8; 32],
    voter: Pubkey,
    signature: SignatureData,
    set: ValidatorSet,
) -> (SimState, Option<CertificateData>) {
    let votes = with_vote(votes_for(s, digest), voter, signature);
    if s.own_pending is Some && vertex_digest(s.own_pending->Some_0.0) == digest && vote_stake(votes, set)
        >= set.quorum {
        let certificate = CertificateData { vertex: s.own_pending->Some_0.0, signatures: votes };
        (
            SimState {
                own_pending: None,
                votes: s.votes.remove(digest),
                dag: s.dag.insert(digest, certificate),
                ..s
            },
            Some(certificate),
        )
    } else {
        (SimState { votes: s.votes.insert(digest, votes), ..s }, None)
    }
}

/// Keeping the first vertex seen of an author for a round, and evidence where a second,
/// different one is seen.
pub open spec fn witnessed(
    s: SimState,
    vertex: VertexData,
    signature: SignatureData,
    bundle: BundleData,
) -> SimState {
    let key = (vertex.round, vertex.author);
    if !s.first_seen.contains_key(key) {
        SimState { first_seen: s.first_seen.insert(key, (vertex, signature)), ..s }
    } else if vertex_digest(s.first_seen[key].0) != vertex_digest(vertex)
        && !s.evidence.contains_key(key) {
        SimState {
            evidence: s.evidence.insert(
                key,
                EvidenceData {
                    vertex_a: s.first_seen[key].0,
                    signature_a: s.first_seen[key].1,
                    vertex_b: vertex,
                    signature_b: signature,
                    author_bundle: bundle,
                },
            ),
            ..s
        }
    } else {
        s
    }
}

/// Asking `from` for the parents that are not known.
pub open spec fn asked(s: SimState, parents: Seq<[u8; 32]>, from: Pubkey) -> SimState {
    SimState { requests: with_requests(s.requests, missing(parents, s.dag), from), ..s }
}

/// A proposal came: its author is the sender and a validator, and has signed it.
pub open spec fn proposal_good(
    vertex: VertexData,
    signature: SignatureData,
    from: Pubkey,
    set: ValidatorSet,
) -> bool {
    &&& vertex.author == from
    &&& is_member(set, vertex.author)
    &&& ({
        let bundle = set.members@[place_of(set.members@, vertex.author)].pubkey_bundle@;
        signature_good(
            bundle.ed25519,
            bundle.mldsa,
            vertex_digest(vertex)@,
            signature.ed25519,
            signature.mldsa,
        )
    })
}

/// What a good proposal does. A vertex of an author and round for which another was voted
/// for gets no vote.
pub open spec fn on_proposal(
    s: SimState,
    vertex: VertexData,
    signature: SignatureData,
    from: Pubkey,
    set: ValidatorSet,
) -> (SimState, Seq<ActionData>) {
    let key = (vertex.round, vertex.author);
    let digest = vertex_digest(vertex);
    let bundle = set.members@[place_of(set.members@, vertex.author)].pubkey_bundle@;
    let seen = asked(witnessed(s, vertex, signature, bundle), vertex.parents, from);
    let requests = asking(missing(vertex.parents, s.dag), from);
    if seen.voted_for.contains_key(key) && seen.voted_for[key] != digest {
        (seen, requests)
    } else {
        (
            SimState { voted_for: seen.voted_for.insert(key, digest), ..seen },
            requests.push(ActionData::Vote { to: from, digest }),
        )
    }
}

/// What a certificate does.
pub open spec fn on_certificate(s: SimState, c: CertificateData, from: Pubkey, verified: bool) -> (
    SimState,
    Seq<ActionData>,
) {
    if verified {
        let known = SimState { dag: s.dag.insert(vertex_digest(c.vertex), c), ..s };
        (
            asked(known, c.vertex.parents, from),
            asking(missing(c.vertex.parents, known.dag), from),
        )
    } else {
        (s, Seq::empty())
    }
}

/// What a message does to a validator, and what it does in answer. `verified` says whether
/// the certificate in the message is good.
pub open spec fn reaction(
    s: SimState,
    behavior: ByzantineBehavior,
    from: Pubkey,
    m: SimMessageData,
    set: ValidatorSet,
    peers: Seq<Pubkey>,
    verified: bool,
) -> (SimState, Seq<ActionData>) {
    if behavior is Silent {
        (s, Seq::empty())
    } else {
        match m {
            SimMessageData::VertexProposal { vertex, author_signature } => if proposal_good(
                vertex,
                author_signature,
                from,
                set,
            ) {
                on_proposal(s, vertex, author_signature, from, set)
            } else {
                (s, Seq::empty())
            },
            SimMessageData::Vote { vertex_digest, signature } => {
                let r = recorded(s, vertex_digest, from, signature, set);
                (
                    r.0,
                    match r.1 {
                        Some(c) => to_all(peers, SimMessageData::CertificateBroadcast(c)),
                        None => Seq::empty(),
                    },
                )
            },
            SimMessageData::CertificateBroadcast(c) => on_certificate(s, c, from, verified),
            SimMessageData::CertificateRequest { digest } => (
                s,
                if s.dag.contains_key(digest) {
                    seq![
                        ActionData::Send {
                            to: from,
                            message: SimMessageData::CertificateResponse(s.dag[digest]),
                        },
                    ]
                } else {
                    Seq::empty()
                },
            ),
            SimMessageData::CertificateResponse(c) => on_certificate(s, c, from, verified),
        }
    }
}

/// A validator of the simulation.
pub struct SimValidator {
    pub id: Pubkey,
    pub behavior: ByzantineBehavior,
    pub dag: DagStore,
    pub own_pending_vertex: Option<(Vertex, HybridSignature)>,
    pub pending_votes: KeyMap<Vec<(Pubkey, HybridSignature)>>,
    pub voted_for: RoundMap<[u8; 32]>,
    pub first_seen_vertex: RoundMap<(Vertex, HybridSignature)>,
    pub equivocation_evidence: RoundMap<EquivocationEvidence>,
    pub pending_cert_requests: Vec<([u8; 32], Pubkey)>,
    pub next_round: u64,
    pub committed_order: Vec<[u8; 32]>,
}

spec fn signed_vertex(p: (Vertex, HybridSignature)) -> (VertexData, SignatureData) {
    (p.0@, p.1@)
}

fn digest_of(v: &Vertex) -> (digest: [u8; 32])
    requires
        vertex_fits(v@),
    ensures
        digest == vertex_digest(v@),
{
    match v.digest() {
        Some(d) => d,
        None => [0u8; 32],
    }
}

proof fn lemma_request_place(s: Seq<([u8; 32], Pubkey)>, digest: [u8; 32], at: int)
    requires
        0 <= at <= s.len(),
        forall|i: int| 0 <= i < at ==> (#[trigger] s[i]).0 != digest,
        at < s.len() ==> s[at].0 == digest,
    ensures
        request_place(s, digest) == at,
    decreases s.len(),
{
    if at > 0 {
        assert(s[0].0 != digest);
        assert forall|i: int| 0 <= i < at - 1 implies (#[trigger] s.skip(1)[i]).0 != digest by {
            assert(s.skip(1)[i] == s[i + 1]);
        }
        lemma_request_place(s.skip(1), digest, at - 1);
    }
}

proof fn lemma_vote_place(s: Seq<(Pubkey, SignatureData)>, voter: Pubkey, at: int)
    requires
        0 <= at <= s.len(),
        forall|i: int| 0 <= i < at ==> (#[trigger] s[i]).0 != voter,
        at < s.len() ==> s[at].0 == voter,
    ensures
        vote_place(s, voter) == at,
    decreases s.len(),
{
    if at > 0 {
        assert(s[0].0 != voter);
        assert forall|i: int| 0 <= i < at - 1 implies (#[trigger] s.skip(1)[i]).0 != voter by {
            assert(s.skip(1)[i] == s[i + 1]);
        }
        lemma_vote_place(s.skip(1), voter, at - 1);
    }
}

fn add_vote(votes: &mut Vec<(Pubkey, HybridSignature)>, voter: Pubkey, signature: HybridSignature)
    ensures
        votes_data(final(votes)@) == with_vote(votes_data(old(votes)@), voter, signature@),
{
    let ghost before = votes@;
    let mut i: usize = 0;
    while i < votes.len()
        invariant
            i <= votes@.len(),
            votes@ == before,
            before == old(votes)@,
            forall|j: int| 0 <= j < i ==> (#[trigger] before[j]).0 != voter,
        decreases votes@.len() - i,
    {
        if votes[i].0.same_as(&voter) {
            proof {
                assert forall|j: int| 0 <= j < i implies (#[trigger] votes_data(before)[j]).0
                    != voter by {
                    assert(before[j].0 != voter);
                }
                lemma_vote_place(votes_data(before), voter, i as int);
            }
            votes[i] = (voter, signature);
            proof {
                assert(votes_data(votes@) =~= with_vote(votes_data(before), voter, signature@));
            }
            return;
        }
        i += 1;
    }
    proof {
        assert forall|j: int| 0 <= j < i implies (#[trigger] votes_data(before)[j]).0 != voter by {
            assert(before[j].0 != voter);
        }
        lemma_vote_place(votes_data(before), voter, i as int);
    }
    votes.push((voter, signature));
    proof {
        assert(votes_data(votes@) =~= with_vote(votes_data(before), voter, signature@));
    }
}

fn stake_of_votes(votes: &Vec<(Pubkey, HybridSignature)>, set: &ValidatorSet) -> (stake: u128)
    ensures
        stake == vote_stake(votes_data(votes@), *set),
{
    let mut total: u128 = 0;
    let mut i: usize = 0;
    let ghost all = votes_data(votes@);
    proof {
        assert(all.take(0) =~= Seq::<(Pubkey, SignatureData)>::empty());
    }
    while i < votes.len()
        invariant
            i <= votes@.len(),
            all == votes_data(votes@),
            total == vote_stake(all.take(i as int), *set),
            total <= i * u64::MAX,
        decreases votes@.len() - i,
    {
        proof {
            assert(all.take(i + 1).drop_last() =~= all.take(i as int));
            assert(all.take(i + 1).last() == all[i as int]);
            assert(i * u64::MAX + u64::MAX == (i + 1) * u64::MAX) by (nonlinear_arith);
            assert((i + 1) * u64::MAX <= u128::MAX) by (nonlinear_arith)
                requires
                    i + 1 <= usize::MAX,
                    usize::MAX <= u64::MAX,
            ;
        }
        total = total + set.stake_of(&votes[i].0) as u128;
        i += 1;
    }
    proof {
        assert(all.take(i as int) =~= all);
    }
    total
}

fn send_to_all(
    out: &mut Vec<Action>,
    peers: &Vec<Pubkey>,
    count: usize,
    message: &SimMessage,
)
    requires
        count <= peers@.len(),
    ensures
        actions_data(final(out)@) == actions_data(old(out)@) + to_all(
            peers@.take(count as int),
            message@,
        ),
{
    let ghost before = actions_data(out@);
    let mut i: usize = 0;
    proof {
        assert(actions_data(out@) =~= before + to_all(peers@.take(0), message@));
    }
    while i < count
        invariant
            i <= count <= peers@.len(),
            actions_data(out@) == before + to_all(peers@.take(i as int), message@),
        decreases count - i,
    {
        let ghost now = out@;
        let copy = message.clone();
        out.push(Action::Send { to: peers[i], message: copy });
        proof {
            assert(actions_data(out@) =~= actions_data(now).push(
                ActionData::Send { to: peers@[i as int], message: message@ },
            ));
            assert(to_all(peers@.take(i + 1), message@) =~= to_all(
                peers@.take(i as int),
                message@,
            ).push(ActionData::Send { to: peers@[i as int], message: message@ }));
            assert(actions_data(out@) =~= before + to_all(peers@.take(i + 1), message@));
        }
        i += 1;
    }
}

impl Clone for SimMessage {
    fn clone(&self) -> (copy: Self)
        ensures
            copy@ == self@,
    {
        match self {
            SimMessage::VertexProposal { vertex, author_signature } => SimMessage::VertexProposal {
                vertex: vertex.clone(),
                author_signature: author_signature.clone(),
            },
            SimMessage::Vote { vertex_digest, signature } => SimMessage::Vote {
                vertex_digest: *vertex_digest,
                signature: signature.clone(),
            },
            SimMessage::CertificateBroadcast(c) => SimMessage::CertificateBroadcast(c.clone()),
            SimMessage::CertificateRequest { digest } => SimMessage::CertificateRequest {
                digest: *digest,
            },
            SimMessage::CertificateResponse(c) => SimMessage::CertificateResponse(c.clone()),
        }
    }
}

impl SimValidator {
    /// The maps are in order, and the vertices that are kept have digests.
    pub closed spec fn wf(&self) -> bool {
        &&& self.dag.wf()
        &&& self.pending_votes.wf()
        &&& self.voted_for.wf()
        &&& self.first_seen_vertex.wf()
        &&& self.equivocation_evidence.wf()
        &&& self.own_pending_vertex is Some ==> vertex_fits(self.own_pending_vertex->Some_0.0@)
        &&& forall|k: (u64, Pubkey)| #[trigger]
            self.first_seen_vertex@.contains_key(k) ==> vertex_fits(
                self.first_seen_vertex@[k].0@,
            )
        &&& forall|d: [u8; 32]| #[trigger]
            self.dag@.contains_key(d) ==> vertex_fits(self.dag@[d].vertex)
    }

    /// What the validator remembers.
    pub closed spec fn view(&self) -> SimState {
        SimState {
            own_pending: match self.own_pending_vertex {
                Some(p) => Some(signed_vertex(p)),
                None => None,
            },
            votes: self.pending_votes@.map_values(
                |v: Vec<(Pubkey, HybridSignature)>| votes_data(v@),
            ),
            voted_for: self.voted_for@,
            first_seen: self.first_seen_vertex@.map_values(
                |p: (Vertex, HybridSignature)| signed_vertex(p),
            ),
            evidence: self.equivocation_evidence@.map_values(|e: EquivocationEvidence| e@),
            requests: self.pending_cert_requests@,
            dag: self.dag@,
            next_round: self.next_round,
            committed: self.committed_order@,
        }
    }

    /// What is remembered, as far as the fields show it.
    pub proof fn lemma_fields(&self)
        ensures
            self@.committed == self.committed_order@,
            self@.dag == self.dag@,
            self@.next_round == self.next_round,
            self.wf() ==> self.dag.wf() && self.equivocation_evidence.wf(),
            self.wf() && self@.own_pending is Some ==> vertex_fits(self@.own_pending->Some_0.0),
            self.wf() ==> forall|d: [u8; 32]| #[trigger]
                self@.dag.contains_key(d) ==> vertex_fits(self@.dag[d].vertex),
            self@.evidence.dom() == self.equivocation_evidence@.dom(),
    {
        assert(self@.evidence.dom() =~= self.equivocation_evidence@.dom());
    }

    /// The round whose committee a message is judged under.
    pub fn judged_round(&self, message: &SimMessage) -> (round: u64)
        requires
            self.wf(),
        ensures
            round == judged_in(self@, message@),
    {
        match message {
            SimMessage::VertexProposal { vertex, author_signature } => vertex.round,
            SimMessage::CertificateBroadcast(c) => c.vertex.round,
            SimMessage::CertificateResponse(c) => c.vertex.round,
            SimMessage::Vote { vertex_digest, signature } => match &self.own_pending_vertex {
                Some(p) => p.0.round,
                None => self.next_round,
            },
            SimMessage::CertificateRequest { digest } => self.next_round,
        }
    }

    /// A validator that remembers nothing.
    pub fn new(id: Pubkey, behavior: ByzantineBehavior) -> (validator: Self)
        ensures
            validator.wf(),
            validator.id == id,
            validator.behavior == behavior,
            validator@ == (SimState {
                own_pending: None,
                votes: Map::empty(),
                voted_for: Map::empty(),
                first_seen: Map::empty(),
                evidence: Map::empty(),
                requests: Seq::empty(),
                dag: Map::empty(),
                next_round: 0,
                committed: Seq::empty(),
            }),
    {
        let v = SimValidator {
            id,
            behavior,
            dag: DagStore::new(),
            own_pending_vertex: None,
            pending_votes: KeyMap::new(),
            voted_for: RoundMap::new(),
            first_seen_vertex: RoundMap::new(),
            equivocation_evidence: RoundMap::new(),
            pending_cert_requests: Vec::new(),
            next_round: 0,
            committed_order: Vec::new(),
        };
        proof {
            assert(v@.votes =~= Map::empty());
            assert(v@.first_seen =~= Map::empty());
            assert(v@.evidence =~= Map::empty());
        }
        v
    }

    fn request(&mut self, digest: [u8; 32], from: Pubkey)
        requires
            old(self).wf(),
        ensures
            final(self).wf(),
            final(self).id == old(self).id,
            final(self).behavior == old(self).behavior,
            final(self)@ == (SimState {
                requests: with_request(old(self)@.requests, digest, from),
                ..old(self)@
            }),
    {
        let ghost before = self.pending_cert_requests@;
        let mut i: usize = 0;
        while i < self.pending_cert_requests.len()
            invariant
                *self == *old(self),
                self.wf(),
                before == self.pending_cert_requests@,
                i <= before.len(),
                forall|j: int| 0 <= j < i ==> (#[trigger] before[j]).0 != digest,
            decreases before.len() - i,
        {
            if digests_equal(&self.pending_cert_requests[i].0, &digest) {
                proof {
                    lemma_request_place(before, digest, i as int);
                }
                self.pending_cert_requests[i] = (digest, from);
                return;
            }
            i += 1;
        }
        proof {
            lemma_request_place(before, digest, i as int);
        }
        self.pending_cert_requests.push((digest, from));
    }

    /// Asks `from` for the parents that are not known.
    fn missing_parent_requests(&mut self, parents: &Vec<[u8; 32]>, from: Pubkey, out: &mut Vec<Action>)
        requires
            old(self).wf(),
        ensures
            final(self).wf(),
            final(self).id == old(self).id,
            final(self).behavior == old(self).behavior,
            final(self)@ == asked(old(self)@, parents@, from),
            actions_data(final(out)@) == actions_data(old(out)@) + asking(
                missing(parents@, old(self)@.dag),
                from,
            ),
    {
        let ghost s = self@;
        let ghost first = actions_data(out@);
        let mut i: usize = 0;
        proof {
            assert(parents@.take(0) =~= Seq::<[u8; 32]>::empty());
            assert(actions_data(out@) =~= first + asking(missing(parents@.take(0), s.dag), from));
        }
        while i < parents.len()
            invariant
                self.wf(),
                self.id == old(self).id,
                self.behavior == old(self).behavior,
                s == old(self)@,
                i <= parents@.len(),
                self@ == asked(s, parents@.take(i as int), from),
                actions_data(out@) == first + asking(
                    missing(parents@.take(i as int), s.dag),
                    from,
                ),
            decreases parents@.len() - i,
        {
            proof {
                assert(parents@.take(i + 1).drop_last() =~= parents@.take(i as int));
                assert(parents@.take(i + 1).last() == parents@[i as int]);
            }
            let ghost m = missing(parents@.take(i as int), s.dag);
            if !self.dag.contains(&parents[i]) {
                let digest: [u8; 32] = parents[i];
                self.request(digest, from);
                let ghost now = out@;
                out.push(Action::Send { to: from, message: SimMessage::CertificateRequest { digest } });
                proof {
                    assert(m.push(digest).drop_last() =~= m);
                    assert(asking(m.push(digest), from) =~= asking(m, from).push(
                        ActionData::Send {
                            to: from,
                            message: SimMessageData::CertificateRequest { digest },
                        },
                    ));
                    assert(actions_data(out@) =~= actions_data(now).push(
                        ActionData::Send {
                            to: from,
                            message: SimMessageData::CertificateRequest { digest },
                        },
                    ));
                    assert(actions_data(out@) =~= first + asking(m.push(digest), from));
                }
            }
            i += 1;
        }
        proof {
            assert(parents@.take(i as int) =~= parents@);
        }
    }

    /// Forgets the requests that were answered, and asks again for the rest, in the order
    /// in which they first came up.
    pub fn retry_pending_cert_requests(&mut self) -> (out: Vec<Action>)
        requires
            old(self).wf(),
        ensures
            final(self).wf(),
            final(self).id == old(self).id,
            final(self).behavior == old(self).behavior,
            final(self)@ == (SimState {
                requests: unanswered(old(self)@.requests, old(self)@.dag),
                ..old(self)@
            }),
            actions_data(out@) == asking_each(unanswered(old(self)@.requests, old(self)@.dag)),
    {
        let ghost s = self@;
        let mut kept: Vec<([u8; 32], Pubkey)> = Vec::new();
        let mut out: Vec<Action> = Vec::new();
        let mut i: usize = 0;
        proof {
            assert(s.requests.take(0) =~= Seq::<([u8; 32], Pubkey)>::empty());
            assert(actions_data(out@) =~= asking_each(kept@));
        }
        while i < self.pending_cert_requests.len()
            invariant
                *self == *old(self),
                self.wf(),
                s == self@,
                i <= self.pending_cert_requests@.len(),
                kept@ == unanswered(s.requests.take(i as int), s.dag),
                actions_data(out@) == asking_each(kept@),
            decreases self.pending_cert_requests@.len() - i,
        {
            proof {
                assert(s.requests.take(i + 1).drop_last() =~= s.requests.take(i as int));
                assert(s.requests.take(i + 1).last() == s.requests[i as int]);
            }
            let entry: ([u8; 32], Pubkey) = self.pending_cert_requests[i];
            if !self.dag.contains(&entry.0) {
                let ghost before = kept@;
                let ghost now = out@;
                kept.push(entry);
                out.push(
                    Action::Send {
                        to: entry.1,
                        message: SimMessage::CertificateRequest { digest: entry.0 },
                    },
                );
                proof {
                    let a = ActionData::Send {
                        to: entry.1,
                        message: SimMessageData::CertificateRequest { digest: entry.0 },
                    };
                    assert(asking_each(before.push(entry)) =~= asking_each(before).push(a));
                    assert(actions_data(out@) =~= actions_data(now).push(a));
                }
            }
            i += 1;
        }
        proof {
            assert(s.requests.take(i as int) =~= s.requests);
        }
        self.pending_cert_requests = kept;
        out
    }

    /// Takes a vote in.
    fn record_vote(
        &mut self,
        digest: [u8; 32],
        voter: Pubkey,
        signature: HybridSignature,
        set: &ValidatorSet,
    ) -> (certificate: Option<Certificate>)
        requires
            old(self).wf(),
        ensures
            final(self).wf(),
            final(self).id == old(self).id,
            final(self).behavior == old(self).behavior,
            final(self)@ == recorded(old(self)@, digest, voter, signature@, *set).0,
            match certificate {
                Some(c) => recorded(old(self)@, digest, voter, signature@, *set).1 == Some(c@),
                None => recorded(old(self)@, digest, voter, signature@, *set).1 is None,
            },
    {
        let ghost s = self@;
        let ghost expected = recorded(s, digest, voter, signature@, *set);
        let mut votes: Vec<(Pubkey, HybridSignature)> = match self.pending_votes.take(&digest) {
            Some(v) => v,
            None => Vec::new(),
        };
        proof {
            assert(votes_data(votes@) =~= votes_for(s, digest));
        }
        add_vote(&mut votes, voter, signature);
        let own: bool = match &self.own_pending_vertex {
            Some(p) => digests_equal(&digest_of(&p.0), &digest),
            None => false,
        };
        if own && stake_of_votes(&votes, set) >= set.quorum_threshold() as u128 {
            let mut pending: Option<(Vertex, HybridSignature)> = None;
            std::mem::swap(&mut pending, &mut self.own_pending_vertex);
            match pending {
                Some(p) => {
                    let certificate = Certificate { vertex: p.0, signatures: votes };
                    self.dag.insert(digest, certificate.clone());
                    proof {
                        assert(self@.votes =~= s.votes.remove(digest));
                        assert(certificate@ =~= expected.1->0);
                        assert(self@ =~= expected.0);
                    }
                    Some(certificate)
                },
                None => None,
            }
        } else {
            self.pending_votes.insert(digest, votes);
            proof {
                assert(self@.votes =~= s.votes.insert(digest, votes_data(votes@)));
                assert(self@ =~= expected.0);
            }
            None
        }
    }

    fn witness(&mut self, vertex: &Vertex, signature: &HybridSignature, bundle: &PublicKeyBundle)
        requires
            old(self).wf(),
            vertex_fits(vertex@),
        ensures
            final(self).wf(),
            final(self).id == old(self).id,
            final(self).behavior == old(self).behavior,
            final(self)@ == witnessed(old(self)@, vertex@, signature@, bundle@),
    {
        let ghost s = self@;
        let round: u64 = vertex.round;
        let author: Pubkey = vertex.author;
        let ghost key = (round, author);
        match self.first_seen_vertex.get(round, &author) {
            None => {
                let v = vertex.clone();
                let g = signature.clone();
                self.first_seen_vertex.insert(round, author, (v, g));
                proof {
                    assert(self@.first_seen =~= s.first_seen.insert(key, (vertex@, signature@)));
                    assert(self@ =~= witnessed(s, vertex@, signature@, bundle@));
                }
            },
            Some(prior) => {
                proof {
                    assert(s.first_seen.contains_key(key));
                    assert(s.first_seen[key] == signed_vertex(*prior));
                }
                if !digests_equal(&digest_of(&prior.0), &digest_of(vertex)) {
                    if self.equivocation_evidence.get(round, &author).is_none() {
                        let e = EquivocationEvidence {
                            vertex_a: prior.0.clone(),
                            signature_a: prior.1.clone(),
                            vertex_b: vertex.clone(),
                            signature_b: signature.clone(),
                            author_bundle: bundle.clone(),
                        };
                        self.equivocation_evidence.insert(round, author, e);
                        proof {
                            assert(self@.evidence =~= s.evidence.insert(key, e@));
                            assert(self@ =~= witnessed(s, vertex@, signature@, bundle@));
                        }
                    }
                }
            },
        }
    }

    fn take_certificate(&mut self, c: Certificate, from: Pubkey, verified: bool) -> (out: Vec<Action>)
        requires
            old(self).wf(),
            vertex_fits(c@.vertex),
        ensures
            final(self).wf(),
            final(self).id == old(self).id,
            final(self).behavior == old(self).behavior,
            final(self)@ == on_certificate(old(self)@, c@, from, verified).0,
            actions_data(out@) == on_certificate(old(self)@, c@, from, verified).1,
    {
        let mut out: Vec<Action> = Vec::new();
        proof {
            assert(actions_data(out@) =~= Seq::<ActionData>::empty());
        }
        if verified {
            let ghost s = self@;
            let digest: [u8; 32] = digest_of(&c.vertex);
            let parents = crate::hash::copy_digests(&c.vertex.parents);
            self.dag.insert(digest, c);
            let ghost known = SimState { dag: s.dag.insert(digest, c@), ..s };
            proof {
                assert(self@ =~= known);
            }
            self.missing_parent_requests(&parents, from, &mut out);
            proof {
                assert(actions_data(out@) =~= asking(missing(parents@, known.dag), from));
            }
        }
        out
    }

    /// What a message does to the validator, and what it has to do in answer. `verified`
    /// says whether the certificate in the message is good.
    pub fn react(
        &mut self,
        from: Pubkey,
        message: SimMessage,
        set: &ValidatorSet,
        peers: &Vec<Pubkey>,
        verified: bool,
    ) -> (out: Vec<Action>)
        requires
            old(self).wf(),
            message_has_digest(message@),
        ensures
            final(self).wf(),
            final(self).id == old(self).id,
            final(self).behavior == old(self).behavior,
            final(self)@ == reaction(
                old(self)@,
                old(self).behavior,
                from,
                message@,
                *set,
                peers@,
                verified,
            ).0,
            actions_data(out@) == reaction(
                old(self)@,
                old(self).behavior,
                from,
                message@,
                *set,
                peers@,
                verified,
            ).1,
    {
        let ghost s = self@;
        let mut out: Vec<Action> = Vec::new();
        proof {
            assert(actions_data(out@) =~= Seq::<ActionData>::empty());
        }
        if self.behavior == ByzantineBehavior::Silent {
            return out;
        }
        match message {
            SimMessage::VertexProposal { vertex, author_signature } => {
                if !vertex.author.same_as(&from) {
                    return out;
                }
                let bundle = match set.get(&vertex.author) {
                    None => {
                        return out;
                    },
                    Some(m) => &m.pubkey_bundle,
                };
                let digest: [u8; 32] = digest_of(&vertex);
                if !verify(bundle, digest.as_slice(), &author_signature) {
                    return out;
                }
                let round: u64 = vertex.round;
                let author: Pubkey = vertex.author;
                self.witness(&vertex, &author_signature, bundle);
                self.missing_parent_requests(&vertex.parents, from, &mut out);
                let ghost seen = self@;
                proof {
                    assert(actions_data(out@) =~= asking(missing(vertex@.parents, s.dag), from));
                }
                match self.voted_for.get(round, &author) {
                    Some(existing) => {
                        if !digests_equal(existing, &digest) {
                            return out;
                        }
                        proof {
                            assert(seen.voted_for.insert((round, author), digest)
                                =~= seen.voted_for);
                        }
                    },
                    None => {
                        self.voted_for.insert(round, author, digest);
                    },
                }
                let ghost now = out@;
                out.push(Action::Vote { to: from, digest });
                proof {
                    assert(actions_data(out@) =~= actions_data(now).push(
                        ActionData::Vote { to: from, digest },
                    ));
                    assert(self@ =~= SimState {
                        voted_for: seen.voted_for.insert((round, author), digest),
                        ..seen
                    });
                }
                out
            },
            SimMessage::Vote { vertex_digest, signature } => {
                match self.record_vote(vertex_digest, from, signature, set) {
                    None => out,
                    Some(c) => {
                        let ghost data = c@;
                        let broadcast = SimMessage::CertificateBroadcast(c);
                        send_to_all(&mut out, peers, peers.len(), &broadcast);
                        proof {
                            assert(peers@.take(peers@.len() as int) =~= peers@);
                            assert(actions_data(out@) =~= to_all(
                                peers@,
                                SimMessageData::CertificateBroadcast(data),
                            ));
                        }
                        out
                    },
                }
            },
            SimMessage::CertificateBroadcast(c) => self.take_certificate(c, from, verified),
            SimMessage::CertificateRequest { digest } => {
                match self.dag.get(&digest) {
                    Some(c) => {
                        let answer = c.clone();
                        out.push(
                            Action::Send { to: from, message: SimMessage::CertificateResponse(answer) },
                        );
                        proof {
                            assert(actions_data(out@) =~= seq![
                                ActionData::Send {
                                    to: from,
                                    message: SimMessageData::CertificateResponse(s.dag[digest]),
                                },
                            ]);
                        }
                    },
                    None => {},
                }
                out
            },
            SimMessage::CertificateResponse(c) => self.take_certificate(c, from, verified),
        }
    }

    /// Takes over what the ordering of the certificates has newly settled.
    pub fn commit(&mut self, newly: &Vec<[u8; 32]>)
        requires
            old(self).wf(),
        ensures
            final(self).wf(),
            final(self).id == old(self).id,
            final(self).behavior == old(self).behavior,
            final(self)@ == (SimState { committed: old(self)@.committed + newly@, ..old(self)@ }),
    {
        let ghost before = self.committed_order@;
        let mut i: usize = 0;
        while i < newly.len()
            invariant
                i <= newly@.len(),
                self.wf(),
                self.id == old(self).id,
                self.behavior == old(self).behavior,
                before == old(self)@.committed,
                self@ == (SimState {
                    committed: before + newly@.take(i as int),
                    ..old(self)@
                }),
            decreases newly@.len() - i,
        {
            self.committed_order.push(newly[i]);
            proof {
                assert(self.committed_order@ =~= before + newly@.take(i + 1));
            }
            i += 1;
        }
        proof {
            assert(newly@.take(i as int) =~= newly@);
        }
    }
}

/// What is next for a validator.
pub enum Due {
    Nothing,
    /// Its own vertex that is not certified yet is sent again.
    Resend,
    /// A new vertex with these parents is proposed.
    Fresh { parents: Vec<[u8; 32]> },
}

/// A validator may go on to its next round: it is the first, or a quorum of the round
/// before is certified, or its own stake is a quorum, in the committee `set` of that round
/// before.
pub open spec fn may_go_on(s: SimState, id: Pubkey, set: ValidatorSet) -> bool {
    ||| s.next_round == 0
    ||| stake_in(set, id) >= set.quorum
    ||| round_stake(s.dag, (s.next_round - 1) as u64, set) >= set.quorum
}

/// `parents` are those of a vertex of the validator's next round: the certificates of the
/// round before that it knows, in ascending order.
pub open spec fn are_parents(parents: Seq<[u8; 32]>, s: SimState) -> bool {
    if s.next_round == 0 {
        parents.len() == 0
    } else {
        lists_round(parents, s.dag, (s.next_round - 1) as u64)
    }
}

/// What a proposal does: the vertex is kept and goes to all peers, the validator votes for
/// it itself, and, where its own stake is a quorum, the certificate goes to all peers. A
/// second vertex goes to the first half of the peers, at least to one.
pub open spec fn proposed(
    s: SimState,
    id: Pubkey,
    vertex: VertexData,
    signature: SignatureData,
    rival: Option<(VertexData, SignatureData)>,
    set: ValidatorSet,
    peers: Seq<Pubkey>,
) -> (SimState, Seq<ActionData>) {
    let digest = vertex_digest(vertex);
    let kept = SimState {
        own_pending: Some((vertex, signature)),
        next_round: (s.next_round + 1) as u64,
        voted_for: s.voted_for.insert((vertex.round, id), digest),
        ..s
    };
    let r = recorded(kept, digest, id, signature, set);
    let proposals = to_all(
        peers,
        SimMessageData::VertexProposal { vertex, author_signature: signature },
    );
    let broadcasts = match r.1 {
        Some(c) => to_all(peers, SimMessageData::CertificateBroadcast(c)),
        None => Seq::empty(),
    };
    let rivals = match rival {
        Some(p) => to_all(
            peers.take(rival_count(peers.len())),
            SimMessageData::VertexProposal { vertex: p.0, author_signature: p.1 },
        ),
        None => Seq::empty(),
    };
    (r.0, proposals + broadcasts + rivals)
}

/// What a second vertex with its signature says.
pub open spec fn second_vertex(rival: Option<(Vertex, HybridSignature)>) -> Option<
    (VertexData, SignatureData),
> {
    match rival {
        Some(p) => Some((p.0@, p.1@)),
        None => None,
    }
}

/// How many peers get a second vertex.
pub open spec fn rival_count(peers: nat) -> int {
    if peers == 0 {
        0
    } else if peers / 2 == 0 {
        1
    } else {
        (peers / 2) as int
    }
}

/// The vertex of a validator's next round; a second one differs in its batch.
pub open spec fn next_vertex(
    s: SimState,
    id: Pubkey,
    parents: Seq<[u8; 32]>,
    batch: u8,
) -> VertexData {
    VertexData {
        round: s.next_round,
        author: id,
        batch_digests: seq![(0u32, crate::codec::filled(batch))],
        parents,
    }
}

/// The signature of the digest of a vertex under the keys of a validator.
pub open spec fn signs_vertex(keypair: Keypair, v: VertexData, signature: SignatureData) -> bool {
    signs_digest(keypair, vertex_digest(v), signature)
}

/// The signature of a digest under the keys of a validator.
pub open spec fn signs_digest(keypair: Keypair, digest: [u8; 32], signature: SignatureData) -> bool {
    &&& signature.ed25519 == ed25519_signed(keypair.ed25519_secret(), digest@)
    &&& mldsa_signs(keypair.mldsa_secret(), digest@, signature.mldsa)
}

/// A fresh proposal was made, with these parents and signatures.
pub open spec fn made_with(
    s: SimState,
    id: Pubkey,
    behavior: ByzantineBehavior,
    keypair: Keypair,
    set: ValidatorSet,
    peers: Seq<Pubkey>,
    parents: Seq<[u8; 32]>,
    signature: SignatureData,
    rival: Option<(VertexData, SignatureData)>,
    after: (SimState, Seq<ActionData>),
) -> bool {
    let vertex = next_vertex(s, id, parents, 0);
    &&& are_parents(parents, s)
    &&& signs_vertex(keypair, vertex, signature)
    &&& match rival {
        Some(p) => behavior is Equivocator && peers.len() > 0 && p.0 == next_vertex(
            s,
            id,
            parents,
            1,
        ) && signs_vertex(keypair, p.0, p.1),
        None => !(behavior is Equivocator) || peers.len() == 0,
    }
    &&& after == proposed(s, id, vertex, signature, rival, set, peers)
}

/// What a validator does of its own accord, after which it remembers `after.0` and has
/// done `after.1`. Whether it may go on is told by the committee `last` of the round before
/// its next one; `set` is the committee of the next one.
pub open spec fn went_on(
    s: SimState,
    id: Pubkey,
    behavior: ByzantineBehavior,
    keypair: Keypair,
    last: ValidatorSet,
    set: ValidatorSet,
    peers: Seq<Pubkey>,
    after: (SimState, Seq<ActionData>),
) -> bool {
    if behavior is Silent {
        after == (s, Seq::<ActionData>::empty())
    } else if s.own_pending is Some {
        after == (
            s,
            to_all(
                peers,
                SimMessageData::VertexProposal {
                    vertex: s.own_pending->Some_0.0,
                    author_signature: s.own_pending->Some_0.1,
                },
            ),
        )
    } else if !may_go_on(s, id, last) {
        after == (s, Seq::<ActionData>::empty())
    } else {
        exists|
            parents: Seq<[u8; 32]>,
            signature: SignatureData,
            rival: Option<(VertexData, SignatureData)>,
        | #[trigger]
            made_with(s, id, behavior, keypair, set, peers, parents, signature, rival, after)
    }
}

impl SimValidator {
    /// What is next for the validator.
    pub fn proposal_due(&self, set: &ValidatorSet) -> (due: Due)
        requires
            self.wf(),
        ensures
            match due {
                Due::Nothing => self.behavior is Silent || (self@.own_pending is None && !may_go_on(
                    self@,
                    self.id,
                    *set,
                )),
                Due::Resend => !(self.behavior is Silent) && self@.own_pending is Some,
                Due::Fresh { parents } => !(self.behavior is Silent) && self@.own_pending is None
                    && may_go_on(self@, self.id, *set) && are_parents(parents@, self@),
            },
    {
        if self.behavior == ByzantineBehavior::Silent {
            return Due::Nothing;
        }
        if self.own_pending_vertex.is_some() {
            return Due::Resend;
        }
        let round: u64 = self.next_round;
        if round == 0 {
            return Due::Fresh { parents: Vec::new() };
        }
        let quorum: u64 = set.quorum_threshold();
        if set.stake_of(&self.id) < quorum {
            if self.dag.stake_in_round(round - 1, set) < quorum as u128 {
                return Due::Nothing;
            }
        }
        Due::Fresh { parents: self.dag.digests_in_round(round - 1) }
    }

    /// Takes over a vertex of its own for the next round, and a second one where it is to
    /// send one.
    pub fn adopt_proposal(
        &mut self,
        vertex: Vertex,
        signature: HybridSignature,
        rival: Option<(Vertex, HybridSignature)>,
        set: &ValidatorSet,
        peers: &Vec<Pubkey>,
    ) -> (out: Vec<Action>)
        requires
            old(self).wf(),
            old(self)@.own_pending is None,
            old(self)@.next_round < u64::MAX,
            vertex_fits(vertex@),
        ensures
            final(self).wf(),
            final(self).id == old(self).id,
            final(self).behavior == old(self).behavior,
            (final(self)@, actions_data(out@)) == proposed(
                old(self)@,
                old(self).id,
                vertex@,
                signature@,
                second_vertex(rival),
                *set,
                peers@,
            ),
    {
        let ghost s = self@;
        let ghost id = self.id;
        let ghost extra = second_vertex(rival);
        let ghost v = vertex@;
        let ghost g = signature@;
        let digest: [u8; 32] = digest_of(&vertex);
        let round: u64 = vertex.round;
        let own: Pubkey = self.id;
        let mut out: Vec<Action> = Vec::new();
        let n: usize = peers.len();
        let again = signature.clone();
        self.own_pending_vertex = Some((vertex.clone(), signature.clone()));
        self.next_round = self.next_round + 1;
        self.voted_for.insert(round, own, digest);
        let ghost kept = SimState {
            own_pending: Some((v, g)),
            next_round: (s.next_round + 1) as u64,
            voted_for: s.voted_for.insert((v.round, id), digest),
            ..s
        };
        proof {
            assert(self@ =~= kept);
        }
        let proposal = SimMessage::VertexProposal { vertex, author_signature: signature };
        send_to_all(&mut out, peers, n, &proposal);
        let ghost proposals = to_all(
            peers@,
            SimMessageData::VertexProposal { vertex: v, author_signature: g },
        );
        proof {
            assert(peers@.take(n as int) =~= peers@);
            assert(actions_data(out@) =~= proposals);
        }
        let ghost r = recorded(kept, digest, id, g, *set);
        let ghost broadcasts = match r.1 {
            Some(c) => to_all(peers@, SimMessageData::CertificateBroadcast(c)),
            None => Seq::empty(),
        };
        match self.record_vote(digest, own, again, set) {
            Some(c) => {
                let broadcast = SimMessage::CertificateBroadcast(c);
                send_to_all(&mut out, peers, n, &broadcast);
            },
            None => {},
        }
        proof {
            assert(actions_data(out@) =~= proposals + broadcasts);
        }
        match rival {
            Some(p) => {
                let half: usize = if n == 0 {
                    0
                } else if n / 2 == 0 {
                    1
                } else {
                    n / 2
                };
                let second = SimMessage::VertexProposal { vertex: p.0, author_signature: p.1 };
                send_to_all(&mut out, peers, half, &second);
            },
            None => {},
        }
        proof {
            assert(actions_data(out@) =~= proposed(s, id, v, g, extra, *set, peers@).1);
        }
        out
    }

    /// Proposes where it is time to, and signs what it proposes, where one committee decides
    /// of all rounds. None where the system has no random numbers; then nothing has changed.
    pub fn maybe_propose(
        &mut self,
        keypair: &Keypair,
        set: &ValidatorSet,
        peers: &Vec<Pubkey>,
    ) -> (out: Option<Vec<Action>>)
        requires
            old(self).wf(),
            keypair.wf(),
            !(old(self).behavior is Silent) && old(self)@.own_pending is None ==> {
                &&& old(self)@.next_round < u64::MAX
                &&& old(self)@.dag.len() <= u32::MAX
                &&& old(self)@.dag.dom().finite()
            },
        ensures
            final(self).wf(),
            final(self).id == old(self).id,
            final(self).behavior == old(self).behavior,
            match out {
                Some(actions) => went_on(
                    old(self)@,
                    old(self).id,
                    old(self).behavior,
                    *keypair,
                    *set,
                    *set,
                    peers@,
                    (final(self)@, actions_data(actions@)),
                ),
                None => {
                    &&& final(self)@ == old(self)@
                    &&& !(old(self).behavior is Silent)
                    &&& old(self)@.own_pending is None
                    &&& may_go_on(old(self)@, old(self).id, *set)
                },
            },
    {
        self.propose_under(keypair, set, set, peers)
    }

    /// Proposes where it is time to, and signs what it proposes: the committee `last` of the
    /// round before decides whether it is, and `set` is the committee of the next round. None
    /// where the system has no random numbers; then nothing has changed.
    pub fn propose_under(
        &mut self,
        keypair: &Keypair,
        last: &ValidatorSet,
        set: &ValidatorSet,
        peers: &Vec<Pubkey>,
    ) -> (out: Option<Vec<Action>>)
        requires
            old(self).wf(),
            keypair.wf(),
            !(old(self).behavior is Silent) && old(self)@.own_pending is None ==> {
                &&& old(self)@.next_round < u64::MAX
                &&& old(self)@.dag.len() <= u32::MAX
                &&& old(self)@.dag.dom().finite()
            },
        ensures
            final(self).wf(),
            final(self).id == old(self).id,
            final(self).behavior == old(self).behavior,
            match out {
                Some(actions) => went_on(
                    old(self)@,
                    old(self).id,
                    old(self).behavior,
                    *keypair,
                    *last,
                    *set,
                    peers@,
                    (final(self)@, actions_data(actions@)),
                ),
                None => {
                    &&& final(self)@ == old(self)@
                    &&& !(old(self).behavior is Silent)
                    &&& old(self)@.own_pending is None
                    &&& may_go_on(old(self)@, old(self).id, *last)
                },
            },
    {
        let ghost s = self@;
        let mut out: Vec<Action> = Vec::new();
        proof {
            assert(actions_data(out@) =~= Seq::<ActionData>::empty());
        }
        let parents = match self.proposal_due(last) {
            Due::Nothing => {
                return Some(out);
            },
            Due::Resend => {
                match &self.own_pending_vertex {
                    Some(p) => {
                        let again = SimMessage::VertexProposal {
                            vertex: p.0.clone(),
                            author_signature: p.1.clone(),
                        };
                        send_to_all(&mut out, peers, peers.len(), &again);
                        proof {
                            assert(peers@.take(peers@.len() as int) =~= peers@);
                            assert(actions_data(out@) =~= to_all(peers@, again@));
                        }
                    },
                    None => {},
                }
                return Some(out);
            },
            Due::Fresh { parents } => parents,
        };
        proof {
            lemma_parents_fit(parents@, s);
        }
        let mut batch_digests: Vec<(u32, [u8; 32])> = Vec::new();
        batch_digests.push((0, [0u8; 32]));
        let vertex = Vertex {
            round: self.next_round,
            author: self.id,
            batch_digests,
            parents: crate::hash::copy_digests(&parents),
        };
        proof {
            assert(vertex@ =~= next_vertex(s, self.id, parents@, 0));
        }
        let signature = match keypair.sign(digest_of(&vertex).as_slice()) {
            Some(g) => g,
            None => {
                return None;
            },
        };
        let mut rival: Option<(Vertex, HybridSignature)> = None;
        if self.behavior == ByzantineBehavior::Equivocator && peers.len() > 0 {
            let mut other_digests: Vec<(u32, [u8; 32])> = Vec::new();
            other_digests.push((0, [1u8; 32]));
            let second = Vertex {
                round: self.next_round,
                author: self.id,
                batch_digests: other_digests,
                parents,
            };
            proof {
                assert(second@ =~= next_vertex(s, self.id, parents@, 1));
            }
            match keypair.sign(digest_of(&second).as_slice()) {
                Some(g) => {
                    rival = Some((second, g));
                },
                None => {
                    return None;
                },
            }
        }
        let ghost extra = second_vertex(rival);
        let ghost g = signature@;
        let out = self.adopt_proposal(vertex, signature, rival, set, peers);
        proof {
            assert(made_with(
                s,
                old(self).id,
                old(self).behavior,
                *keypair,
                *set,
                peers@,
                parents@,
                g,
                extra,
                (self@, actions_data(out@)),
            ));
        }
        Some(out)
    }
}

/// What a validator does of its own accord is to send messages whose vertices have digests.
pub proof fn lemma_own_accord_is_sent(
    s: SimState,
    id: Pubkey,
    behavior: ByzantineBehavior,
    keypair: Keypair,
    last: ValidatorSet,
    set: ValidatorSet,
    peers: Seq<Pubkey>,
    after: (SimState, Seq<ActionData>),
)
    requires
        went_on(s, id, behavior, keypair, last, set, peers, after),
        s.own_pending is Some ==> vertex_fits(s.own_pending->Some_0.0),
        s.dag.dom().finite(),
        s.dag.len() <= u32::MAX,
    ensures
        forall|k: int|
            0 <= k < after.1.len() ==> #[trigger] after.1[k] is Send && message_has_digest(
                after.1[k]->message,
            ),
{
    if !(behavior is Silent) && s.own_pending is None && may_go_on(s, id, last) {
        let (parents, signature, rival): (
            Seq<[u8; 32]>,
            SignatureData,
            Option<(VertexData, SignatureData)>,
        ) = choose|
            parents: Seq<[u8; 32]>,
            signature: SignatureData,
            rival: Option<(VertexData, SignatureData)>,
        | #[trigger]
            made_with(s, id, behavior, keypair, set, peers, parents, signature, rival, after);
        lemma_parents_fit(parents, s);
        assert(vertex_fits(next_vertex(s, id, parents, 0)));
        assert(vertex_fits(next_vertex(s, id, parents, 1)));
    }
}

proof fn lemma_parents_fit(parents: Seq<[u8; 32]>, s: SimState)
    requires
        are_parents(parents, s),
        s.dag.dom().finite(),
        s.dag.len() <= u32::MAX,
    ensures
        parents.len() <= u32::MAX,
{
    if s.next_round > 0 {
        assert(parents.no_duplicates()) by {
            assert forall|i: int, j: int|
                0 <= i < parents.len() && 0 <= j < parents.len() && i != j implies parents[i]
                != parents[j] by {
                if i < j {
                    assert(key_lt(parents[i], parents[j]));
                    crate::keymap::lemma_key_lt_asymmetric(parents[i], parents[j]);
                } else {
                    assert(key_lt(parents[j], parents[i]));
                    crate::keymap::lemma_key_lt_asymmetric(parents[j], parents[i]);
                }
            }
        }
        parents.unique_seq_to_set();
        assert(parents.to_set().subset_of(s.dag.dom())) by {
            assert forall|d: [u8; 32]| parents.to_set().contains(d) implies s.dag.dom().contains(
                d,
            ) by {
                assert(parents.contains(d));
            }
        }
        vstd::set_lib::lemma_len_subset(parents.to_set(), s.dag.dom());
    }
}

/// The round whose committee a message is judged under: that of the vertex or certificate in
/// it, and for a vote that of the vertex which waits for votes. Where there is none, no
/// committee is asked, and the next round stands in for it.
pub open spec fn judged_in(s: SimState, message: SimMessageData) -> u64 {
    match message {
        SimMessageData::VertexProposal { vertex, author_signature } => vertex.round,
        SimMessageData::CertificateBroadcast(c) => c.vertex.round,
        SimMessageData::CertificateResponse(c) => c.vertex.round,
        SimMessageData::Vote { vertex_digest, signature } => match s.own_pending {
            Some(p) => p.0.round,
            None => s.next_round,
        },
        SimMessageData::CertificateRequest { digest } => s.next_round,
    }
}

/// A message carries an action out: it is the one to be sent, or a vote for the digest that
/// was to be signed.
pub open spec fn carries_out(
    keypair: Keypair,
    action: ActionData,
    to: Pubkey,
    message: SimMessageData,
) -> bool {
    match action {
        ActionData::Send { to: wanted, message: m } => to == wanted && message == m,
        ActionData::Vote { to: wanted, digest } => {
            &&& to == wanted
            &&& message matches SimMessageData::Vote { vertex_digest, signature }
            &&& vertex_digest == digest
            &&& signs_digest(keypair, digest, signature)
        },
    }
}

/// The messages that carry the actions out, one for each, in their order. None where the
/// system has no random numbers to sign with.
pub fn perform(keypair: &Keypair, actions: Vec<Action>) -> (out: Option<
    Vec<(Pubkey, SimMessage)>,
>)
    requires
        keypair.wf(),
    ensures
        out is Some ==> out->0@.len() == actions@.len() && forall|i: int|
            0 <= i < actions@.len() ==> carries_out(
                *keypair,
                (#[trigger] actions@[i])@,
                out->Some_0@[i].0,
                out->Some_0@[i].1@,
            ),
        out is None ==> exists|i: int| 0 <= i < actions@.len() && (#[trigger] actions@[i])@ is Vote,
{
    let ghost all = actions@;
    let mut rest = actions;
    let mut out: Vec<(Pubkey, SimMessage)> = Vec::new();
    while rest.len() > 0
        invariant
            keypair.wf(),
            all == actions@,
            out@.len() + rest@.len() == all.len(),
            rest@ == all.skip(out@.len() as int),
            forall|i: int|
                0 <= i < out@.len() ==> carries_out(
                    *keypair,
                    (#[trigger] all[i])@,
                    out@[i].0,
                    out@[i].1@,
                ),
        decreases rest@.len(),
    {
        let ghost k = out@.len() as int;
        let action = rest.remove(0);
        proof {
            assert(action == all[k]);
            assert(rest@ =~= all.skip(k + 1));
        }
        match action {
            Action::Send { to, message } => {
                out.push((to, message));
            },
            Action::Vote { to, digest } => match keypair.sign(digest.as_slice()) {
                Some(signature) => {
                    out.push((to, SimMessage::Vote { vertex_digest: digest, signature }));
                },
                None => {
                    proof {
                        assert(all[k]@ is Vote);
                    }
                    return None;
                },
            },
        }
        proof {
            assert(carries_out(*keypair, all[k]@, out@[k].0, out@[k].1@));
        }
    }
    Some(out)
}

impl SimValidator {
    /// Takes a message in, and gives the messages that answer it. None where the system has
    /// no random numbers to sign a vote with.
    pub fn handle_message(
        &mut self,
        keypair: &Keypair,
        from: Pubkey,
        message: SimMessage,
        set: &ValidatorSet,
        peers: &Vec<Pubkey>,
        verified: bool,
    ) -> (out: Option<Vec<(Pubkey, SimMessage)>>)
        requires
            old(self).wf(),
            keypair.wf(),
            message_has_digest(message@),
        ensures
            final(self).wf(),
            final(self).id == old(self).id,
            final(self).behavior == old(self).behavior,
            ({
                let r = reaction(
                    old(self)@,
                    old(self).behavior,
                    from,
                    message@,
                    *set,
                    peers@,
                    verified,
                );
                &&& final(self)@ == r.0
                &&& out is Some ==> out->0@.len() == r.1.len() && forall|i: int|
                    0 <= i < r.1.len() ==> carries_out(
                        *keypair,
                        #[trigger] r.1[i],
                        out->Some_0@[i].0,
                        out->Some_0@[i].1@,
                    )
                &&& out is None ==> exists|i: int|
                    0 <= i < r.1.len() && (#[trigger] r.1[i]) is Vote
            }),
    {
        let actions = self.react(from, message, set, peers, verified);
        let ghost list = actions@;
        let out = perform(keypair, actions);
        proof {
            let r = actions_data(list);
            if out is Some {
                assert forall|i: int| 0 <= i < r.len() implies carries_out(
                    *keypair,
                    #[trigger] r[i],
                    out->Some_0@[i].0,
                    out->Some_0@[i].1@,
                ) by {
                    assert(r[i] == list[i]@);
                }
            } else {
                let i = choose|i: int| 0 <= i < list.len() && (#[trigger] list[i])@ is Vote;
                assert(r[i] is Vote);
            }
        }
        out
    }
}

} // verus!
