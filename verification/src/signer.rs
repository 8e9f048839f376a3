//! What a signer answers to each request.
use crate::codec::{le_bytes, le_encode};
use crate::hash::{digests_equal, sha3_256_digest};
use crate::keys::{
    address_of, ed25519_public, ed25519_signed, mldsa_signs, signature_good, BundleData, HybridSignature,
    Keypair, PublicKeyBundle,
};
use crate::pubkey::Pubkey;
use crate::signer_guard::{
    checkpoint_ruling, own_ruling, DoubleSignGuard, GuardRuling, GuardState, Verdict,
};
use crate::signer_policy::{RateLimiter, SignerPolicy};
use crate::text::{decimal, decimal_text, joined};
use crate::decode::decode_words;
use crate::vertex::{is_vertex, vertex_digest, vertex_fault, vertex_of, Vertex};
use vstd::prelude::*;

verus! {

/// What a node asks of its signer.
#[derive(Debug)]
pub enum SignerRequest {
    /// The public keys.
    GetBundle,
    /// A vote for the node's own vertex of a round.
    SignOwnVote { round: u64, digest: [u8; 32] },
    /// A vote for another validator's vertex, whose bytes are given.
    SignPeerVote { vertex_bytes: Vec<u8>, digest: [u8; 32] },
    /// A signature of the transcript of a network handshake.
    SignNetworkHandshake { transcript: Vec<u8> },
    /// A signature of a checkpoint of the state.
    SignCheckpoint { chain_id: [u8; 32], round: u64, merkle_root: [u8; 32] },
    /// A signature that lends the validator's name to a network key.
    SignNetworkKeyCert { chain_id: [u8; 32], validator_id: [u8; 32], network_addr: [u8; 32] },
}

/// What a signer replies.
#[derive(Debug)]
pub enum SignerResponse {
    Bundle(PublicKeyBundle),
    Signature(HybridSignature),
    /// The signer did not sign, and why.
    Refused(String),
}

/// The words that stand before the different things a validator's key signs, so that no
/// signature of one thing passes for a signature of another.
pub struct Domains {
    pub vertex_vote: Vec<u8>,
    pub p2p_auth: Vec<u8>,
    pub state_checkpoint: Vec<u8>,
    pub network_key_cert: Vec<u8>,
}

/// `s` begins with `prefix`.
pub open spec fn starts_with(s: Seq<u8>, prefix: Seq<u8>) -> bool {
    prefix.len() <= s.len() && s.take(prefix.len() as int) == prefix
}

fn bytes_start_with(s: &[u8], prefix: &[u8]) -> (yes: bool)
    ensures
        yes == starts_with(s@, prefix@),
{
    if s.len() < prefix.len() {
        return false;
    }
    let mut i: usize = 0;
    while i < prefix.len()
        invariant
            i <= prefix@.len() <= s@.len(),
            forall|j: int| 0 <= j < i ==> s@[j] == prefix@[j],
        decreases prefix@.len() - i,
    {
        if s[i] != prefix[i] {
            proof {
                assert(s@.take(prefix@.len() as int)[i as int] == s@[i as int]);
            }
            return false;
        }
        i += 1;
    }
    proof {
        assert(s@.take(prefix@.len() as int) =~= prefix@);
    }
    true
}

/// What is to be done about a request.
pub ghost enum Ruling {
    Bundle,
    Refuse(Seq<char>),
    /// These bytes are to be signed, and this is to be remembered before.
    Sign { bytes: Seq<u8>, remember: Option<GuardState> },
}

/// A ruling of the guard on the bytes to be signed.
pub open spec fn guarded(ruling: GuardRuling, bytes: Seq<u8>) -> Ruling {
    match ruling {
        GuardRuling::Refuse(reason) => Ruling::Refuse(reason),
        GuardRuling::Repeat => Ruling::Sign { bytes, remember: None },
        GuardRuling::Record(next) => Ruling::Sign { bytes, remember: Some(next) },
    }
}

/// The bytes that a vote signs.
pub open spec fn vote_bytes(d: Domains, digest: [u8; 32]) -> Seq<u8> {
    d.vertex_vote@ + digest@
}

/// The bytes that a checkpoint signs.
pub open spec fn checkpoint_bytes(
    d: Domains,
    chain_id: [u8; 32],
    round: u64,
    merkle_root: [u8; 32],
) -> Seq<u8> {
    d.state_checkpoint@ + chain_id@ + le_bytes(round as nat, 8) + merkle_root@
}

/// The bytes that a certificate of a network key signs.
pub open spec fn cert_bytes(
    d: Domains,
    chain_id: [u8; 32],
    validator_id: [u8; 32],
    network_addr: [u8; 32],
) -> Seq<u8> {
    d.network_key_cert@ + chain_id@ + validator_id@ + network_addr@
}

/// What is to be done about a request: own votes and checkpoints go by the guard's memory,
/// a vote for a peer's vertex by what its bytes say, and a transcript by how it begins.
pub open spec fn ruling_on(
    request: SignerRequest,
    own: Pubkey,
    state: Option<GuardState>,
    d: Domains,
) -> Ruling {
    match request {
        SignerRequest::GetBundle => Ruling::Bundle,
        SignerRequest::SignOwnVote { round, digest } => guarded(
            own_ruling(state, round, digest),
            vote_bytes(d, digest),
        ),
        SignerRequest::SignPeerVote { vertex_bytes, digest } => {
            let v = vertex_of(vertex_bytes@);
            if !is_vertex(vertex_bytes@) {
                Ruling::Refuse(
                    "refusing SignPeerVote: malformed vertex bytes: "@ + decode_words(
                        vertex_fault(vertex_bytes@),
                    ),
                )
            } else if vertex_digest(v) != digest {
                Ruling::Refuse(
                    "refusing SignPeerVote: the vertex digest does not match the requested digest (a peer-vote must attest the given vertex, not an arbitrary digest)"@,
                )
            } else if v.author == own {
                Ruling::Refuse(
                    "DOUBLE-SIGN BLOCKED: refusing to peer-sign OUR OWN vertex — an own-authored vertex must be signed via SignOwnVote (double-sign guarded)"@,
                )
            } else {
                Ruling::Sign { bytes: vote_bytes(d, digest), remember: None }
            }
        },
        SignerRequest::SignNetworkHandshake { transcript } => if starts_with(
            transcript@,
            d.p2p_auth@,
        ) {
            Ruling::Sign { bytes: transcript@, remember: None }
        } else {
            Ruling::Refuse(
                "refusing SignNetworkHandshake: only a P2P_AUTH_V1-domained handshake transcript is signable; the consensus signer never signs value/other objects"@,
            )
        },
        SignerRequest::SignCheckpoint { chain_id, round, merkle_root } => guarded(
            checkpoint_ruling(state, round, merkle_root),
            checkpoint_bytes(d, chain_id, round, merkle_root),
        ),
        SignerRequest::SignNetworkKeyCert { chain_id, validator_id, network_addr } => Ruling::Sign {
            bytes: cert_bytes(d, chain_id, validator_id, network_addr),
            remember: None,
        },
    }
}

/// A ruling that can be acted on.
pub enum Order {
    Bundle,
    Refuse(String),
    Sign { bytes: Vec<u8>, remember: Option<GuardState> },
}

impl View for Order {
    type V = Ruling;

    open spec fn view(&self) -> Ruling {
        match self {
            Order::Bundle => Ruling::Bundle,
            Order::Refuse(reason) => Ruling::Refuse(reason@),
            Order::Sign { bytes, remember } => Ruling::Sign { bytes: bytes@, remember: *remember },
        }
    }
}

fn order_of(verdict: Verdict, bytes: Vec<u8>) -> (order: Order)
    ensures
        order@ == guarded(verdict@, bytes@),
{
    match verdict {
        Verdict::Refuse(reason) => Order::Refuse(reason),
        Verdict::Repeat => Order::Sign { bytes, remember: None },
        Verdict::Record(next) => Order::Sign { bytes, remember: Some(next) },
    }
}

fn vote(d: &Domains, digest: &[u8; 32]) -> (bytes: Vec<u8>)
    ensures
        bytes@ == vote_bytes(*d, *digest),
{
    let mut out: Vec<u8> = Vec::new();
    out.extend_from_slice(d.vertex_vote.as_slice());
    out.extend_from_slice(digest.as_slice());
    proof {
        assert(out@ =~= vote_bytes(*d, *digest));
    }
    out
}

/// What is to be done about a request.
pub fn decide(
    request: &SignerRequest,
    own: &Pubkey,
    guard: &DoubleSignGuard,
    d: &Domains,
) -> (order: Order)
    ensures
        order@ == ruling_on(*request, *own, guard@, *d),
{
    match request {
        SignerRequest::GetBundle => Order::Bundle,
        SignerRequest::SignOwnVote { round, digest } => order_of(
            guard.own_verdict(*round, digest),
            vote(d, digest),
        ),
        SignerRequest::SignPeerVote { vertex_bytes, digest } => match Vertex::decode(
            vertex_bytes.as_slice(),
        ) {
            Err(e) => Order::Refuse(
                joined("refusing SignPeerVote: malformed vertex bytes: ", e.message().as_str()),
            ),
            Ok(v) => {
                let named = sha3_256_digest(vertex_bytes.as_slice());
                if !digests_equal(&named, digest) {
                    Order::Refuse(
                        "refusing SignPeerVote: the vertex digest does not match the requested digest (a peer-vote must attest the given vertex, not an arbitrary digest)".to_owned(),
                    )
                } else if v.author.same_as(own) {
                    Order::Refuse(
                        "DOUBLE-SIGN BLOCKED: refusing to peer-sign OUR OWN vertex — an own-authored vertex must be signed via SignOwnVote (double-sign guarded)".to_owned(),
                    )
                } else {
                    Order::Sign { bytes: vote(d, digest), remember: None }
                }
            },
        },
        SignerRequest::SignNetworkHandshake { transcript } => {
            if bytes_start_with(transcript.as_slice(), d.p2p_auth.as_slice()) {
                let mut bytes: Vec<u8> = Vec::new();
                bytes.extend_from_slice(transcript.as_slice());
                proof {
                    assert(bytes@ =~= transcript@);
                }
                Order::Sign { bytes, remember: None }
            } else {
                Order::Refuse(
                    "refusing SignNetworkHandshake: only a P2P_AUTH_V1-domained handshake transcript is signable; the consensus signer never signs value/other objects".to_owned(),
                )
            }
        },
        SignerRequest::SignCheckpoint { chain_id, round, merkle_root } => {
            let mut bytes: Vec<u8> = Vec::new();
            bytes.extend_from_slice(d.state_checkpoint.as_slice());
            bytes.extend_from_slice(chain_id.as_slice());
            let mut number: Vec<u8> = le_encode(*round, 8);
            bytes.append(&mut number);
            bytes.extend_from_slice(merkle_root.as_slice());
            proof {
                assert(bytes@ =~= checkpoint_bytes(*d, *chain_id, *round, *merkle_root));
            }
            order_of(guard.checkpoint_verdict(*round, merkle_root), bytes)
        },
        SignerRequest::SignNetworkKeyCert { chain_id, validator_id, network_addr } => {
            let mut bytes: Vec<u8> = Vec::new();
            bytes.extend_from_slice(d.network_key_cert.as_slice());
            bytes.extend_from_slice(chain_id.as_slice());
            bytes.extend_from_slice(validator_id.as_slice());
            bytes.extend_from_slice(network_addr.as_slice());
            proof {
                assert(bytes@ =~= cert_bytes(*d, *chain_id, *validator_id, *network_addr));
            }
            Order::Sign { bytes, remember: None }
        },
    }
}

/// The address of a keypair.
pub open spec fn address(keypair: Keypair) -> Pubkey {
    Pubkey(
        address_of(ed25519_public(keypair.ed25519_secret()), keypair.mldsa_public_bytes()),
    )
}

/// Why a request is refused before anything is signed: the ruling says so, or what had to
/// be remembered could not be made durable.
pub open spec fn refusal(ruling: Ruling, persisted: Result<(), String>) -> Option<Seq<char>> {
    match ruling {
        Ruling::Bundle => None,
        Ruling::Refuse(reason) => Some(reason),
        Ruling::Sign { bytes, remember } => match (remember, persisted) {
            (Some(_), Err(e)) => Some("cannot persist double-sign guard: "@ + e@),
            _ => None,
        },
    }
}

/// What is remembered after a ruling.
pub open spec fn remembered(
    state: Option<GuardState>,
    ruling: Ruling,
    persisted: Result<(), String>,
) -> Option<GuardState> {
    match ruling {
        Ruling::Sign { bytes, remember } => match (remember, persisted) {
            (Some(next), Ok(_)) => Some(next),
            _ => state,
        },
        _ => state,
    }
}

/// `response` answers a ruling: the public keys, or the refusal, or a signature of exactly
/// the bytes of the ruling. Where the system has no random numbers a signature that is
/// owed is refused too.
pub open spec fn answers(
    response: SignerResponse,
    ruling: Ruling,
    persisted: Result<(), String>,
    keypair: Keypair,
) -> bool {
    match response {
        SignerResponse::Bundle(b) => ruling is Bundle && b.ed25519 == ed25519_public(
            keypair.ed25519_secret(),
        ) && b.mldsa@ == keypair.mldsa_public_bytes(),
        SignerResponse::Refused(text) => match refusal(ruling, persisted) {
            Some(reason) => text@ == reason,
            None => ruling is Sign && text@ == "sign error: randomness unavailable"@,
        },
        SignerResponse::Signature(s) => {
            &&& ruling is Sign
            &&& refusal(ruling, persisted) is None
            &&& s.ed25519.0 == ed25519_signed(keypair.ed25519_secret(), ruling->bytes)
            &&& mldsa_signs(keypair.mldsa_secret(), ruling->bytes, s.mldsa@)
            &&& keypair.honest() ==> signature_good(
                ed25519_public(keypair.ed25519_secret()),
                keypair.mldsa_public_bytes(),
                ruling->bytes,
                s.ed25519.0,
                s.mldsa@,
            )
        },
    }
}

/// The reply to a request. What `decide` wants remembered is made durable before, and
/// `persisted` says how that went; only then is it remembered and signed.
pub fn respond(
    request: &SignerRequest,
    keypair: &Keypair,
    guard: &mut DoubleSignGuard,
    persisted: Result<(), String>,
    d: &Domains,
) -> (response: SignerResponse)
    requires
        keypair.wf(),
    ensures
        answers(
            response,
            ruling_on(*request, address(*keypair), old(guard)@, *d),
            persisted,
            *keypair,
        ),
        final(guard)@ == remembered(
            old(guard)@,
            ruling_on(*request, address(*keypair), old(guard)@, *d),
            persisted,
        ),
{
    let own = keypair.pubkey();
    let order = decide(request, &own, guard, d);
    carry_out(order, keypair, guard, persisted)
}

/// The reply to a request about which this is to be done. What is to be remembered was made
/// durable before, and `persisted` says how that went; only then is it remembered and
/// signed.
pub fn carry_out(
    order: Order,
    keypair: &Keypair,
    guard: &mut DoubleSignGuard,
    persisted: Result<(), String>,
) -> (response: SignerResponse)
    requires
        keypair.wf(),
    ensures
        answers(response, order@, persisted, *keypair),
        final(guard)@ == remembered(old(guard)@, order@, persisted),
{
    match order {
        Order::Bundle => SignerResponse::Bundle(keypair.public_key_bundle()),
        Order::Refuse(reason) => SignerResponse::Refused(reason),
        Order::Sign { bytes, remember } => {
            if let Some(next) = remember {
                match persisted {
                    Err(e) => {
                        return SignerResponse::Refused(
                            joined("cannot persist double-sign guard: ", e.as_str()),
                        );
                    },
                    Ok(_) => {
                        guard.remember(next);
                    },
                }
            }
            match keypair.sign(bytes.as_slice()) {
                Some(s) => SignerResponse::Signature(s),
                None => SignerResponse::Refused("sign error: randomness unavailable".to_owned()),
            }
        },
    }
}

/// The chain that a request names, where it names one.
pub open spec fn named_chain(request: SignerRequest) -> Option<[u8; 32]> {
    match request {
        SignerRequest::SignCheckpoint { chain_id, round, merkle_root } => Some(chain_id),
        SignerRequest::SignNetworkKeyCert { chain_id, validator_id, network_addr } => Some(chain_id),
        _ => None,
    }
}

/// Why the policy refuses a request: it comes too soon after the others, or it names
/// another chain. Asking for the public keys is never too soon.
pub open spec fn policy_refusal(
    request: SignerRequest,
    policy: SignerPolicy,
    admitted: bool,
) -> Option<Seq<char>> {
    if !(request is GetBundle) && !admitted {
        Some("rate limit exceeded: too many sign requests in the window"@)
    } else if policy.expected_chain_id is Some && named_chain(request) is Some
        && named_chain(request) != policy.expected_chain_id {
        Some(
            "refusing to sign: request names a chain_id different from this signer's configured network"@,
        )
    } else {
        None
    }
}

/// Whether a request passes the policy at the time `now`. Every request but one for the
/// public keys counts, whatever becomes of it.
pub fn check_policy(
    request: &SignerRequest,
    policy: &SignerPolicy,
    limiter: &mut RateLimiter,
    now: u64,
) -> (refused: Option<String>)
    requires
        old(limiter).wf(),
    ensures
        final(limiter).wf(),
        final(limiter).limited() == old(limiter).limited(),
        ({
            let step = match old(limiter).limited() {
                None => (old(limiter)@, true),
                Some(l) => crate::signer_policy::admission(l, old(limiter)@, now),
            };
            &&& final(limiter)@ == if request is GetBundle {
                old(limiter)@
            } else {
                step.0
            }
            &&& match refused {
                Some(text) => policy_refusal(*request, *policy, step.1) == Some(text@),
                None => policy_refusal(*request, *policy, step.1) is None,
            }
        }),
{
    let counts: bool = match request {
        SignerRequest::GetBundle => false,
        _ => true,
    };
    if counts {
        if !limiter.allow_at(now) {
            return Some("rate limit exceeded: too many sign requests in the window".to_owned());
        }
    }
    if let Some(expected) = policy.expected_chain_id {
        let named: Option<[u8; 32]> = match request {
            SignerRequest::SignCheckpoint { chain_id, round, merkle_root } => Some(*chain_id),
            SignerRequest::SignNetworkKeyCert { chain_id, validator_id, network_addr } => Some(
                *chain_id,
            ),
            _ => None,
        };
        if let Some(chain_id) = named {
            if !digests_equal(&chain_id, &expected) {
                return Some(
                    "refusing to sign: request names a chain_id different from this signer's configured network".to_owned(),
                );
            }
        }
    }
    None
}

/// What is to be done about a request under a policy, at the time `now`. What the policy
/// refuses is refused before the guard is asked.
pub fn decide_with_policy(
    request: &SignerRequest,
    keypair: &Keypair,
    guard: &DoubleSignGuard,
    policy: &SignerPolicy,
    limiter: &mut RateLimiter,
    now: u64,
    d: &Domains,
) -> (order: Order)
    requires
        old(limiter).wf(),
    ensures
        final(limiter).wf(),
        final(limiter).limited() == old(limiter).limited(),
        ({
            let step = match old(limiter).limited() {
                None => (old(limiter)@, true),
                Some(l) => crate::signer_policy::admission(l, old(limiter)@, now),
            };
            &&& final(limiter)@ == if request is GetBundle {
                old(limiter)@
            } else {
                step.0
            }
            &&& order@ == match policy_refusal(*request, *policy, step.1) {
                Some(reason) => Ruling::Refuse(reason),
                None => ruling_on(*request, address(*keypair), guard@, *d),
            }
        }),
{
    match check_policy(request, policy, limiter, now) {
        Some(reason) => Order::Refuse(reason),
        None => {
            let own = keypair.pubkey();
            decide(request, &own, guard, d)
        },
    }
}

/// The reply to a request under a policy, at the time `now`. A request that the policy
/// refuses leaves the guard as it was.
pub fn respond_with_policy(
    request: &SignerRequest,
    keypair: &Keypair,
    guard: &mut DoubleSignGuard,
    policy: &SignerPolicy,
    limiter: &mut RateLimiter,
    now: u64,
    persisted: Result<(), String>,
    d: &Domains,
) -> (response: SignerResponse)
    requires
        keypair.wf(),
        old(limiter).wf(),
    ensures
        final(limiter).wf(),
        final(limiter).limited() == old(limiter).limited(),
        ({
            let step = match old(limiter).limited() {
                None => (old(limiter)@, true),
                Some(l) => crate::signer_policy::admission(l, old(limiter)@, now),
            };
            let ruling = ruling_on(*request, address(*keypair), old(guard)@, *d);
            &&& final(limiter)@ == if request is GetBundle {
                old(limiter)@
            } else {
                step.0
            }
            &&& match policy_refusal(*request, *policy, step.1) {
                Some(reason) => {
                    &&& response matches SignerResponse::Refused(text)
                    &&& text@ == reason
                    &&& final(guard)@ == old(guard)@
                },
                None => {
                    &&& answers(response, ruling, persisted, *keypair)
                    &&& final(guard)@ == remembered(old(guard)@, ruling, persisted)
                },
            }
        }),
{
    let order = decide_with_policy(request, keypair, guard, policy, limiter, now, d);
    carry_out(order, keypair, guard, persisted)
}

/// Whatever is asked, the bytes that get signed begin with one of the four domains. So
/// where no domain and `other` begin alike, nothing is ever signed that begins with
/// `other`: a signer of votes signs no transfers.
pub proof fn law_only_its_domains_are_signed(
    request: SignerRequest,
    own: Pubkey,
    state: Option<GuardState>,
    d: Domains,
    other: Seq<u8>,
)
    requires
        ruling_on(request, own, state, d) is Sign,
        !starts_with(d.vertex_vote@, other) && !starts_with(other, d.vertex_vote@),
        !starts_with(d.p2p_auth@, other) && !starts_with(other, d.p2p_auth@),
        !starts_with(d.state_checkpoint@, other) && !starts_with(other, d.state_checkpoint@),
        !starts_with(d.network_key_cert@, other) && !starts_with(other, d.network_key_cert@),
    ensures
        !starts_with(ruling_on(request, own, state, d)->bytes, other),
{
    let bytes = ruling_on(request, own, state, d)->bytes;
    let domain = match request {
        SignerRequest::SignNetworkHandshake { transcript } => d.p2p_auth@,
        SignerRequest::SignCheckpoint { chain_id, round, merkle_root } => d.state_checkpoint@,
        SignerRequest::SignNetworkKeyCert { chain_id, validator_id, network_addr } =>
            d.network_key_cert@,
        _ => d.vertex_vote@,
    };
    assert(starts_with(bytes, domain)) by {
        assert(bytes.take(domain.len() as int) =~= domain);
    }
    if starts_with(bytes, other) {
        if other.len() <= domain.len() {
            assert(domain.take(other.len() as int) =~= bytes.take(other.len() as int));
        } else {
            assert(other.take(domain.len() as int) =~= bytes.take(domain.len() as int));
        }
    }
}

/// A vote for a peer's vertex never signs a vertex of the signer's own, so an own vertex
/// is signed only through the guard.
pub proof fn law_own_vertex_only_through_the_guard(
    vertex_bytes: Vec<u8>,
    digest: [u8; 32],
    own: Pubkey,
    state: Option<GuardState>,
    d: Domains,
)
    requires
        is_vertex(vertex_bytes@),
        vertex_of(vertex_bytes@).author == own,
    ensures
        ruling_on(SignerRequest::SignPeerVote { vertex_bytes, digest }, own, state, d) is Refuse,
{
}

/// Under a permissive policy a request is answered as without one.
pub proof fn law_permissive_policy_refuses_nothing(request: SignerRequest, policy: SignerPolicy)
    requires
        policy.expected_chain_id is None,
    ensures
        policy_refusal(request, policy, true) is None,
{
}

/// Bytes as a list of numbers.
pub open spec fn listed(bytes: Seq<u8>) -> Seq<char>
    decreases bytes.len(),
{
    if bytes.len() == 0 {
        Seq::empty()
    } else if bytes.len() == 1 {
        decimal(bytes[0] as nat)
    } else {
        listed(bytes.drop_last()) + ", "@ + decimal(bytes.last() as nat)
    }
}

fn list(bytes: &[u8]) -> (text: String)
    ensures
        text@ == listed(bytes@),
{
    let mut text: String = String::new();
    let mut i: usize = 0;
    proof {
        assert(bytes@.take(0) =~= Seq::empty());
        assert(text@ =~= Seq::empty());
    }
    while i < bytes.len()
        invariant
            i <= bytes@.len(),
            text@ == listed(bytes@.take(i as int)),
        decreases bytes@.len() - i,
    {
        let word = decimal_text(bytes[i] as u64);
        text = if i == 0 {
            word
        } else {
            let before = joined(text.as_str(), ", ");
            joined(before.as_str(), word.as_str())
        };
        proof {
            let t = bytes@.take(i + 1);
            assert(t.drop_last() =~= bytes@.take(i as int));
            assert(t.last() == bytes@[i as int]);
        }
        i += 1;
    }
    proof {
        assert(bytes@.take(bytes@.len() as int) =~= bytes@);
    }
    text
}

/// A reply with public keys, in words.
pub open spec fn bundle_words(b: BundleData) -> Seq<char> {
    "Bundle(PublicKeyBundle { ed25519: ["@ + listed(b.ed25519@) + "], mldsa: ["@ + listed(b.mldsa)
        + "] })"@
}

fn describe_bundle(b: &PublicKeyBundle) -> (text: String)
    ensures
        text@ == bundle_words(b@),
{
    let first = joined("Bundle(PublicKeyBundle { ed25519: [", list(b.ed25519.as_slice()).as_str());
    let middle = joined(first.as_str(), "], mldsa: [");
    let second = joined(middle.as_str(), list(b.mldsa.as_slice()).as_str());
    joined(second.as_str(), "] })")
}

/// Why a reply holds no signature.
#[derive(Debug)]
pub enum NoSignature {
    /// The signer refused, and said this.
    Refused(String),
    /// The reply holds these public keys in place of a signature.
    Unexpected(PublicKeyBundle),
}

impl NoSignature {
    /// What is said about the error.
    pub open spec fn said(&self) -> Seq<char> {
        match self {
            NoSignature::Refused(m) => "remote signer refused: "@ + m@,
            NoSignature::Unexpected(b) => "remote signer returned an unexpected response: "@
                + bundle_words(b@),
        }
    }

    /// The error in words.
    pub fn message(&self) -> (text: String)
        ensures
            text@ == self.said(),
    {
        match self {
            NoSignature::Refused(m) => joined("remote signer refused: ", m.as_str()),
            NoSignature::Unexpected(b) => {
                let keys = describe_bundle(b);
                joined("remote signer returned an unexpected response: ", keys.as_str())
            },
        }
    }
}

/// The signature in a reply.
pub fn signature_from(reply: SignerResponse) -> (signature: Result<HybridSignature, NoSignature>)
    ensures
        signature == match reply {
            SignerResponse::Signature(s) => Ok::<HybridSignature, NoSignature>(s),
            SignerResponse::Refused(m) => Err::<HybridSignature, NoSignature>(
                NoSignature::Refused(m),
            ),
            SignerResponse::Bundle(b) => Err::<HybridSignature, NoSignature>(
                NoSignature::Unexpected(b),
            ),
        },
{
    match reply {
        SignerResponse::Signature(s) => Ok(s),
        SignerResponse::Refused(m) => Err(NoSignature::Refused(m)),
        SignerResponse::Bundle(b) => Err(NoSignature::Unexpected(b)),
    }
}

/// How far a request to the signer has come: how often it was tried, and whether there is
/// a connection.
#[derive(Clone, Copy, Debug, PartialEq, Eq)]
pub struct Progress {
    pub failed: u8,
    pub connected: bool,
}

/// What is done next.
#[derive(Clone, Copy, Debug, PartialEq, Eq)]
pub enum NextStep {
    /// A connection is opened.
    Dial,
    /// The request is sent over the connection, and the reply read.
    Exchange,
    /// The last failure is reported.
    GiveUp,
}

impl Progress {
    /// What is done next: a request is tried twice, and a connection is opened where there
    /// is none.
    pub open spec fn then_do(&self) -> NextStep {
        if self.failed >= 2 {
            NextStep::GiveUp
        } else if self.connected {
            NextStep::Exchange
        } else {
            NextStep::Dial
        }
    }

    /// Nothing was tried yet.
    pub fn start(connected: bool) -> (progress: Self)
        ensures
            progress == (Progress { failed: 0, connected }),
    {
        Progress { failed: 0, connected }
    }

    /// What is done next.
    pub fn next_step(&self) -> (step: NextStep)
        ensures
            step == self.then_do(),
    {
        if self.failed >= 2 {
            NextStep::GiveUp
        } else if self.connected {
            NextStep::Exchange
        } else {
            NextStep::Dial
        }
    }

    /// The connection was opened.
    pub fn dialed(&self) -> (progress: Self)
        ensures
            progress == (Progress { failed: self.failed, connected: true }),
    {
        Progress { failed: self.failed, connected: true }
    }

    /// The exchange failed: the connection is thrown away.
    pub fn exchange_failed(&self) -> (progress: Self)
        requires
            self.failed < 2,
        ensures
            progress == (Progress { failed: (self.failed + 1) as u8, connected: false }),
    {
        Progress { failed: self.failed + 1, connected: false }
    }
}

/// After a failed exchange nothing is sent over the old connection: the request goes out
/// once more over a new one, or not at all.
pub proof fn law_failed_connection_is_not_used_again(before: Progress)
    requires
        before.then_do() == NextStep::Exchange,
    ensures
        ({
            let after = Progress { failed: (before.failed + 1) as u8, connected: false };
            after.then_do() == if before.failed == 0 {
                NextStep::Dial
            } else {
                NextStep::GiveUp
            }
        }),
{
}

} // verus!
