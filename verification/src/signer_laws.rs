//! What a signer signs, what it refuses and why, and what goes over the wire to it.
use crate::codec::le_bytes;
use crate::decode::{decode_words, DecodeError};
use crate::hash::{sha256, sha3_256};
use crate::keys::{ed25519_public, ed25519_signed, mldsa_signs, BundleData, Keypair};
use crate::layout_laws::number_at;
use crate::pubkey::Pubkey;
use crate::signer::{
    address, answers, bundle_words, listed, policy_refusal, refusal, remembered, ruling_on, Domains,
    NoSignature, Progress, Ruling, SignerRequest, SignerResponse,
};
use crate::signer_guard::{
    checkpoint_ruling, guard_after, guard_refusal, own_ruling, GuardRuling, GuardState,
};
use crate::signer_handshake::{
    answers_challenge, challenge_bytes, challenge_fault, endpoint_path, honest_answer, opened,
    response_fault, trimmed_back, trimmed_front, AuthChallenge, DialError, Dialed, HexError,
};
use crate::signer_policy::{admission, elapsed, pruned, RateLimit, SignerPolicy};
use crate::signer_wire::{
    carried, delivered, first_frame, keyed_input, mac_of, out_of_numbers, FrameError, Session,
};
use crate::text::decimal;
use crate::vertex::{is_vertex, vertex_digest, vertex_fault, vertex_of};
use vstd::prelude::*;
use vstd::string::*;

verus! {

/// The own vertices that were signed end with this one.
pub open spec fn last_own(state: Option<GuardState>, round: u64, digest: [u8; 32]) -> bool {
    state matches Some(s) && s.own_seen && s.last_own_round == round && s.last_own_digest == digest
}

/// An own vertex is refused exactly where one of a later round was signed, or another one of the
/// same round. The one that was signed last may be signed again. Any other is signed once it is
/// remembered, as the last one, with what is remembered of checkpoints left alone.
pub proof fn law_own_vertices_go_forward(state: Option<GuardState>, round: u64, digest: [u8; 32])
    ensures
        ({
            let r = own_ruling(state, round, digest);
            let later = state is Some && state->0.own_seen && state->0.last_own_round > round;
            let rival = state is Some && state->0.own_seen && state->0.last_own_round == round
                && state->0.last_own_digest != digest;
            &&& r is Refuse <==> later || rival
            &&& r is Repeat <==> last_own(state, round, digest)
            &&& later ==> r->Refuse_0 == "refusing to sign own vertex for round "@ + decimal(
                round as nat,
            ) + ": already signed a higher round "@ + decimal(state->0.last_own_round as nat)
            &&& rival ==> r->Refuse_0
                == "DOUBLE-SIGN BLOCKED: already signed a DIFFERENT own vertex for round "@
                + decimal(round as nat)
            &&& r matches GuardRuling::Record(next) ==> {
                &&& last_own(Some(next), round, digest)
                &&& state matches Some(s) ==> {
                    &&& next.last_checkpoint_round == s.last_checkpoint_round
                    &&& next.last_checkpoint_root == s.last_checkpoint_root
                    &&& next.checkpoint_seen == s.checkpoint_seen
                }
                &&& state is None ==> !next.checkpoint_seen && next.last_checkpoint_round == 0
                    && forall|i: int| 0 <= i < 32 ==> #[trigger] next.last_checkpoint_root@[i] == 0
            }
        }),
{
}

/// Checkpoints go by the same rule, with their roots.
pub proof fn law_checkpoints_go_forward(state: Option<GuardState>, round: u64, root: [u8; 32])
    ensures
        ({
            let r = checkpoint_ruling(state, round, root);
            let seen = state is Some && state->0.checkpoint_seen;
            let later = seen && state->0.last_checkpoint_round > round;
            let same = seen && state->0.last_checkpoint_round == round;
            let rival = same && state->0.last_checkpoint_root != root;
            &&& r is Refuse <==> later || rival
            &&& r is Repeat <==> same && state->0.last_checkpoint_root == root
            &&& later ==> r->Refuse_0 == "refusing to sign checkpoint for round "@ + decimal(
                round as nat,
            ) + ": already signed a higher checkpoint round "@ + decimal(
                state->0.last_checkpoint_round as nat,
            )
            &&& rival ==> r->Refuse_0
                == "STATE-EQUIVOCATION BLOCKED: already signed a DIFFERENT state root for checkpoint round "@
                + decimal(round as nat)
            &&& r matches GuardRuling::Record(next) ==> {
                &&& next.checkpoint_seen && next.last_checkpoint_round == round
                    && next.last_checkpoint_root == root
                &&& state matches Some(s) ==> {
                    &&& next.last_own_round == s.last_own_round
                    &&& next.last_own_digest == s.last_own_digest
                    &&& next.own_seen == s.own_seen
                }
                &&& state is None ==> !next.own_seen && next.last_own_round == 0 && forall|i: int|
                    0 <= i < 32 ==> #[trigger] next.last_own_digest@[i] == 0
            }
        }),
{
}

/// What is to be remembered is, exactly where it could be written down, and where it could not
/// nothing is signed for it.
pub proof fn law_nothing_is_signed_that_is_not_remembered(
    state: Option<GuardState>,
    ruling: GuardRuling,
    order: Ruling,
    persisted: Result<(), String>,
)
    ensures
        guard_after(state, ruling, true) == match ruling {
            GuardRuling::Record(next) => Some(next),
            _ => state,
        },
        guard_after(state, ruling, false) == state,
        guard_refusal(ruling, persisted) is None <==> ruling is Repeat || (ruling is Record
            && persisted is Ok),
        ruling matches GuardRuling::Refuse(reason) ==> guard_refusal(ruling, persisted) == Some(
            reason,
        ),
        ruling is Record ==> (persisted matches Err(e) ==> guard_refusal(ruling, persisted) == Some(
            "cannot persist double-sign guard: "@ + e@,
        )),
        order matches Ruling::Refuse(reason) ==> refusal(order, persisted) == Some(reason)
            && remembered(state, order, persisted) == state,
        order is Bundle ==> refusal(order, persisted) is None && remembered(
            state,
            order,
            persisted,
        ) == state,
        order matches Ruling::Sign { bytes, remember: None } ==> refusal(order, persisted) is None
            && remembered(state, order, persisted) == state,
        order matches Ruling::Sign { bytes, remember: Some(next) } ==> match persisted {
            Ok(_) => refusal(order, persisted) is None && remembered(state, order, persisted)
                == Some(next),
            Err(e) => refusal(order, persisted) == Some("cannot persist double-sign guard: "@ + e@)
                && remembered(state, order, persisted) == state,
        },
{
}

/// A vote for an own vertex or a checkpoint is signed exactly where the guard does not refuse
/// it, over the domain and what it is for: the digest; or the chain, the round in eight bytes
/// and the root.
pub proof fn law_guarded_requests(
    own: Pubkey,
    state: Option<GuardState>,
    d: Domains,
    round: u64,
    digest: [u8; 32],
    chain_id: [u8; 32],
)
    ensures
        match own_ruling(state, round, digest) {
            GuardRuling::Refuse(reason) => ruling_on(
                SignerRequest::SignOwnVote { round, digest },
                own,
                state,
                d,
            ) == Ruling::Refuse(reason),
            other => ruling_on(SignerRequest::SignOwnVote { round, digest }, own, state, d)
                == (Ruling::Sign {
                bytes: d.vertex_vote@ + digest@,
                remember: match other {
                    GuardRuling::Record(next) => Some(next),
                    _ => None,
                },
            }),
        },
        match checkpoint_ruling(state, round, digest) {
            GuardRuling::Refuse(reason) => ruling_on(
                SignerRequest::SignCheckpoint { chain_id, round, merkle_root: digest },
                own,
                state,
                d,
            ) == Ruling::Refuse(reason),
            other => ruling_on(
                SignerRequest::SignCheckpoint { chain_id, round, merkle_root: digest },
                own,
                state,
                d,
            ) == (Ruling::Sign {
                bytes: d.state_checkpoint@ + chain_id@ + le_bytes(round as nat, 8) + digest@,
                remember: match other {
                    GuardRuling::Record(next) => Some(next),
                    _ => None,
                },
            }),
        },
{
}

/// A vote for a peer's vertex is signed exactly where the bytes are a vertex, of somebody else,
/// with the digest that is asked for. What is signed is the domain and the digest.
pub proof fn law_peer_votes_are_for_vertices_of_others(
    own: Pubkey,
    state: Option<GuardState>,
    d: Domains,
    vertex_bytes: Vec<u8>,
    digest: [u8; 32],
)
    ensures
        ({
            let r = ruling_on(SignerRequest::SignPeerVote { vertex_bytes, digest }, own, state, d);
            let v = vertex_of(vertex_bytes@);
            &&& r is Sign <==> is_vertex(vertex_bytes@) && vertex_digest(v) == digest && v.author
                != own
            &&& r is Sign ==> r->bytes == d.vertex_vote@ + digest@ && r->remember is None
            &&& !(r is Sign) ==> r is Refuse
            &&& !is_vertex(vertex_bytes@) ==> r->Refuse_0
                == "refusing SignPeerVote: malformed vertex bytes: "@ + decode_words(
                vertex_fault(vertex_bytes@),
            )
            &&& is_vertex(vertex_bytes@) && vertex_digest(v) != digest ==> r->Refuse_0
                == "refusing SignPeerVote: the vertex digest does not match the requested digest (a peer-vote must attest the given vertex, not an arbitrary digest)"@
            &&& is_vertex(vertex_bytes@) && vertex_digest(v) == digest && v.author == own
                ==> r->Refuse_0
                == "DOUBLE-SIGN BLOCKED: refusing to peer-sign OUR OWN vertex — an own-authored vertex must be signed via SignOwnVote (double-sign guarded)"@
        }),
{
}

/// A handshake is signed as it is, exactly where it begins with its domain. The certificate of a
/// network key is always signed: the domain, the chain, the validator and the address. The public
/// keys are always given.
pub proof fn law_unguarded_requests(
    own: Pubkey,
    state: Option<GuardState>,
    d: Domains,
    transcript: Vec<u8>,
    chain_id: [u8; 32],
    validator_id: [u8; 32],
    network_addr: [u8; 32],
)
    ensures
        ruling_on(SignerRequest::GetBundle, own, state, d) is Bundle,
        ({
            let r = ruling_on(SignerRequest::SignNetworkHandshake { transcript }, own, state, d);
            let n = d.p2p_auth@.len() as int;
            if transcript@.len() >= n && transcript@.subrange(0, n) == d.p2p_auth@ {
                r == (Ruling::Sign { bytes: transcript@, remember: None })
            } else {
                r == Ruling::Refuse(
                    "refusing SignNetworkHandshake: only a P2P_AUTH_V1-domained handshake transcript is signable; the consensus signer never signs value/other objects"@,
                )
            }
        }),
        ({
            let r = ruling_on(
                SignerRequest::SignNetworkKeyCert { chain_id, validator_id, network_addr },
                own,
                state,
                d,
            );
            &&& r is Sign
            &&& r->remember is None
            &&& r->bytes == d.network_key_cert@ + (chain_id@ + (validator_id@ + network_addr@))
        }),
{
    let n = d.p2p_auth@.len() as int;
    if transcript@.len() >= n {
        assert(transcript@.subrange(0, n) =~= transcript@.take(n));
    }
    assert(d.network_key_cert@ + (chain_id@ + (validator_id@ + network_addr@))
        =~= d.network_key_cert@ + chain_id@ + validator_id@ + network_addr@);
}

/// The policy turns away whatever asks for a signature while the limit is used up, and else
/// exactly the requests that name another chain than the one it expects.
pub proof fn law_policies_turn_away(request: SignerRequest, policy: SignerPolicy, admitted: bool)
    ensures
        ({
            let foreign = policy.expected_chain_id matches Some(wanted) && match request {
                SignerRequest::SignCheckpoint { chain_id, round, merkle_root } => chain_id != wanted,
                SignerRequest::SignNetworkKeyCert { chain_id, validator_id, network_addr } =>
                    chain_id != wanted,
                _ => false,
            };
            let r = policy_refusal(request, policy, admitted);
            if !admitted && !(request is GetBundle) {
                r == Some("rate limit exceeded: too many sign requests in the window"@)
            } else if foreign {
                r == Some(
                    "refusing to sign: request names a chain_id different from this signer's configured network"@,
                )
            } else {
                r is None
            }
        }),
{
}

/// Of the times that are remembered those at the front are forgotten that lie a whole window
/// back, up to the first that does not.
pub proof fn law_old_times_are_forgotten(recent: Seq<u64>, now: u64, window: u64) -> (k: int)
    ensures
        0 <= k <= recent.len(),
        pruned(recent, now, window) == recent.skip(k),
        forall|i: int| 0 <= i < k ==> now - #[trigger] recent[i] >= window || (recent[i] > now
            && window == 0),
        k < recent.len() ==> now - recent[k] < window,
    decreases recent.len(),
{
    if recent.len() > 0 && elapsed(now, recent[0]) >= window {
        let j = law_old_times_are_forgotten(recent.skip(1), now, window);
        assert(recent.skip(1).skip(j) =~= recent.skip(j + 1));
        assert forall|i: int| 0 <= i < j + 1 implies now - #[trigger] recent[i] >= window || (
        recent[i] > now && window == 0) by {
            if i > 0 {
                assert(recent.skip(1)[i - 1] == recent[i]);
            }
        }
        j + 1
    } else {
        assert(recent.skip(0) =~= recent);
        0
    }
}

/// A request is admitted exactly where fewer than the most are remembered after that, and is then
/// remembered last.
pub proof fn law_requests_are_admitted(limit: RateLimit, recent: Seq<u64>, now: u64)
    ensures
        ({
            let kept = pruned(recent, now, limit.window);
            let r = admission(limit, recent, now);
            &&& r.1 <==> kept.len() < limit.max_signs
            &&& r.1 ==> r.0 == kept.push(now)
            &&& !r.1 ==> r.0 == kept
        }),
{
}

/// A frame on the wire: four bytes for its length, at most the cap, then as many bytes.
pub proof fn law_frames_are_read(wire: Seq<u8>)
    ensures
        ({
            let r = first_frame(wire);
            let n = number_at(wire, 0, 4) as int;
            &&& r is Ok <==> wire.len() >= 4 && n <= 1_048_576 && wire.len() >= 4 + n
            &&& r matches Ok(frame) ==> frame.len() == n && forall|i: int|
                0 <= i < n ==> #[trigger] frame[i] == wire[4 + i]
            &&& r matches Err(e) ==> if wire.len() >= 4 && n > 1_048_576 {
                e == FrameError::DeclaredTooLarge(n as u32)
            } else {
                e is Truncated
            }
        }),
{
    if wire.len() >= 4 {
        assert(wire.take(4) =~= wire.subrange(0, 4));
    }
}

/// What is sent under a session is the payload and then the authenticator of its number; without
/// one it is the payload. Under a session a frame is delivered exactly where it is the payload
/// and then the authenticator of the number that is due, and numbers are left.
pub proof fn law_frames_are_delivered(
    payload: Seq<u8>,
    raw: Seq<u8>,
    session: Option<Session>,
    dir: u8,
)
    ensures
        session is None ==> carried(payload, session, dir) == payload && delivered(
            raw,
            session,
            dir,
        ) == Ok::<Seq<u8>, FrameError>(raw) && !out_of_numbers(session, true) && !out_of_numbers(
            session,
            false,
        ),
        session matches Some(s) ==> {
            let sent = carried(payload, session, dir);
            let r = delivered(raw, session, dir);
            let body = raw.subrange(0, raw.len() - 32);
            let good = raw.subrange(raw.len() - 32, raw.len() as int) == mac_of(
                s.key,
                dir,
                s.recv_seq,
                body,
            )@;
            &&& sent == payload + mac_of(s.key, dir, s.send_seq, payload)@
            &&& raw.len() < 32 ==> r == Err::<Seq<u8>, FrameError>(FrameError::MissingMac)
            &&& raw.len() >= 32 && !good ==> r == Err::<Seq<u8>, FrameError>(FrameError::BadMac)
            &&& raw.len() >= 32 && good && s.recv_seq == u64::MAX ==> r == Err::<
                Seq<u8>,
                FrameError,
            >(FrameError::OutOfNumbers)
            &&& raw.len() >= 32 && good && s.recv_seq < u64::MAX ==> r == Ok::<Seq<u8>, FrameError>(
                body,
            )
            &&& out_of_numbers(session, true) <==> s.send_seq == u64::MAX
            &&& out_of_numbers(session, false) <==> s.recv_seq == u64::MAX
        },
{
    if raw.len() >= 32 {
        assert(raw.subrange(0, raw.len() - 32) =~= raw.take(raw.len() - 32));
        assert(raw.subrange(raw.len() - 32, raw.len() as int) =~= raw.skip(raw.len() - 32));
    }
}

/// How faults of frames are told.
pub proof fn law_frame_faults_are_told(n: u64, m: u32)
    ensures
        FrameError::TooLarge(n).said() == "frame too large: "@ + decimal(n as nat) + " bytes"@,
        FrameError::DeclaredTooLarge(m).said() == "declared frame length "@ + decimal(m as nat)
            + " exceeds cap 1048576"@,
        FrameError::Truncated.said() == "failed to fill whole buffer"@,
        FrameError::MissingMac.said() == "authed frame too short (missing session MAC)"@,
        FrameError::BadMac.said()
            == "session frame MAC verification failed — channel tampered, injected, reordered, or wrong token"@,
        FrameError::OutOfNumbers.said() == "signer session frame seq overflow"@,
        HexError::WrongLength(n).said() == "expected 64 hex chars (32 bytes), got "@ + decimal(
            n as nat,
        ),
        HexError::NotHex.said() == "non-hex character"@,
{
}

/// Where a signer is found: a path after `unix:`, or a text that begins as a path does.
pub proof fn law_endpoints_name_sockets(path: Seq<char>)
    ensures
        endpoint_path("unix:"@ + path) == Some(path),
        endpoint_path("/"@ + path) == Some("/"@ + path),
        endpoint_path("./"@ + path) == Some("./"@ + path),
        path.len() > 0 && path[0] != 'u' && path[0] != '/' && path[0] != '.' ==> endpoint_path(path)
            is None,
{
    reveal_strlit("unix:");
    reveal_strlit("/");
    reveal_strlit("./");
    assert(("unix:"@ + path).skip(5) =~= path);
    assert(("unix:"@ + path).take(5) =~= "unix:"@);
    assert(("/"@ + path).take(1) =~= "/"@);
    assert(("./"@ + path).take(2) =~= "./"@);
    assert(("/"@ + path)[0] != "unix:"@[0]);
    assert(("./"@ + path)[0] != "unix:"@[0]);
}

/// Space at either end of a token does not count: blanks, tabs, and ends of lines and pages.
pub proof fn law_space_around_tokens_does_not_count(s: Seq<u8>, b: u8)
    ensures
        ({
            let space = b == 32 || b == 9 || b == 10 || b == 12 || b == 13;
            &&& space ==> trimmed_front(seq![b] + s) == trimmed_front(s)
            &&& space ==> trimmed_back(s.push(b)) == trimmed_back(s)
            &&& !space ==> trimmed_front(seq![b] + s) == seq![b] + s
            &&& !space ==> trimmed_back(s.push(b)) == s.push(b)
            &&& trimmed_front(Seq::empty()) == Seq::<u8>::empty()
            &&& trimmed_back(Seq::empty()) == Seq::<u8>::empty()
        }),
{
    assert((seq![b] + s).skip(1) =~= s);
    assert(s.push(b).drop_last() =~= s);
}

/// What is wrong with a greeting or an answer to one.
pub proof fn law_malformed_greetings(bytes: Seq<u8>)
    ensures
        challenge_fault(bytes) is None <==> bytes.len() == 34 && bytes[1] <= 1,
        bytes.len() >= 2 && bytes[1] > 1 ==> challenge_fault(bytes) == Some(
            DecodeError::InvalidBool(bytes[1]),
        ),
        bytes.len() < 34 && (bytes.len() < 2 || bytes[1] <= 1) ==> challenge_fault(bytes) == Some(
            DecodeError::UnexpectedLength,
        ),
        bytes.len() > 34 && bytes[1] <= 1 ==> challenge_fault(bytes) == Some(
            DecodeError::NotAllBytesRead,
        ),
        response_fault(bytes) is None <==> bytes.len() == 64,
        bytes.len() < 64 ==> response_fault(bytes) == Some(DecodeError::UnexpectedLength),
        bytes.len() > 64 ==> response_fault(bytes) == Some(DecodeError::NotAllBytesRead),
{
}

/// How a greeting is answered. One of another version is turned down; one that asks for no token
/// opens a plain connection; one that does, where there is no token, is turned down; and where
/// there is one, the answer holds the own nonce and the tag that the token gives with both
/// nonces, and a session starts, with both numbers at zero, under the key that they give.
pub proof fn law_greetings_are_answered(
    c: AuthChallenge,
    token: Option<Vec<u8>>,
    client_nonce: [u8; 32],
    done: Result<Dialed, DialError>,
)
    requires
        answers_challenge(challenge_bytes(c), token, client_nonce, done),
    ensures
        c.proto_version != 5 ==> done == Err::<Dialed, DialError>(
            DialError::WrongVersion(c.proto_version),
        ),
        c.proto_version == 5 && !c.auth_required ==> done == Ok::<Dialed, DialError>(Dialed::Plain),
        c.proto_version == 5 && c.auth_required && token is None ==> done == Err::<
            Dialed,
            DialError,
        >(DialError::NoToken),
        c.proto_version == 5 && c.auth_required ==> (token matches Some(t) ==> (done matches Ok(
            Dialed::Bound(r, s),
        ) && {
            &&& r.client_nonce == client_nonce
            &&& r.tag == sha3_256(
                keyed_input("qchain-remote-signer-auth-v1"@, t@, c.nonce, client_nonce),
            )
            &&& s.key == sha3_256(
                keyed_input("qchain-remote-signer-session-v1"@, t@, c.nonce, client_nonce),
            )
            &&& s.send_seq == 0 && s.recv_seq == 0
        })),
{
    let b = challenge_bytes(c);
    assert forall|o: AuthChallenge| #[trigger] challenge_bytes(o) == b implies o == c by {
        assert(b[0] == o.proto_version && b[1] == challenge_bytes(o)[1]);
        assert(b.skip(2) =~= c.nonce@);
        assert(challenge_bytes(o).skip(2) =~= o.nonce@);
        assert(o.nonce =~= c.nonce);
    }
}

/// How failures to connect are told.
pub proof fn law_dial_faults_are_told(e: DecodeError, v: u8)
    ensures
        DialError::Malformed(e).said() == "malformed AuthChallenge from signer: "@ + decode_words(
            e,
        ),
        DialError::WrongVersion(v).said() == "remote signer speaks protocol v"@ + decimal(v as nat)
            + " but this node speaks v5 — update both together"@,
        DialError::NoToken.said()
            == "remote signer requires client authentication but no auth token is configured on this node"@,
{
}

/// What a session and an answer are made of.
pub proof fn law_sessions_start_at_zero(
    token: Seq<u8>,
    server_nonce: [u8; 32],
    client_nonce: [u8; 32],
)
    ensures
        opened(token, server_nonce, client_nonce).send_seq == 0,
        opened(token, server_nonce, client_nonce).recv_seq == 0,
        opened(token, server_nonce, client_nonce).key == sha3_256(
            keyed_input("qchain-remote-signer-session-v1"@, token, server_nonce, client_nonce),
        ),
        honest_answer(token, server_nonce, client_nonce).client_nonce == client_nonce,
        honest_answer(token, server_nonce, client_nonce).tag == sha3_256(
            keyed_input("qchain-remote-signer-auth-v1"@, token, server_nonce, client_nonce),
        ),
{
}

/// How a node that got no signature tells of it; bytes are told as numbers with commas between
/// them.
pub proof fn law_missing_signatures_are_told(text: String, bytes: Seq<u8>, b: u8)
    ensures
        NoSignature::Refused(text).said() == "remote signer refused: "@ + text@,
        listed(Seq::empty()) == Seq::<char>::empty(),
        listed(seq![b]) == decimal(b as nat),
        bytes.len() > 0 ==> listed(bytes.push(b)) == listed(bytes) + ", "@ + decimal(b as nat),
{
    assert(bytes.push(b).drop_last() =~= bytes);
}

/// A node dials where it has no connection, asks where it has one, and gives up after two
/// failures.
pub proof fn law_nodes_try_twice(p: Progress)
    ensures
        p.failed >= 2 ==> p.then_do() is GiveUp,
        p.failed < 2 && p.connected ==> p.then_do() is Exchange,
        p.failed < 2 && !p.connected ==> p.then_do() is Dial,
{
}

/// What a signer answers. Asked for its keys it gives them; what it refuses it says why; and what
/// it signs is signed with both of its keys, over exactly the bytes that were ruled on, once what
/// had to be remembered was. Only where there is no randomness does it say so instead.
pub proof fn law_signers_answer(
    response: SignerResponse,
    ruling: Ruling,
    persisted: Result<(), String>,
    keypair: Keypair,
)
    requires
        answers(response, ruling, persisted, keypair),
    ensures
        ruling is Bundle ==> (response matches SignerResponse::Bundle(b) && b.ed25519
            == ed25519_public(keypair.ed25519_secret()) && b.mldsa@ == keypair.mldsa_public_bytes()),
        ruling matches Ruling::Refuse(reason) ==> (response matches SignerResponse::Refused(t) && t@
            == reason),
        ruling matches Ruling::Sign { bytes, remember } ==> {
            &&& remember is Some && persisted is Err ==> (response matches SignerResponse::Refused(t)
                && t@ == "cannot persist double-sign guard: "@ + persisted->Err_0@)
            &&& !(remember is Some && persisted is Err) ==> {
                ||| response matches SignerResponse::Signature(s) && s.ed25519.0 == ed25519_signed(
                    keypair.ed25519_secret(),
                    bytes,
                ) && mldsa_signs(keypair.mldsa_secret(), bytes, s.mldsa@)
                ||| response matches SignerResponse::Refused(t) && t@
                    == "sign error: randomness unavailable"@
            }
        },
{
}

/// The address of a signer is that of its keys.
pub proof fn law_signers_have_the_address_of_their_keys(keypair: Keypair)
    ensures
        address(keypair).0 == sha256(
            ed25519_public(keypair.ed25519_secret())@ + keypair.mldsa_public_bytes(),
        ),
{
}

/// How an answer that was not asked for is told.
pub proof fn law_unexpected_answers_are_told(b: BundleData)
    ensures
        bundle_words(b) == "Bundle(PublicKeyBundle { ed25519: ["@ + listed(b.ed25519@)
            + "], mldsa: ["@ + listed(b.mldsa) + "] })"@,
{
}

} // verus!
