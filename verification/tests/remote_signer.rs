use qchain::decode::DecodeError;
use qchain::keys::{verify, HybridSignature, Keypair, PublicKeyBundle};
use qchain::signer::{
    carry_out, decide, decide_with_policy, respond, respond_with_policy, signature_from, Domains, NextStep, NoSignature, Order, Progress, SignerRequest,
    SignerResponse,
};
use qchain::signer_guard::{DoubleSignGuard, GuardState, Verdict};
use qchain::signer_handshake::{
    answer_challenge, challenge_with, check_answer, meet_challenge, open_challenge, parse_hex32, trim_token, unix_endpoint_path, Admission, AuthChallenge, DialError, Dialed,
};
use qchain::signer_policy::{RateLimit, RateLimiter, SignerPolicy};
use qchain::signer_wire::{
    auth_tag, ct_eq, declared_length, derive_session_key, frame_mac, recv_frame, send_frame, write_frame, FrameError, Session,
    DIR_C2S, DIR_S2C, MAX_FRAME_BYTES, PROTO_VERSION,
};
use qchain::vertex::Vertex;
use sha3::{Digest, Sha3_256};

fn domains() -> Domains {
    Domains {
        vertex_vote: b"qchain-vertex-vote-v1".to_vec(),
        p2p_auth: b"qchain-p2p-auth-v1".to_vec(),
        state_checkpoint: b"qchain-state-checkpoint-v1".to_vec(),
        network_key_cert: b"qchain-network-key-cert-v1".to_vec(),
    }
}

/// A signer with the file that its guard is kept in.
struct Daemon {
    keypair: Keypair,
    guard: DoubleSignGuard,
    file: Vec<u8>,
    limiter: RateLimiter,
    policy: SignerPolicy,
    now: u64,
}

impl Daemon {
    fn new() -> Self {
        Daemon::with(SignerPolicy::permissive())
    }

    fn with(policy: SignerPolicy) -> Self {
        Daemon {
            keypair: Keypair::generate().unwrap(),
            guard: DoubleSignGuard::load(&[]).unwrap(),
            file: vec![],
            limiter: RateLimiter::new(policy.rate_limit),
            policy,
            now: 0,
        }
    }

    fn restart(&mut self) {
        self.guard = DoubleSignGuard::load(&self.file).unwrap();
    }

    fn persist(&mut self, request: &SignerRequest) -> Result<(), String> {
        if let Order::Sign { remember: Some(next), .. } = decide(request, &self.keypair.pubkey(), &self.guard, &domains()) {
            self.file = next.encode();
        }
        Ok(())
    }

    fn ask(&mut self, request: &SignerRequest) -> SignerResponse {
        let persisted = self.persist(request);
        respond(request, &self.keypair, &mut self.guard, persisted, &domains())
    }

    fn ask_with_policy(&mut self, request: &SignerRequest) -> SignerResponse {
        let order = decide_with_policy(
            request,
            &self.keypair,
            &self.guard,
            &self.policy,
            &mut self.limiter,
            self.now,
            &domains(),
        );
        if let Order::Sign { remember: Some(next), .. } = &order {
            self.file = next.encode();
        }
        carry_out(order, &self.keypair, &mut self.guard, Ok(()))
    }

    fn signs(&mut self, request: SignerRequest) -> bool {
        matches!(self.ask(&request), SignerResponse::Signature(_))
    }

    fn refuses(&mut self, request: SignerRequest) -> bool {
        matches!(self.ask(&request), SignerResponse::Refused(_))
    }
}

fn own_vote(round: u64, digest: [u8; 32]) -> SignerRequest {
    SignerRequest::SignOwnVote { round, digest }
}

fn checkpoint(chain_id: [u8; 32], round: u64, merkle_root: [u8; 32]) -> SignerRequest {
    SignerRequest::SignCheckpoint { chain_id, round, merkle_root }
}

fn vertex(round: u64, author: &Keypair) -> Vertex {
    Vertex { round, author: author.pubkey(), batch_digests: vec![], parents: vec![] }
}

fn peer_vote(v: &Vertex) -> SignerRequest {
    SignerRequest::SignPeerVote { vertex_bytes: v.encode().unwrap(), digest: v.digest().unwrap() }
}

fn vote_verifies(bundle: &PublicKeyBundle, digest: &[u8; 32], sig: &HybridSignature) -> bool {
    verify(bundle, &[domains().vertex_vote.as_slice(), digest.as_slice()].concat(), sig)
}

fn cert_verifies(bundle: &PublicKeyBundle, chain: &[u8; 32], validator: &[u8; 32], network: &[u8; 32], sig: &HybridSignature) -> bool {
    verify(bundle, &[domains().network_key_cert.as_slice(), chain, validator, network].concat(), sig)
}

#[test]
fn double_sign_guard_blocks_a_conflicting_own_vertex_but_allows_the_rest() {
    let mut s = Daemon::new();
    let d1 = [1u8; 32];
    let d2 = [2u8; 32];
    assert!(s.signs(own_vote(5, d1)));
    assert!(s.signs(own_vote(5, d1)));
    assert!(s.refuses(own_vote(5, d2)));
    assert!(s.refuses(own_vote(4, d1)));
    assert!(s.signs(own_vote(6, d2)));
    let peer_v = vertex(3, &Keypair::generate().unwrap());
    assert!(s.signs(peer_vote(&peer_v)));
    let hs = [domains().p2p_auth.as_slice(), b" transcript"].concat();
    assert!(s.signs(SignerRequest::SignNetworkHandshake { transcript: hs }));
}

#[test]
fn sign_network_handshake_refuses_a_tx_domained_message_but_signs_the_p2p_transcript() {
    let mut s = Daemon::new();
    let mut tx_msg = b"qchain-tx-sig-v1".to_vec();
    tx_msg.extend_from_slice(b"...borsh(Message) would follow...");
    assert!(
        s.refuses(SignerRequest::SignNetworkHandshake { transcript: tx_msg }),
        "the consensus signer must refuse to sign a transfer (no value oracle)"
    );
    for bad in [b"arbitrary bytes".to_vec(), domains().vertex_vote, b"qchain-some-future-protocol-v1 ...".to_vec()] {
        assert!(
            s.refuses(SignerRequest::SignNetworkHandshake { transcript: bad }),
            "the consensus signer only signs raw bytes that are a handshake transcript"
        );
    }
    let hs = [domains().p2p_auth.as_slice(), b" transcript..."].concat();
    assert!(s.signs(SignerRequest::SignNetworkHandshake { transcript: hs }));
}

#[test]
fn sign_network_key_cert_produces_a_cert_that_verifies_for_the_bound_tuple() {
    let mut s = Daemon::new();
    let network = Keypair::generate().unwrap();
    let bundle = s.keypair.public_key_bundle();

    let chain_id = [7u8; 32];
    let validator_id = bundle.to_address().to_bytes();
    let network_addr = network.pubkey().to_bytes();

    let sig = match s.ask(&SignerRequest::SignNetworkKeyCert { chain_id, validator_id, network_addr }) {
        SignerResponse::Signature(s) => s,
        other => panic!("expected a signature, got {other:?}"),
    };
    assert!(
        cert_verifies(&bundle, &chain_id, &validator_id, &network_addr, &sig),
        "the cert must verify for the bound (chain_id, validator_id, network_addr)"
    );
    let other_net = Keypair::generate().unwrap().pubkey().to_bytes();
    assert!(
        !cert_verifies(&bundle, &chain_id, &validator_id, &other_net, &sig),
        "the cert must NOT verify for a different network address"
    );
}

#[test]
fn guard_state_persists_across_reload() {
    let mut s = Daemon::new();
    assert!(s.signs(own_vote(9, [7u8; 32])));
    s.restart();
    assert!(s.refuses(own_vote(9, [8u8; 32])));
    assert!(s.refuses(own_vote(8, [8u8; 32])));
    assert!(s.signs(own_vote(10, [8u8; 32])));
}

/// A client and a signer at the two ends of a wire.
struct Link {
    daemon: Daemon,
    client: Option<Session>,
    server: Option<Session>,
}

impl Link {
    fn connect(daemon: Daemon, server_token: Option<&[u8]>, client_token: Option<&[u8]>) -> Option<Link> {
        let challenge = open_challenge(server_token.is_some()).unwrap();
        let wire = write_frame(&challenge.encode()).unwrap();
        let heard = recv_frame(&wire, &mut None, DIR_S2C).unwrap();
        match meet_challenge(&heard, &client_token.map(|t| t.to_vec())).unwrap() {
            Err(_) => None,
            Ok(Dialed::Plain) => Some(Link { daemon, client: None, server: None }),
            Ok(Dialed::Bound(answer, session)) => {
                let wire = write_frame(&answer.encode()).unwrap();
                let heard = recv_frame(&wire, &mut None, DIR_C2S).unwrap();
                match check_answer(&heard, server_token.unwrap(), &challenge.nonce) {
                    Admission::Admitted(s) => Some(Link { daemon, client: Some(session), server: Some(s) }),
                    _ => None,
                }
            }
        }
    }

    fn request(&mut self, request: &SignerRequest) -> SignerResponse {
        let wire = send_frame(&request.encode().unwrap(), &mut self.client, DIR_C2S).unwrap();
        let heard = recv_frame(&wire, &mut self.server, DIR_C2S).unwrap();
        let response = self.daemon.ask_with_policy(&SignerRequest::decode(&heard).unwrap());
        let wire = send_frame(&response.encode().unwrap(), &mut self.server, DIR_S2C).unwrap();
        let heard = recv_frame(&wire, &mut self.client, DIR_S2C).unwrap();
        SignerResponse::decode(&heard).unwrap()
    }

    fn bundle(&mut self) -> PublicKeyBundle {
        match self.request(&SignerRequest::GetBundle) {
            SignerResponse::Bundle(b) => b,
            other => panic!("expected the public keys, got {other:?}"),
        }
    }

    fn sign(&mut self, request: &SignerRequest) -> HybridSignature {
        signature_from(self.request(request)).unwrap()
    }
}

#[test]
fn client_server_roundtrip_over_a_real_socket() {
    let daemon = Daemon::new();
    let expected_bundle = daemon.keypair.public_key_bundle();
    let mut client = Link::connect(daemon, None, None).unwrap();
    assert_eq!(client.bundle().to_address(), expected_bundle.to_address());
    let digest = [42u8; 32];
    let sig = client.sign(&own_vote(1, digest));
    assert!(vote_verifies(&expected_bundle, &digest, &sig));
    let peer_v = vertex(1, &Keypair::generate().unwrap());
    let sig2 = client.sign(&peer_vote(&peer_v));
    assert!(vote_verifies(&expected_bundle, &peer_v.digest().unwrap(), &sig2));
}

#[test]
fn sign_peer_vote_refuses_our_own_vertex_closing_the_self_equivocation_bypass() {
    let mut s = Daemon::new();
    let own_v = vertex(7, &s.keypair);
    assert!(
        s.refuses(peer_vote(&own_v)),
        "a compromised node must NOT be able to peer-sign its OWN vertex (self-equivocation bypass)"
    );
    let peer_v = vertex(7, &Keypair::generate().unwrap());
    assert!(s.signs(peer_vote(&peer_v)), "a vote over another validator's vertex must be signed");
    assert!(
        s.refuses(SignerRequest::SignPeerVote { vertex_bytes: peer_v.encode().unwrap(), digest: [9u8; 32] }),
        "the requested digest must match the passed vertex; an arbitrary digest is refused"
    );
    assert!(
        s.refuses(SignerRequest::SignPeerVote { vertex_bytes: vec![0xff; 3], digest: [9u8; 32] }),
        "malformed vertex bytes must be refused, not panic"
    );
    let reason = |s: &mut Daemon, vertex_bytes: Vec<u8>| {
        match s.ask(&SignerRequest::SignPeerVote { vertex_bytes, digest: [9u8; 32] }) {
            SignerResponse::Refused(text) => text,
            other => panic!("expected a refusal, got {other:?}"),
        }
    };
    assert_eq!(reason(&mut s, vec![0xff; 3]), "refusing SignPeerVote: malformed vertex bytes: Unexpected length of input");
    let mut long = peer_v.encode().unwrap();
    long.push(0);
    assert_eq!(reason(&mut s, long), "refusing SignPeerVote: malformed vertex bytes: Not all bytes read");
}

#[test]
fn auth_tag_is_deterministic_token_and_nonce_sensitive() {
    let tok_a = b"shared-secret-A".to_vec();
    let tok_b = b"shared-secret-B".to_vec();
    let ns = [1u8; 32];
    let ns2 = [2u8; 32];
    let nc = [9u8; 32];
    let nc2 = [8u8; 32];
    assert_eq!(auth_tag(&tok_a, &ns, &nc), auth_tag(&tok_a, &ns, &nc));
    assert_ne!(auth_tag(&tok_a, &ns, &nc), auth_tag(&tok_b, &ns, &nc));
    assert_ne!(auth_tag(&tok_a, &ns, &nc), auth_tag(&tok_a, &ns2, &nc));
    assert_ne!(auth_tag(&tok_a, &ns, &nc), auth_tag(&tok_a, &ns, &nc2));
    assert_ne!(auth_tag(b"ab", &ns, &nc), auth_tag(b"a", &ns, &nc));
    let t = auth_tag(&tok_a, &ns, &nc);
    assert!(ct_eq(&t, &t));
    assert!(!ct_eq(&t, &auth_tag(&tok_b, &ns, &nc)));
    assert!(!ct_eq(&t, &t[..31]));
    let k = derive_session_key(&tok_a, &ns, &nc);
    assert_eq!(k, derive_session_key(&tok_a, &ns, &nc));
    assert_ne!(k, derive_session_key(&tok_b, &ns, &nc));
    assert_ne!(k, derive_session_key(&tok_a, &ns2, &nc));
    assert_ne!(k, derive_session_key(&tok_a, &ns, &nc2));
    assert_ne!(auth_tag(&tok_a, &ns, &nc).to_vec(), k.to_vec());
}

#[test]
fn per_frame_session_mac_rejects_tamper_reflection_and_reorder() {
    let key = derive_session_key(b"tok", &[1u8; 32], &[2u8; 32]);
    let payload = b"a signing request";
    let good = frame_mac(&key, DIR_C2S, 0, payload);
    assert!(ct_eq(&good, &frame_mac(&key, DIR_C2S, 0, payload)));
    assert!(!ct_eq(&good, &frame_mac(&key, DIR_C2S, 0, b"a signing requesX")));
    assert!(!ct_eq(&good, &frame_mac(&key, DIR_S2C, 0, payload)));
    assert!(!ct_eq(&good, &frame_mac(&key, DIR_C2S, 1, payload)));
    assert!(!ct_eq(&good, &frame_mac(&derive_session_key(b"other", &[1u8; 32], &[2u8; 32]), DIR_C2S, 0, payload)));

    let fresh = || Some(Session { key, send_seq: 0, recv_seq: 0 });
    let buf = send_frame(payload, &mut fresh(), DIR_C2S).unwrap();
    let got = recv_frame(&buf, &mut fresh(), DIR_C2S).unwrap();
    assert_eq!(got, payload);
    let mut tampered = buf.clone();
    let last = tampered.len() - 1;
    tampered[last] ^= 0x01;
    assert!(recv_frame(&tampered, &mut fresh(), DIR_C2S).is_err(), "an altered frame is refused");
    assert!(recv_frame(&buf, &mut fresh(), DIR_S2C).is_err(), "a reflected frame is refused");
}

#[test]
fn a_client_without_the_right_token_cannot_get_any_signature() {
    let token = b"the-pre-shared-signer-token".as_slice();
    let daemon = Daemon::new();
    let expected = daemon.keypair.public_key_bundle();

    let mut ok = Link::connect(daemon, Some(token), Some(token)).unwrap();
    assert_eq!(ok.bundle().to_address(), expected.to_address());
    let digest = [3u8; 32];
    let sig = ok.sign(&own_vote(1, digest));
    assert!(vote_verifies(&expected, &digest, &sig));

    assert!(
        Link::connect(Daemon::new(), Some(token), Some(b"wrong-token")).is_none(),
        "a wrong token must not authenticate — no signing oracle"
    );
    assert!(
        Link::connect(Daemon::new(), Some(token), None).is_none(),
        "a client with no token must be rejected when the daemon requires auth"
    );
}

#[test]
fn client_server_roundtrip_over_a_unix_socket_with_token() {
    let token = b"uds-token".as_slice();
    let daemon = Daemon::new();
    let expected = daemon.keypair.public_key_bundle();
    let mut client = Link::connect(daemon, Some(token), Some(token)).unwrap();
    assert_eq!(client.bundle().to_address(), expected.to_address());
    let peer_v = vertex(4, &Keypair::generate().unwrap());
    let sig = client.sign(&peer_vote(&peer_v));
    assert!(vote_verifies(&expected, &peer_v.digest().unwrap(), &sig));
    let sock = "/run/qchain/signer.sock";
    let endpoint = format!("unix:{sock}");
    assert_eq!(unix_endpoint_path(&endpoint), Some(sock));
    assert_eq!(unix_endpoint_path("127.0.0.1:9200"), None);
}

#[test]
fn chain_id_binding_rejects_a_wrong_network_request() {
    let chain_a = [0xAAu8; 32];
    let chain_b = [0xBBu8; 32];
    let mut s = Daemon::with(SignerPolicy { expected_chain_id: Some(chain_a), rate_limit: None });

    assert!(
        matches!(s.ask_with_policy(&checkpoint(chain_b, 1, [1u8; 32])), SignerResponse::Refused(_)),
        "wrong-network checkpoint rejected"
    );
    let bad_cert = SignerRequest::SignNetworkKeyCert { chain_id: chain_b, validator_id: [2u8; 32], network_addr: [3u8; 32] };
    assert!(matches!(s.ask_with_policy(&bad_cert), SignerResponse::Refused(_)), "wrong-network cert rejected");
    assert!(
        matches!(s.ask_with_policy(&checkpoint(chain_a, 1, [1u8; 32])), SignerResponse::Signature(_)),
        "own-network checkpoint signed"
    );
    assert!(
        matches!(s.ask_with_policy(&own_vote(1, [7u8; 32])), SignerResponse::Signature(_)),
        "votes unaffected by chain binding"
    );
}

#[test]
fn checkpoint_anti_equivocation_blocks_a_conflicting_root_and_persists() {
    let mut s = Daemon::new();
    let cid = [0u8; 32];
    let r1 = [1u8; 32];
    let r2 = [2u8; 32];
    assert!(s.signs(checkpoint(cid, 5, r1)));
    assert!(s.signs(checkpoint(cid, 5, r1)));
    assert!(s.refuses(checkpoint(cid, 5, r2)));
    assert!(s.refuses(checkpoint(cid, 4, r1)));
    assert!(s.signs(checkpoint(cid, 6, r2)));
    assert!(s.signs(own_vote(3, [9u8; 32])));
    s.restart();
    assert!(s.refuses(checkpoint(cid, 6, r1)), "checkpoint equivocation memory survives a restart");
    assert!(s.refuses(own_vote(3, [8u8; 32])), "own-vote memory survives too");
}

#[test]
fn rate_limiter_bounds_signs_per_window_and_recovers() {
    let base: u64 = 1_000_000_000_000;
    let secs = 1_000_000_000u64;
    let mut rl = RateLimiter::new(Some(RateLimit { max_signs: 3, window: 10 * secs }));
    assert!(rl.allow_at(base));
    assert!(rl.allow_at(base + secs));
    assert!(rl.allow_at(base + 2 * secs));
    assert!(!rl.allow_at(base + 3 * secs));
    assert!(rl.allow_at(base + 11 * secs));
    let mut unl = RateLimiter::unlimited();
    for i in 0..1000 {
        assert!(unl.allow_at(base + i * 1_000_000));
    }

    let mut s = Daemon::with(SignerPolicy {
        expected_chain_id: None,
        rate_limit: Some(RateLimit { max_signs: 2, window: 600 * secs }),
    });
    for _ in 0..5 {
        assert!(matches!(s.ask_with_policy(&SignerRequest::GetBundle), SignerResponse::Bundle(_)));
    }
    assert!(matches!(s.ask_with_policy(&own_vote(1, [1u8; 32])), SignerResponse::Signature(_)));
    assert!(matches!(s.ask_with_policy(&own_vote(2, [2u8; 32])), SignerResponse::Signature(_)));
    match s.ask_with_policy(&own_vote(3, [3u8; 32])) {
        SignerResponse::Refused(reason) => assert!(reason.contains("rate limit"), "refused for rate limit, got: {reason}"),
        other => panic!("expected rate-limit Refused, got {other:?}"),
    }
}

#[test]
fn a_v1_guard_file_migrates_to_v2_preserving_the_own_vote_memory() {
    let mut s = Daemon::new();
    s.file = borsh::to_vec(&(7u64, [5u8; 32])).unwrap();
    s.restart();
    assert!(s.refuses(own_vote(7, [9u8; 32])), "V1 own-vote memory preserved after migration");
    assert!(s.signs(own_vote(8, [9u8; 32])));
    assert!(s.signs(checkpoint([0u8; 32], 1, [1u8; 32])));
}

#[test]
fn a_guard_that_cannot_be_kept_signs_nothing_and_remembers_nothing() {
    let mut s = Daemon::new();
    let request = own_vote(5, [1u8; 32]);
    let refused = respond(&request, &s.keypair, &mut s.guard, Err("disk full".to_string()), &domains());
    assert!(matches!(refused, SignerResponse::Refused(r) if r == "cannot persist double-sign guard: disk full"));
    assert!(s.signs(own_vote(5, [2u8; 32])), "nothing was remembered of the vote that was not kept");
}

#[test]
fn guard_files_that_are_damaged_are_not_forgotten() {
    assert!(DoubleSignGuard::load(&[1, 2, 3]).is_none());
    let state = GuardState {
        last_own_round: 1,
        last_own_digest: [2u8; 32],
        own_seen: true,
        last_checkpoint_round: 3,
        last_checkpoint_root: [4u8; 32],
        checkpoint_seen: true,
    };
    let expected = borsh::to_vec(&(1u64, [2u8; 32], 3u64, [4u8; 32], true)).unwrap();
    assert_eq!(state.encode(), expected);
    let mut damaged = state.encode();
    let last = damaged.len() - 1;
    damaged[last] = 2;
    assert!(DoubleSignGuard::load(&damaged).is_none());
}

#[test]
fn a_guard_file_with_a_byte_too_many_is_no_memory() {
    let written = borsh::to_vec(&(7u64, [5u8; 32], 3u64, [4u8; 32], true)).unwrap();
    assert_eq!(written.len(), 81);
    let mut guard = DoubleSignGuard::load(&written).unwrap();
    assert!(guard.check_and_record_own(7, &[9u8; 32], Ok(())).is_err());
    assert!(guard.check_and_record_own(6, &[9u8; 32], Ok(())).is_err());
    for extra in [0u8, 1, 2] {
        let mut longer = written.clone();
        longer.push(extra);
        assert!(DoubleSignGuard::load(&longer).is_none(), "{extra} behind a recorded vote");
    }

    let mut empty = borsh::to_vec(&(0u64, [0u8; 32], 3u64, [4u8; 32], true)).unwrap();
    empty.push(1);
    let mut zero = DoubleSignGuard::load(&empty).unwrap();
    assert!(zero.check_and_record_own(0, &[9u8; 32], Ok(())).is_err(), "the vote of zeros was cast");
    *empty.last_mut().unwrap() = 0;
    assert!(DoubleSignGuard::load(&empty).is_none());
    empty.push(1);
    assert!(DoubleSignGuard::load(&empty).is_none());
}

#[test]
fn checkpoints_leave_the_first_own_vote_free() {
    let mut guard = DoubleSignGuard::load(&[]).unwrap();
    assert_eq!(guard.check_and_record_checkpoint(5, &[1u8; 32], Ok(())), Ok(()));
    let Verdict::Record(next) = guard.own_verdict(0, &[0u8; 32]) else { panic!("the first own vote is recorded") };
    let mut reloaded = DoubleSignGuard::load(&next.encode()).unwrap();
    assert!(matches!(reloaded.own_verdict(0, &[0u8; 32]), Verdict::Repeat));
    assert!(reloaded.check_and_record_own(0, &[9u8; 32], Ok(())).is_err(), "another vertex of that round is refused");
    assert_eq!(guard.check_and_record_own(0, &[9u8; 32], Ok(())), Ok(()));
    assert!(guard.check_and_record_own(0, &[8u8; 32], Ok(())).is_err());
    assert!(guard.check_and_record_checkpoint(5, &[2u8; 32], Ok(())).is_err());

    let written = borsh::to_vec(&(0u64, [0u8; 32], 5u64, [1u8; 32], true)).unwrap();
    let mut plain = DoubleSignGuard::load(&written).unwrap();
    assert_eq!(plain.check_and_record_own(0, &[9u8; 32], Ok(())), Ok(()));
    let old = borsh::to_vec(&(0u64, [0u8; 32])).unwrap();
    assert!(DoubleSignGuard::load(&old).unwrap().check_and_record_own(0, &[9u8; 32], Ok(())).is_err());
}

#[test]
fn tags_are_hashes_of_the_domain_the_token_and_both_nonces() {
    let mut h = Sha3_256::new();
    h.update(b"qchain-remote-signer-auth-v1");
    h.update(5u64.to_le_bytes());
    h.update(b"token");
    h.update([1u8; 32]);
    h.update([2u8; 32]);
    let expected: [u8; 32] = h.finalize().into();
    assert_eq!(auth_tag(b"token", &[1u8; 32], &[2u8; 32]), expected);
}

#[test]
fn frames_have_a_length_and_a_limit() {
    assert_eq!(write_frame(b"abc").unwrap(), vec![3, 0, 0, 0, b'a', b'b', b'c']);
    assert_eq!(declared_length(&(MAX_FRAME_BYTES).to_le_bytes()).unwrap(), MAX_FRAME_BYTES);
    assert!(declared_length(&(MAX_FRAME_BYTES + 1).to_le_bytes()).is_err());
    let big = vec![0u8; MAX_FRAME_BYTES as usize + 1];
    assert!(matches!(write_frame(&big), Err(FrameError::TooLarge(n)) if n == 1_048_577));
    assert!(recv_frame(&[3, 0, 0, 0, 1], &mut None, DIR_C2S).is_err());
    let mut spent = Some(Session { key: [0u8; 32], send_seq: u64::MAX, recv_seq: 0 });
    assert!(matches!(send_frame(b"x", &mut spent, DIR_C2S), Err(FrameError::OutOfNumbers)));
    let mut s = Some(Session { key: [0u8; 32], send_seq: 0, recv_seq: 0 });
    assert!(recv_frame(&write_frame(b"short").unwrap(), &mut s, DIR_C2S).is_err(), "no room for an authenticator");
}

#[test]
fn replayed_frames_are_refused() {
    let key = [9u8; 32];
    let mut tx = Some(Session { key, send_seq: 0, recv_seq: 0 });
    let mut rx = Some(Session { key, send_seq: 0, recv_seq: 0 });
    let first = send_frame(b"one", &mut tx, DIR_C2S).unwrap();
    let second = send_frame(b"two", &mut tx, DIR_C2S).unwrap();
    assert_eq!(recv_frame(&first, &mut rx, DIR_C2S).unwrap(), b"one");
    assert!(recv_frame(&first, &mut rx, DIR_C2S).is_err());
    assert_eq!(recv_frame(&second, &mut rx, DIR_C2S).unwrap(), b"two");
}

#[test]
fn dialing_another_version_or_garbage_fails_in_words() {
    let other = AuthChallenge { proto_version: 4, auth_required: false, nonce: [0u8; 32] };
    let refused = answer_challenge(&other.encode(), &None, [0u8; 32]);
    assert!(matches!(refused, Err(DialError::WrongVersion(4))));
    let garbage = answer_challenge(&[1, 2, 3], &None, [0u8; 32]).err().unwrap();
    assert_eq!(garbage.message(), "malformed AuthChallenge from signer: Invalid bool representation: 2");
    assert!(matches!(answer_challenge(&[1, 1], &None, [0u8; 32]), Err(DialError::Malformed(DecodeError::UnexpectedLength))));
    assert!(matches!(answer_challenge(&[1; 35], &None, [0u8; 32]), Err(DialError::Malformed(DecodeError::NotAllBytesRead))));
    let locked = AuthChallenge { proto_version: PROTO_VERSION, auth_required: true, nonce: [0u8; 32] };
    assert!(matches!(answer_challenge(&locked.encode(), &None, [0u8; 32]), Err(DialError::NoToken)));
    assert!(matches!(check_answer(&[0u8; 10], b"t", &[0u8; 32]), Admission::Malformed(DecodeError::UnexpectedLength)));
}

#[test]
fn requests_and_replies_have_the_bytes_that_borsh_gives_them() {
    assert_eq!(SignerRequest::GetBundle.encode().unwrap(), vec![0]);
    let mut vote = vec![1u8];
    vote.extend_from_slice(&borsh::to_vec(&(258u64, [3u8; 32])).unwrap());
    assert_eq!(own_vote(258, [3u8; 32]).encode().unwrap(), vote);
    let mut raw = vec![3u8];
    raw.extend_from_slice(&borsh::to_vec(&b"abc".to_vec()).unwrap());
    assert_eq!(SignerRequest::SignNetworkHandshake { transcript: b"abc".to_vec() }.encode().unwrap(), raw);
    let mut refused = vec![2u8];
    refused.extend_from_slice(&borsh::to_vec("no ¡never!").unwrap());
    assert_eq!(SignerResponse::Refused("no ¡never!".to_string()).encode().unwrap(), refused);
    assert!(matches!(SignerResponse::decode(&refused), Some(SignerResponse::Refused(t)) if t == "no ¡never!"));
    assert!(SignerResponse::decode(&[2, 1, 0, 0, 0, 0xFF]).is_none(), "no text");
    assert!(SignerRequest::decode(&[6]).is_none());
    assert!(SignerRequest::decode(&[0, 0]).is_none());
}

#[test]
fn a_vertex_has_the_bytes_that_borsh_gives_it() {
    let author = Keypair::generate().unwrap();
    let v = Vertex { round: 7, author: author.pubkey(), batch_digests: vec![(2, [5u8; 32])], parents: vec![[6u8; 32]] };
    let expected = borsh::to_vec(&(7u64, author.pubkey().to_bytes(), vec![(2u32, [5u8; 32])], vec![[6u8; 32]])).unwrap();
    assert_eq!(v.encode().unwrap(), expected);
    let named: [u8; 32] = Sha3_256::digest(&expected).into();
    assert_eq!(v.digest().unwrap(), named);
    assert_eq!(Vertex::decode(&expected).unwrap().encode().unwrap(), expected);
}

#[test]
fn tokens_are_trimmed_and_identifiers_are_hex() {
    assert_eq!(trim_token(b"  secret \n"), b"secret");
    assert_eq!(trim_token(b" \n"), b"");
    let text = hex::encode([0xABu8; 32]);
    assert_eq!(parse_hex32(&text).unwrap(), [0xABu8; 32]);
    assert!(parse_hex32("abc").is_err());
    assert!(parse_hex32(&"zz".repeat(32)).is_err());
}

#[test]
fn a_request_is_tried_over_a_fresh_connection_once_more() {
    let start = Progress::start(true);
    assert_eq!(start.next_step(), NextStep::Exchange);
    let failed = start.exchange_failed();
    assert_eq!(failed.next_step(), NextStep::Dial);
    let dialed = failed.dialed();
    assert_eq!(dialed.next_step(), NextStep::Exchange);
    assert_eq!(dialed.exchange_failed().next_step(), NextStep::GiveUp);
    let refused = signature_from(SignerResponse::Refused("no".to_string())).unwrap_err();
    assert_eq!(refused.message(), "remote signer refused: no");
    let bundle = Keypair::generate().unwrap().public_key_bundle();
    let shown = format!("Bundle({bundle:?})");
    let unexpected = signature_from(SignerResponse::Bundle(bundle)).err().unwrap();
    assert!(matches!(unexpected, NoSignature::Unexpected(_)));
    assert_eq!(unexpected.message(), format!("remote signer returned an unexpected response: {shown}"));
}

#[test]
fn nonces_are_drawn_anew() {
    let a = open_challenge(true).unwrap();
    let b = open_challenge(false).unwrap();
    assert_ne!(a.nonce, b.nonce);
    assert_eq!((a.proto_version, a.auth_required, b.auth_required), (PROTO_VERSION, true, false));
    let token = Some(b"t".to_vec());
    let drawn = |c: &AuthChallenge| match meet_challenge(&c.encode(), &token).unwrap() {
        Ok(Dialed::Bound(answer, _)) => answer.client_nonce,
        _ => panic!("expected an answer"),
    };
    assert_ne!(drawn(&a), drawn(&a));
}

#[test]
fn a_challenge_holds_the_drawn_nonce_or_there_is_none() {
    let c = challenge_with(true, Ok([7u8; 32])).unwrap();
    assert_eq!((c.proto_version, c.auth_required, c.nonce), (PROTO_VERSION, true, [7u8; 32]));
    let e = challenge_with(false, Err("no device".to_string())).err().unwrap();
    assert_eq!(e.message(), "OS randomness unavailable for the signer auth nonce: no device");
}

#[test]
fn a_guard_is_asked_and_told_in_one_step() {
    let mut guard = DoubleSignGuard::load(&[]).unwrap();
    assert!(guard.check_and_record_own(5, &[1u8; 32], Ok(())).is_ok());
    assert!(guard.check_and_record_own(5, &[1u8; 32], Ok(())).is_ok());
    assert!(guard.check_and_record_own(5, &[2u8; 32], Ok(())).is_err());
    let unkept = guard.check_and_record_own(6, &[2u8; 32], Err("full".to_string()));
    assert_eq!(unkept.unwrap_err(), "cannot persist double-sign guard: full");
    assert!(guard.check_and_record_own(6, &[3u8; 32], Ok(())).is_ok());
    assert!(guard.check_and_record_checkpoint(1, &[1u8; 32], Ok(())).is_ok());
    assert!(guard.check_and_record_checkpoint(1, &[2u8; 32], Ok(())).is_err());
}

#[test]
fn what_the_policy_refuses_leaves_the_guard_and_its_file_alone() {
    let policy = SignerPolicy { expected_chain_id: Some([7u8; 32]), rate_limit: Some(RateLimit { max_signs: 1, window: 100 }) };
    let mut s = Daemon::with(policy);
    assert!(matches!(s.ask_with_policy(&checkpoint([9u8; 32], 3, [1u8; 32])), SignerResponse::Refused(_)));
    assert!(s.file.is_empty(), "another chain");
    s.now = 200;
    assert!(matches!(s.ask_with_policy(&own_vote(1, [1u8; 32])), SignerResponse::Signature(_)));
    let file = s.file.clone();
    assert!(!file.is_empty());
    assert!(matches!(s.ask_with_policy(&own_vote(2, [2u8; 32])), SignerResponse::Refused(_)), "too soon");
    assert_eq!(s.file, file);
    s.restart();
    s.now = 400;
    let vote = own_vote(1, [1u8; 32]);
    let refused = respond_with_policy(
        &checkpoint([9u8; 32], 3, [1u8; 32]),
        &s.keypair,
        &mut s.guard,
        &s.policy,
        &mut s.limiter,
        s.now,
        Ok(()),
        &domains(),
    );
    assert!(matches!(refused, SignerResponse::Refused(_)));
    assert!(matches!(s.guard.checkpoint_verdict(3, &[2u8; 32]), Verdict::Record(_)), "nothing was remembered");
    s.now = 600;
    assert!(matches!(s.ask_with_policy(&vote), SignerResponse::Signature(_)), "a repeat is signed again");
}
