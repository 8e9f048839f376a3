//! The wire between a node and its signer: the handshake, and the frames that carry
//! requests and replies.
use crate::codec::{
    le_bytes, le_decode, le_encode, le_value, lemma_le_bytes_len, lemma_le_injective,
    lemma_le_round_trip, lemma_le_value_round_trip, lemma_pow256,
};
use crate::hash::{collide, sha3_256, sha3_256_digest};
use crate::text::{decimal, decimal_text, joined};
use vstd::prelude::*;
use vstd::string::*;
use vstd::utf8::*;

verus! {

/// The version of the protocol that both sides have to speak.
pub const PROTO_VERSION: u8 = 5;

/// What the authentication tag is taken over begins with these bytes.
pub const RS_AUTH_DOMAIN: &'static str = "qchain-remote-signer-auth-v1";

/// What the session key is taken over begins with these bytes.
pub const RS_SESSION_DOMAIN: &'static str = "qchain-remote-signer-session-v1";

/// The direction of a frame from the client to the server.
pub const DIR_C2S: u8 = 0;

/// The direction of a frame from the server to the client.
pub const DIR_S2C: u8 = 1;

/// The most bytes that a frame may carry.
pub const MAX_FRAME_BYTES: u32 = 1048576;

/// A domain, a token with its length before it, and both nonces.
pub open spec fn keyed_input(
    domain: Seq<char>,
    token: Seq<u8>,
    server_nonce: [u8; 32],
    client_nonce: [u8; 32],
) -> Seq<u8> {
    encode_utf8(domain) + le_bytes(token.len(), 8) + token + server_nonce@ + client_nonce@
}

fn keyed_hash(
    domain: &str,
    token: &[u8],
    server_nonce: &[u8; 32],
    client_nonce: &[u8; 32],
) -> (digest: [u8; 32])
    ensures
        digest == sha3_256(keyed_input(domain@, token@, *server_nonce, *client_nonce)),
{
    let mut data: Vec<u8> = Vec::new();
    data.extend_from_slice(domain.as_bytes());
    let mut length: Vec<u8> = le_encode(token.len() as u64, 8);
    data.append(&mut length);
    data.extend_from_slice(token);
    data.extend_from_slice(server_nonce.as_slice());
    data.extend_from_slice(client_nonce.as_slice());
    proof {
        assert(data@ =~= keyed_input(domain@, token@, *server_nonce, *client_nonce));
    }
    sha3_256_digest(data.as_slice())
}

/// The tag by which a client shows that it knows the token.
pub fn auth_tag(token: &[u8], server_nonce: &[u8; 32], client_nonce: &[u8; 32]) -> (tag: [u8; 32])
    ensures
        tag == sha3_256(keyed_input(RS_AUTH_DOMAIN@, token@, *server_nonce, *client_nonce)),
{
    keyed_hash(RS_AUTH_DOMAIN, token, server_nonce, client_nonce)
}

/// The key under which the frames of one connection are authenticated.
pub fn derive_session_key(
    token: &[u8],
    server_nonce: &[u8; 32],
    client_nonce: &[u8; 32],
) -> (key: [u8; 32])
    ensures
        key == sha3_256(keyed_input(RS_SESSION_DOMAIN@, token@, *server_nonce, *client_nonce)),
{
    keyed_hash(RS_SESSION_DOMAIN, token, server_nonce, client_nonce)
}

proof fn lemma_domains()
    ensures
        encode_utf8(RS_AUTH_DOMAIN@).len() == 28,
        encode_utf8(RS_SESSION_DOMAIN@).len() == 31,
        encode_utf8(RS_AUTH_DOMAIN@)[21] != encode_utf8(RS_SESSION_DOMAIN@)[21],
{
    reveal_strlit("qchain-remote-signer-auth-v1");
    reveal_strlit("qchain-remote-signer-session-v1");
    is_ascii_chars_encode_utf8(RS_AUTH_DOMAIN@);
    is_ascii_chars_encode_utf8(RS_SESSION_DOMAIN@);
    assert(RS_AUTH_DOMAIN@[21] == 'a');
    assert(RS_SESSION_DOMAIN@[21] == 's');
}

proof fn lemma_keyed_input_injective(
    domain: Seq<char>,
    t1: Seq<u8>,
    s1: [u8; 32],
    c1: [u8; 32],
    t2: Seq<u8>,
    s2: [u8; 32],
    c2: [u8; 32],
)
    requires
        t1.len() <= u64::MAX,
        t2.len() <= u64::MAX,
        keyed_input(domain, t1, s1, c1) == keyed_input(domain, t2, s2, c2),
    ensures
        t1 == t2,
        s1 == s2,
        c1 == c2,
{
    let x = keyed_input(domain, t1, s1, c1);
    let y = keyed_input(domain, t2, s2, c2);
    let d = encode_utf8(domain).len() as int;
    lemma_le_bytes_len(t1.len(), 8);
    lemma_le_bytes_len(t2.len(), 8);
    assert(x.subrange(d, d + 8) =~= le_bytes(t1.len(), 8));
    assert(y.subrange(d, d + 8) =~= le_bytes(t2.len(), 8));
    lemma_pow256();
    lemma_le_injective(t1.len(), t2.len(), 8);
    let n = t1.len() as int;
    assert(x.subrange(d + 8, d + 8 + n) =~= t1);
    assert(y.subrange(d + 8, d + 8 + n) =~= t2);
    assert(x.subrange(d + 8 + n, d + 40 + n) =~= s1@);
    assert(y.subrange(d + 8 + n, d + 40 + n) =~= s2@);
    assert(x.subrange(d + 40 + n, d + 72 + n) =~= c1@);
    assert(y.subrange(d + 40 + n, d + 72 + n) =~= c2@);
    assert(s1 =~= s2);
    assert(c1 =~= c2);
}

/// A tag is bound to the token and to both nonces: one tag for two different inputs means
/// that what was hashed for them collides. No boundary between token and nonce can be moved, for the
/// token's length comes before it.
pub proof fn law_tag_is_bound(
    t1: Seq<u8>,
    s1: [u8; 32],
    c1: [u8; 32],
    t2: Seq<u8>,
    s2: [u8; 32],
    c2: [u8; 32],
)
    requires
        t1.len() <= u64::MAX,
        t2.len() <= u64::MAX,
        sha3_256(keyed_input(RS_AUTH_DOMAIN@, t1, s1, c1)) == sha3_256(
            keyed_input(RS_AUTH_DOMAIN@, t2, s2, c2),
        ),
    ensures
        (t1 == t2 && s1 == s2 && c1 == c2) || collide(
            keyed_input(RS_AUTH_DOMAIN@, t1, s1, c1),
            keyed_input(RS_AUTH_DOMAIN@, t2, s2, c2),
        ),
{
    if keyed_input(RS_AUTH_DOMAIN@, t1, s1, c1) == keyed_input(RS_AUTH_DOMAIN@, t2, s2, c2) {
        lemma_keyed_input_injective(RS_AUTH_DOMAIN@, t1, s1, c1, t2, s2, c2);
    }
}

/// A session key is bound to the token and to both nonces in the same way.
pub proof fn law_session_key_is_bound(
    t1: Seq<u8>,
    s1: [u8; 32],
    c1: [u8; 32],
    t2: Seq<u8>,
    s2: [u8; 32],
    c2: [u8; 32],
)
    requires
        t1.len() <= u64::MAX,
        t2.len() <= u64::MAX,
        sha3_256(keyed_input(RS_SESSION_DOMAIN@, t1, s1, c1)) == sha3_256(
            keyed_input(RS_SESSION_DOMAIN@, t2, s2, c2),
        ),
    ensures
        (t1 == t2 && s1 == s2 && c1 == c2) || collide(
            keyed_input(RS_SESSION_DOMAIN@, t1, s1, c1),
            keyed_input(RS_SESSION_DOMAIN@, t2, s2, c2),
        ),
{
    if keyed_input(RS_SESSION_DOMAIN@, t1, s1, c1) == keyed_input(RS_SESSION_DOMAIN@, t2, s2, c2) {
        lemma_keyed_input_injective(RS_SESSION_DOMAIN@, t1, s1, c1, t2, s2, c2);
    }
}

/// No tag is a session key, unless the two byte strings that were hashed collide.
pub proof fn law_tag_is_no_session_key(
    t1: Seq<u8>,
    s1: [u8; 32],
    c1: [u8; 32],
    t2: Seq<u8>,
    s2: [u8; 32],
    c2: [u8; 32],
)
    ensures
        sha3_256(keyed_input(RS_AUTH_DOMAIN@, t1, s1, c1)) != sha3_256(
            keyed_input(RS_SESSION_DOMAIN@, t2, s2, c2),
        ) || collide(
            keyed_input(RS_AUTH_DOMAIN@, t1, s1, c1),
            keyed_input(RS_SESSION_DOMAIN@, t2, s2, c2),
        ),
{
    let x = keyed_input(RS_AUTH_DOMAIN@, t1, s1, c1);
    let y = keyed_input(RS_SESSION_DOMAIN@, t2, s2, c2);
    lemma_domains();
    assert(x[21] == encode_utf8(RS_AUTH_DOMAIN@)[21]);
    assert(y[21] == encode_utf8(RS_SESSION_DOMAIN@)[21]);
}

/// What the authenticator of a frame is taken over.
pub open spec fn mac_input(key: [u8; 32], dir: u8, seq: u64, payload: Seq<u8>) -> Seq<u8> {
    key@ + seq![dir] + le_bytes(seq as nat, 8) + le_bytes(payload.len(), 8) + payload
}

/// The authenticator of a frame.
pub open spec fn mac_of(key: [u8; 32], dir: u8, seq: u64, payload: Seq<u8>) -> [u8; 32] {
    sha3_256(mac_input(key, dir, seq, payload))
}

/// The authenticator of a frame.
pub fn frame_mac(key: &[u8; 32], dir: u8, seq: u64, payload: &[u8]) -> (mac: [u8; 32])
    ensures
        mac == mac_of(*key, dir, seq, payload@),
{
    let mut data: Vec<u8> = Vec::new();
    data.extend_from_slice(key.as_slice());
    data.push(dir);
    let mut number: Vec<u8> = le_encode(seq, 8);
    data.append(&mut number);
    let mut length: Vec<u8> = le_encode(payload.len() as u64, 8);
    data.append(&mut length);
    data.extend_from_slice(payload);
    proof {
        assert(data@ =~= mac_input(*key, dir, seq, payload@));
    }
    sha3_256_digest(data.as_slice())
}

/// An authenticator is bound to its key, direction, number and payload: a frame that was
/// altered, reflected or moved has another one, unless the two byte strings that were hashed collide.
pub proof fn law_mac_is_bound(
    k1: [u8; 32],
    d1: u8,
    n1: u64,
    p1: Seq<u8>,
    k2: [u8; 32],
    d2: u8,
    n2: u64,
    p2: Seq<u8>,
)
    requires
        mac_of(k1, d1, n1, p1) == mac_of(k2, d2, n2, p2),
    ensures
        (k1 == k2 && d1 == d2 && n1 == n2 && p1 == p2) || collide(
            mac_input(k1, d1, n1, p1),
            mac_input(k2, d2, n2, p2),
        ),
{
    let x = mac_input(k1, d1, n1, p1);
    let y = mac_input(k2, d2, n2, p2);
    if x == y {
        lemma_le_bytes_len(n1 as nat, 8);
        lemma_le_bytes_len(n2 as nat, 8);
        lemma_le_bytes_len(p1.len(), 8);
        lemma_le_bytes_len(p2.len(), 8);
        assert(x.subrange(0, 32) =~= k1@);
        assert(y.subrange(0, 32) =~= k2@);
        assert(k1 =~= k2);
        assert(x[32] == d1 && y[32] == d2);
        assert(x.subrange(33, 41) =~= le_bytes(n1 as nat, 8));
        assert(y.subrange(33, 41) =~= le_bytes(n2 as nat, 8));
        lemma_pow256();
        lemma_le_injective(n1 as nat, n2 as nat, 8);
        assert(x.skip(49) =~= p1);
        assert(y.skip(49) =~= p2);
    }
}

/// Whether two byte strings are the same, looking at every byte whatever the earlier
/// ones were.
pub fn ct_eq(a: &[u8], b: &[u8]) -> (equal: bool)
    ensures
        equal == (a@ == b@),
{
    if a.len() != b.len() {
        return false;
    }
    let mut diff: u8 = 0;
    let mut i: usize = 0;
    while i < a.len()
        invariant
            i <= a@.len() == b@.len(),
            diff == 0 <==> (forall|j: int| 0 <= j < i ==> a@[j] == b@[j]),
        decreases a@.len() - i,
    {
        let x: u8 = a[i];
        let y: u8 = b[i];
        proof {
            assert((diff | (x ^ y)) == 0 <==> (diff == 0 && x == y)) by (bit_vector);
        }
        diff = diff | (x ^ y);
        i += 1;
    }
    proof {
        if diff == 0 {
            assert(a@ =~= b@);
        }
    }
    diff == 0
}

/// An authenticated connection: its key, and the numbers of the next frames.
pub struct Session {
    pub key: [u8; 32],
    pub send_seq: u64,
    pub recv_seq: u64,
}

/// Why a frame was not sent or not accepted.
#[derive(Debug)]
pub enum FrameError {
    /// The frame to be sent has this many bytes.
    TooLarge(u64),
    /// The frame received declares this many bytes.
    DeclaredTooLarge(u32),
    /// The bytes end before the frame does.
    Truncated,
    /// There is no room for an authenticator.
    MissingMac,
    /// The authenticator is not the one of the frame.
    BadMac,
    /// There are no more numbers.
    OutOfNumbers,
}

impl FrameError {
    /// What is said about the error.
    pub open spec fn said(&self) -> Seq<char> {
        match self {
            FrameError::TooLarge(n) => "frame too large: "@ + decimal(*n as nat) + " bytes"@,
            FrameError::DeclaredTooLarge(n) => "declared frame length "@ + decimal(*n as nat)
                + " exceeds cap 1048576"@,
            FrameError::Truncated => "failed to fill whole buffer"@,
            FrameError::MissingMac => "authed frame too short (missing session MAC)"@,
            FrameError::BadMac => "session frame MAC verification failed — channel tampered, injected, reordered, or wrong token"@,
            FrameError::OutOfNumbers => "signer session frame seq overflow"@,
        }
    }

    /// The error in words.
    pub fn message(&self) -> (text: String)
        ensures
            text@ == self.said(),
    {
        match self {
            FrameError::TooLarge(n) => joined(
                joined("frame too large: ", decimal_text(*n).as_str()).as_str(),
                " bytes",
            ),
            FrameError::DeclaredTooLarge(n) => joined(
                joined("declared frame length ", decimal_text(*n as u64).as_str()).as_str(),
                " exceeds cap 1048576",
            ),
            FrameError::Truncated => "failed to fill whole buffer".to_owned(),
            FrameError::MissingMac => "authed frame too short (missing session MAC)".to_owned(),
            FrameError::BadMac => "session frame MAC verification failed — channel tampered, injected, reordered, or wrong token".to_owned(),
            FrameError::OutOfNumbers => "signer session frame seq overflow".to_owned(),
        }
    }
}

/// The bytes of a frame on the wire: the length in four bytes, then what it carries.
pub open spec fn framed(bytes: Seq<u8>) -> Seq<u8> {
    le_bytes(bytes.len(), 4) + bytes
}

/// What a frame carries: the payload, and the authenticator where there is a session.
pub open spec fn carried(payload: Seq<u8>, session: Option<Session>, dir: u8) -> Seq<u8> {
    match session {
        None => payload,
        Some(s) => payload + mac_of(s.key, dir, s.send_seq, payload)@,
    }
}

/// The bytes of a frame.
pub fn write_frame(bytes: &[u8]) -> (frame: Result<Vec<u8>, FrameError>)
    ensures
        match frame {
            Ok(f) => bytes@.len() <= MAX_FRAME_BYTES && f@ == framed(bytes@),
            Err(e) => bytes@.len() > MAX_FRAME_BYTES && e == FrameError::TooLarge(
                bytes@.len() as u64,
            ),
        },
{
    let len: usize = bytes.len();
    if len as u64 > MAX_FRAME_BYTES as u64 {
        return Err(FrameError::TooLarge(len as u64));
    }
    let mut out: Vec<u8> = le_encode(len as u64, 4);
    out.extend_from_slice(bytes);
    proof {
        assert(out@ =~= framed(bytes@));
    }
    Ok(out)
}

/// The bytes that send `payload`. With a session the frame carries its authenticator, and
/// the session goes on to the next number.
pub fn send_frame(payload: &[u8], session: &mut Option<Session>, dir: u8) -> (frame: Result<
    Vec<u8>,
    FrameError,
>)
    ensures
        *final(session) == (match *old(session) {
            Some(s) if s.send_seq < u64::MAX => Some(
                Session { key: s.key, send_seq: (s.send_seq + 1) as u64, recv_seq: s.recv_seq },
            ),
            other => other,
        }),
        match frame {
            Ok(f) => !out_of_numbers(*old(session), true) && carried(
                payload@,
                *old(session),
                dir,
            ).len() <= MAX_FRAME_BYTES && f@ == framed(carried(payload@, *old(session), dir)),
            Err(e) => if out_of_numbers(*old(session), true) {
                e == FrameError::OutOfNumbers
            } else {
                let n = carried(payload@, *old(session), dir).len();
                n > MAX_FRAME_BYTES && e == FrameError::TooLarge(n as u64)
            },
        },
{
    match session {
        None => write_frame(payload),
        Some(s) => {
            let mac: [u8; 32] = frame_mac(&s.key, dir, s.send_seq, payload);
            if s.send_seq == u64::MAX {
                return Err(FrameError::OutOfNumbers);
            }
            let mut buf: Vec<u8> = Vec::new();
            buf.extend_from_slice(payload);
            buf.extend_from_slice(mac.as_slice());
            proof {
                assert(buf@ =~= payload@ + mac@);
            }
            s.send_seq = s.send_seq + 1;
            write_frame(buf.as_slice())
        },
    }
}

/// The session has used its last number, in the direction asked about.
pub open spec fn out_of_numbers(session: Option<Session>, sending: bool) -> bool {
    match session {
        None => false,
        Some(s) => if sending {
            s.send_seq == u64::MAX
        } else {
            s.recv_seq == u64::MAX
        },
    }
}

/// How many bytes follow a frame's four length bytes.
pub fn declared_length(header: &[u8; 4]) -> (len: Result<u32, FrameError>)
    ensures
        match len {
            Ok(n) => n == le_value(header@) && n <= MAX_FRAME_BYTES,
            Err(e) => le_value(header@) > MAX_FRAME_BYTES && e == FrameError::DeclaredTooLarge(
                le_value(header@) as u32,
            ),
        },
{
    proof {
        lemma_le_value_round_trip(header@);
        lemma_pow256();
    }
    let n: u64 = le_decode(header.as_slice());
    if n > MAX_FRAME_BYTES as u64 {
        return Err(FrameError::DeclaredTooLarge(n as u32));
    }
    Ok(n as u32)
}

/// What the first frame in `wire` carries, or why there is none.
pub open spec fn first_frame(wire: Seq<u8>) -> Result<Seq<u8>, FrameError> {
    if wire.len() < 4 {
        Err(FrameError::Truncated)
    } else {
        let n = le_value(wire.take(4));
        if n > MAX_FRAME_BYTES {
            Err(FrameError::DeclaredTooLarge(n as u32))
        } else if wire.len() < 4 + n {
            Err(FrameError::Truncated)
        } else {
            Ok(wire.subrange(4, 4 + n as int))
        }
    }
}

/// What the first frame in `wire` carries.
pub fn read_frame(wire: &[u8]) -> (bytes: Result<Vec<u8>, FrameError>)
    ensures
        match bytes {
            Ok(b) => first_frame(wire@) == Ok::<Seq<u8>, FrameError>(b@),
            Err(e) => first_frame(wire@) == Err::<Seq<u8>, FrameError>(e),
        },
{
    if wire.len() < 4 {
        return Err(FrameError::Truncated);
    }
    let header: [u8; 4] = [wire[0], wire[1], wire[2], wire[3]];
    proof {
        assert(header@ =~= wire@.take(4));
    }
    match declared_length(&header) {
        Err(e) => Err(e),
        Ok(n) => {
            let n: usize = n as usize;
            if wire.len() < 4 + n {
                return Err(FrameError::Truncated);
            }
            let body = vstd::slice::slice_subrange(wire, 4, 4 + n);
            let mut out: Vec<u8> = Vec::new();
            out.extend_from_slice(body);
            proof {
                assert(out@ =~= wire@.subrange(4, 4 + n as int));
            }
            Ok(out)
        },
    }
}

/// What a received frame delivers, or why it delivers nothing: with a session its last 32
/// bytes have to be the authenticator of the rest.
pub open spec fn delivered(raw: Seq<u8>, session: Option<Session>, dir: u8) -> Result<
    Seq<u8>,
    FrameError,
> {
    match session {
        None => Ok(raw),
        Some(s) => if raw.len() < 32 {
            Err(FrameError::MissingMac)
        } else {
            let payload = raw.take(raw.len() - 32);
            if raw.skip(raw.len() - 32) != mac_of(s.key, dir, s.recv_seq, payload)@ {
                Err(FrameError::BadMac)
            } else if s.recv_seq == u64::MAX {
                Err(FrameError::OutOfNumbers)
            } else {
                Ok(payload)
            }
        },
    }
}

/// What a received frame delivers. A session goes on to the next number where the frame
/// was accepted, and stays as it was where it was not.
pub fn open_frame(raw: &[u8], session: &mut Option<Session>, dir: u8) -> (payload: Result<
    Vec<u8>,
    FrameError,
>)
    ensures
        match payload {
            Ok(p) => delivered(raw@, *old(session), dir) == Ok::<Seq<u8>, FrameError>(p@),
            Err(e) => delivered(raw@, *old(session), dir) == Err::<Seq<u8>, FrameError>(e),
        },
        *final(session) == (match *old(session) {
            Some(s) if delivered(raw@, *old(session), dir) is Ok => Some(
                Session { key: s.key, send_seq: s.send_seq, recv_seq: (s.recv_seq + 1) as u64 },
            ),
            other => other,
        }),
{
    let mut out: Vec<u8> = Vec::new();
    match session {
        None => {
            out.extend_from_slice(raw);
            proof {
                assert(out@ =~= raw@);
            }
            Ok(out)
        },
        Some(s) => {
            if raw.len() < 32 {
                return Err(FrameError::MissingMac);
            }
            let cut: usize = raw.len() - 32;
            let payload = vstd::slice::slice_subrange(raw, 0, cut);
            let mac = vstd::slice::slice_subrange(raw, cut, raw.len());
            proof {
                assert(payload@ =~= raw@.take(raw@.len() - 32));
                assert(mac@ =~= raw@.skip(raw@.len() - 32));
            }
            let expected: [u8; 32] = frame_mac(&s.key, dir, s.recv_seq, payload);
            if !ct_eq(mac, expected.as_slice()) {
                return Err(FrameError::BadMac);
            }
            if s.recv_seq == u64::MAX {
                return Err(FrameError::OutOfNumbers);
            }
            s.recv_seq = s.recv_seq + 1;
            out.extend_from_slice(payload);
            proof {
                assert(out@ =~= payload@);
            }
            Ok(out)
        },
    }
}

/// What the first frame in `wire` delivers.
pub fn recv_frame(wire: &[u8], session: &mut Option<Session>, dir: u8) -> (payload: Result<
    Vec<u8>,
    FrameError,
>)
    ensures
        match first_frame(wire@) {
            Err(e) => payload == Err::<Vec<u8>, FrameError>(e) && *final(session) == *old(session),
            Ok(raw) => {
                &&& match payload {
                    Ok(p) => delivered(raw, *old(session), dir) == Ok::<Seq<u8>, FrameError>(p@),
                    Err(e) => delivered(raw, *old(session), dir) == Err::<Seq<u8>, FrameError>(e),
                }
                &&& *final(session) == (match *old(session) {
                    Some(s) if delivered(raw, *old(session), dir) is Ok => Some(
                        Session { key: s.key, send_seq: s.send_seq, recv_seq: (s.recv_seq + 1) as u64 },
                    ),
                    other => other,
                })
            },
        },
{
    match read_frame(wire) {
        Err(e) => Err(e),
        Ok(raw) => open_frame(raw.as_slice(), session, dir),
    }
}

/// What one side sends, the other side gets: a frame that was sent under a key, direction
/// and number is accepted under the same ones, and delivers the payload.
pub proof fn law_sent_is_received(
    payload: Seq<u8>,
    sender: Option<Session>,
    receiver: Option<Session>,
    dir: u8,
    rest: Seq<u8>,
)
    requires
        match (sender, receiver) {
            (None, None) => true,
            (Some(s), Some(r)) => s.key == r.key && s.send_seq == r.recv_seq && r.recv_seq
                < u64::MAX,
            _ => false,
        },
        carried(payload, sender, dir).len() <= MAX_FRAME_BYTES,
    ensures
        first_frame(framed(carried(payload, sender, dir)) + rest) == Ok::<Seq<u8>, FrameError>(
            carried(payload, sender, dir),
        ),
        delivered(carried(payload, sender, dir), receiver, dir) == Ok::<Seq<u8>, FrameError>(payload),
{
    let c = carried(payload, sender, dir);
    let wire = framed(c) + rest;
    lemma_le_bytes_len(c.len(), 4);
    lemma_pow256();
    lemma_le_round_trip(c.len(), 4);
    assert(wire.take(4) =~= le_bytes(c.len(), 4));
    assert(wire.subrange(4, 4 + c.len() as int) =~= c);
    if let Some(s) = sender {
        let m = mac_of(s.key, dir, s.send_seq, payload)@;
        assert(c.take(c.len() - 32) =~= payload);
        assert(c.skip(c.len() - 32) =~= m);
    }
}

/// What is accepted was sent: where a frame is accepted whose authenticator was made for
/// some payload, direction and number under some key, that payload is what is delivered,
/// and direction, number and key are the receiver's, unless the two byte strings that were hashed collide.
pub proof fn law_received_was_sent(
    raw: Seq<u8>,
    receiver: Session,
    dir: u8,
    payload: Seq<u8>,
    key: [u8; 32],
    sent_dir: u8,
    number: u64,
)
    requires
        raw.len() >= 32,
        raw.skip(raw.len() - 32) == mac_of(key, sent_dir, number, payload)@,
        delivered(raw, Some(receiver), dir) is Ok,
    ensures
        (delivered(raw, Some(receiver), dir) == Ok::<Seq<u8>, FrameError>(payload) && dir
            == sent_dir && receiver.recv_seq == number && receiver.key == key) || collide(
            mac_input(receiver.key, dir, receiver.recv_seq, raw.take(raw.len() - 32)),
            mac_input(key, sent_dir, number, payload),
        ),
{
    let p = raw.take(raw.len() - 32);
    let a = mac_of(receiver.key, dir, receiver.recv_seq, p);
    let b = mac_of(key, sent_dir, number, payload);
    assert(a =~= b);
    law_mac_is_bound(receiver.key, dir, receiver.recv_seq, p, key, sent_dir, number, payload);
}

} // verus!
