//! How a node and its signer meet: where the signer listens, what it was told to expect,
//! and the exchange of nonces and tags that opens a connection.
use crate::codec::array_at;
use crate::decode::{decode_words, DecodeError};
use crate::hash::{collide, sha3_256};
use crate::hextext::{hex_digit, spells_byte};
use crate::signer_wire::{
    auth_tag, ct_eq, derive_session_key, keyed_input, law_tag_is_bound, Session, PROTO_VERSION,
    RS_AUTH_DOMAIN, RS_SESSION_DOMAIN,
};
use crate::text::{after_prefix, begins_with, decimal, decimal_text, has_prefix, joined};
use vstd::prelude::*;
use vstd::string::*;

verus! {

/// Where an endpoint is a path in the file system, that path.
pub open spec fn endpoint_path(endpoint: Seq<char>) -> Option<Seq<char>> {
    if begins_with(endpoint, "unix:"@) {
        Some(endpoint.skip(5))
    } else if begins_with(endpoint, "/"@) || begins_with(endpoint, "./"@) {
        Some(endpoint)
    } else {
        None
    }
}

/// The path of a Unix socket, where `endpoint` names one: `unix:` and a path, or a path
/// that begins with `/` or `./`. Anything else is a host and a port.
pub fn unix_endpoint_path(endpoint: &str) -> (path: Option<&str>)
    ensures
        match path {
            Some(p) => endpoint_path(endpoint@) == Some(p@),
            None => endpoint_path(endpoint@) is None,
        },
{
    if has_prefix(endpoint, "unix:") {
        proof {
            reveal_strlit("unix:");
        }
        return Some(after_prefix(endpoint, 5));
    }
    if has_prefix(endpoint, "/") || has_prefix(endpoint, "./") {
        return Some(endpoint);
    }
    None
}

/// Space, tab, line feed, form feed and carriage return.
pub open spec fn is_space(b: u8) -> bool {
    b == 0x20 || b == 0x09 || b == 0x0A || b == 0x0C || b == 0x0D
}

/// `s` without the white space at its front.
pub open spec fn trimmed_front(s: Seq<u8>) -> Seq<u8>
    decreases s.len(),
{
    if s.len() > 0 && is_space(s[0]) {
        trimmed_front(s.skip(1))
    } else {
        s
    }
}

/// `s` without the white space at its back.
pub open spec fn trimmed_back(s: Seq<u8>) -> Seq<u8>
    decreases s.len(),
{
    if s.len() > 0 && is_space(s.last()) {
        trimmed_back(s.drop_last())
    } else {
        s
    }
}

fn space(b: u8) -> (yes: bool)
    ensures
        yes == is_space(b),
{
    b == 0x20 || b == 0x09 || b == 0x0A || b == 0x0C || b == 0x0D
}

/// The bytes of a token file without the white space at either end.
pub fn trim_token(bytes: &[u8]) -> (token: Vec<u8>)
    ensures
        token@ == trimmed_back(trimmed_front(bytes@)),
{
    let mut start: usize = 0;
    proof {
        assert(bytes@.skip(0) =~= bytes@);
    }
    while start < bytes.len() && space(bytes[start])
        invariant
            start <= bytes@.len(),
            trimmed_front(bytes@.skip(start as int)) == trimmed_front(bytes@),
        decreases bytes@.len() - start,
    {
        proof {
            assert(bytes@.skip(start as int).skip(1) =~= bytes@.skip(start + 1));
        }
        start += 1;
    }
    let mut end: usize = bytes.len();
    let ghost front = bytes@.skip(start as int);
    proof {
        assert(bytes@.subrange(start as int, end as int) =~= front);
    }
    while end > start && space(bytes[end - 1])
        invariant
            start <= end <= bytes@.len(),
            trimmed_back(bytes@.subrange(start as int, end as int)) == trimmed_back(front),
        decreases end,
    {
        proof {
            let s = bytes@.subrange(start as int, end as int);
            assert(s.last() == bytes@[end - 1]);
            assert(s.drop_last() =~= bytes@.subrange(start as int, end - 1));
        }
        end -= 1;
    }
    let mut token: Vec<u8> = Vec::new();
    token.extend_from_slice(vstd::slice::slice_subrange(bytes, start, end));
    proof {
        let s = bytes@.subrange(start as int, end as int);
        assert(token@ =~= s);
        if s.len() > 0 {
            assert(s.last() == bytes@[end - 1]);
        }
        assert(trimmed_back(s) == s);
    }
    token
}

fn digit_value(b: u8) -> (value: Option<u8>)
    ensures
        match value {
            Some(v) => hex_digit(b) == Some(v as nat) && v < 16,
            None => hex_digit(b) is None,
        },
{
    if 0x30 <= b && b <= 0x39 {
        Some(b - 0x30)
    } else if 0x61 <= b && b <= 0x66 {
        Some(b - 0x61 + 10)
    } else if 0x41 <= b && b <= 0x46 {
        Some(b - 0x41 + 10)
    } else {
        None
    }
}

/// Why a text is not 32 bytes in hexadecimal.
#[derive(Debug)]
pub enum HexError {
    /// It has this many bytes in place of 64.
    WrongLength(u64),
    /// A character is no digit.
    NotHex,
}

impl HexError {
    /// What is said about the error.
    pub open spec fn said(&self) -> Seq<char> {
        match self {
            HexError::WrongLength(n) => "expected 64 hex chars (32 bytes), got "@ + decimal(
                *n as nat,
            ),
            HexError::NotHex => "non-hex character"@,
        }
    }

    /// The error in words.
    pub fn message(&self) -> (text: String)
        ensures
            text@ == self.said(),
    {
        match self {
            HexError::WrongLength(n) => joined(
                "expected 64 hex chars (32 bytes), got ",
                decimal_text(*n).as_str(),
            ),
            HexError::NotHex => "non-hex character".to_owned(),
        }
    }
}

/// The 32 bytes that 64 hexadecimal digits spell.
pub fn parse_hex32(s: &str) -> (bytes: Result<[u8; 32], HexError>)
    ensures
        match bytes {
            Ok(b) => s.spec_bytes().len() == 64 && forall|i: int|
                0 <= i < 32 ==> spells_byte(s.spec_bytes(), i, #[trigger] b@[i]),
            Err(HexError::WrongLength(n)) => s.spec_bytes().len() != 64 && n
                == s.spec_bytes().len(),
            Err(HexError::NotHex) => s.spec_bytes().len() == 64 && exists|i: int|
                0 <= i < 64 && hex_digit(#[trigger] s.spec_bytes()[i]) is None,
        },
{
    let digits = s.as_bytes();
    if digits.len() != 64 {
        return Err(HexError::WrongLength(digits.len() as u64));
    }
    let mut out: [u8; 32] = [0u8; 32];
    let mut i: usize = 0;
    while i < 32
        invariant
            i <= 32,
            digits@ == s.spec_bytes(),
            digits@.len() == 64,
            forall|j: int| 0 <= j < i ==> spells_byte(digits@, j, #[trigger] out@[j]),
        decreases 32 - i,
    {
        let hi = digit_value(digits[2 * i]);
        let lo = digit_value(digits[2 * i + 1]);
        match (hi, lo) {
            (Some(h), Some(l)) => {
                out[i] = h * 16 + l;
            },
            _ => {
                proof {
                    assert(hex_digit(s.spec_bytes()[2 * i as int]) is None || hex_digit(
                        s.spec_bytes()[2 * i as int + 1],
                    ) is None);
                }
                return Err(HexError::NotHex);
            },
        }
        i += 1;
    }
    Ok(out)
}

/// What the server says first: its version, whether it wants a tag, and its nonce.
pub struct AuthChallenge {
    pub proto_version: u8,
    pub auth_required: bool,
    pub nonce: [u8; 32],
}

/// What a client answers: its own nonce, and the tag.
pub struct AuthResponse {
    pub client_nonce: [u8; 32],
    pub tag: [u8; 32],
}

/// The bytes of a challenge.
pub open spec fn challenge_bytes(c: AuthChallenge) -> Seq<u8> {
    seq![
        c.proto_version,
        if c.auth_required {
            1u8
        } else {
            0u8
        },
    ] + c.nonce@
}

/// The bytes of an answer.
pub open spec fn response_bytes(r: AuthResponse) -> Seq<u8> {
    r.client_nonce@ + r.tag@
}

/// What is wrong with the bytes of a challenge, where something is.
pub open spec fn challenge_fault(bytes: Seq<u8>) -> Option<DecodeError> {
    if bytes.len() >= 2 && bytes[1] > 1 {
        Some(DecodeError::InvalidBool(bytes[1]))
    } else if bytes.len() < 34 {
        Some(DecodeError::UnexpectedLength)
    } else if bytes.len() > 34 {
        Some(DecodeError::NotAllBytesRead)
    } else {
        None
    }
}

/// What is wrong with the bytes of an answer, where something is.
pub open spec fn response_fault(bytes: Seq<u8>) -> Option<DecodeError> {
    if bytes.len() < 64 {
        Some(DecodeError::UnexpectedLength)
    } else if bytes.len() > 64 {
        Some(DecodeError::NotAllBytesRead)
    } else {
        None
    }
}

impl AuthChallenge {
    /// The bytes of the challenge.
    pub fn encode(&self) -> (bytes: Vec<u8>)
        ensures
            bytes@ == challenge_bytes(*self),
    {
        let mut out: Vec<u8> = Vec::new();
        out.push(self.proto_version);
        if self.auth_required {
            out.push(1);
        } else {
            out.push(0);
        }
        out.extend_from_slice(self.nonce.as_slice());
        proof {
            assert(out@ =~= challenge_bytes(*self));
        }
        out
    }

    /// The challenge that `bytes` stand for: 34 of them, of which the second is 0 or 1.
    pub fn decode(bytes: &[u8]) -> (challenge: Result<Self, DecodeError>)
        ensures
            match challenge {
                Ok(c) => bytes@ == challenge_bytes(c),
                Err(e) => challenge_fault(bytes@) == Some(e),
            },
    {
        if bytes.len() >= 2 && bytes[1] > 1 {
            return Err(DecodeError::InvalidBool(bytes[1]));
        }
        if bytes.len() < 34 {
            return Err(DecodeError::UnexpectedLength);
        }
        if bytes.len() > 34 {
            return Err(DecodeError::NotAllBytesRead);
        }
        let c = AuthChallenge {
            proto_version: bytes[0],
            auth_required: bytes[1] == 1,
            nonce: array_at(bytes, 2),
        };
        proof {
            assert(bytes@ =~= challenge_bytes(c));
        }
        Ok(c)
    }
}

impl AuthResponse {
    /// The bytes of the answer.
    pub fn encode(&self) -> (bytes: Vec<u8>)
        ensures
            bytes@ == response_bytes(*self),
    {
        let mut out: Vec<u8> = Vec::new();
        out.extend_from_slice(self.client_nonce.as_slice());
        out.extend_from_slice(self.tag.as_slice());
        proof {
            assert(out@ =~= response_bytes(*self));
        }
        out
    }

    /// The answer that `bytes` stand for: 64 of them.
    pub fn decode(bytes: &[u8]) -> (response: Result<Self, DecodeError>)
        ensures
            match response {
                Ok(r) => bytes@ == response_bytes(r),
                Err(e) => response_fault(bytes@) == Some(e),
            },
    {
        if bytes.len() < 64 {
            return Err(DecodeError::UnexpectedLength);
        }
        if bytes.len() > 64 {
            return Err(DecodeError::NotAllBytesRead);
        }
        let r = AuthResponse { client_nonce: array_at(bytes, 0), tag: array_at(bytes, 32) };
        proof {
            assert(bytes@ =~= response_bytes(r));
        }
        Ok(r)
    }
}

/// Why a client does not go on.
#[derive(Debug)]
pub enum DialError {
    /// The bytes are no challenge.
    Malformed(DecodeError),
    /// The server speaks this version.
    WrongVersion(u8),
    /// The server wants a tag, and there is no token to make it with.
    NoToken,
}

impl DialError {
    /// What is said about the error.
    pub open spec fn said(&self) -> Seq<char> {
        match self {
            DialError::Malformed(e) => "malformed AuthChallenge from signer: "@ + decode_words(*e),
            DialError::WrongVersion(v) => "remote signer speaks protocol v"@ + decimal(*v as nat)
                + " but this node speaks v5 — update both together"@,
            DialError::NoToken => "remote signer requires client authentication but no auth token is configured on this node"@,
        }
    }

    /// The error in words.
    pub fn message(&self) -> (text: String)
        ensures
            text@ == self.said(),
    {
        match self {
            DialError::Malformed(e) => joined(
                "malformed AuthChallenge from signer: ",
                e.message().as_str(),
            ),
            DialError::WrongVersion(v) => joined(
                joined("remote signer speaks protocol v", decimal_text(*v as u64).as_str()).as_str(),
                " but this node speaks v5 — update both together",
            ),
            DialError::NoToken => "remote signer requires client authentication but no auth token is configured on this node".to_owned(),
        }
    }
}

/// What a client does with a challenge.
pub enum Dialed {
    /// It goes on without a session.
    Plain,
    /// It answers, and goes on with a session.
    Bound(AuthResponse, Session),
}

/// The session that a token and two nonces open.
pub open spec fn opened(token: Seq<u8>, server_nonce: [u8; 32], client_nonce: [u8; 32]) -> Session {
    Session {
        key: sha3_256(keyed_input(RS_SESSION_DOMAIN@, token, server_nonce, client_nonce)),
        send_seq: 0,
        recv_seq: 0,
    }
}

/// The answer of a client that knows the token.
pub open spec fn honest_answer(
    token: Seq<u8>,
    server_nonce: [u8; 32],
    client_nonce: [u8; 32],
) -> AuthResponse {
    AuthResponse {
        client_nonce,
        tag: sha3_256(keyed_input(RS_AUTH_DOMAIN@, token, server_nonce, client_nonce)),
    }
}

/// `done` is what a client with this token and this nonce does with the bytes of a challenge.
pub open spec fn answers_challenge(
    bytes: Seq<u8>,
    token: Option<Vec<u8>>,
    client_nonce: [u8; 32],
    done: Result<Dialed, DialError>,
) -> bool {
    match done {
        Err(DialError::Malformed(e)) => challenge_fault(bytes) == Some(e),
        Err(DialError::WrongVersion(v)) => exists|c: AuthChallenge| #[trigger]
            challenge_bytes(c) == bytes && c.proto_version == v && v != PROTO_VERSION,
        Err(DialError::NoToken) => token is None && exists|c: AuthChallenge| #[trigger]
            challenge_bytes(c) == bytes && c.proto_version == PROTO_VERSION && c.auth_required,
        Ok(Dialed::Plain) => exists|c: AuthChallenge| #[trigger] challenge_bytes(c) == bytes
            && c.proto_version == PROTO_VERSION && !c.auth_required,
        Ok(Dialed::Bound(r, s)) => exists|c: AuthChallenge| #[trigger] challenge_bytes(c) == bytes
            && c.proto_version == PROTO_VERSION && c.auth_required && token is Some && r
            == honest_answer(token->0@, c.nonce, client_nonce) && s == opened(
            token->0@,
            c.nonce,
            client_nonce,
        ),
    }
}

/// The client's side of the handshake, with the nonce that it drew.
pub fn answer_challenge(
    bytes: &[u8],
    token: &Option<Vec<u8>>,
    client_nonce: [u8; 32],
) -> (done: Result<Dialed, DialError>)
    ensures
        answers_challenge(bytes@, *token, client_nonce, done),
{
    let challenge = match AuthChallenge::decode(bytes) {
        Err(e) => {
            return Err(DialError::Malformed(e));
        },
        Ok(c) => c,
    };
    if challenge.proto_version != PROTO_VERSION {
        return Err(DialError::WrongVersion(challenge.proto_version));
    }
    if !challenge.auth_required {
        return Ok(Dialed::Plain);
    }
    match token {
        None => Err(DialError::NoToken),
        Some(t) => {
            let tag: [u8; 32] = auth_tag(t.as_slice(), &challenge.nonce, &client_nonce);
            let key: [u8; 32] = derive_session_key(t.as_slice(), &challenge.nonce, &client_nonce);
            Ok(
                Dialed::Bound(
                    AuthResponse { client_nonce, tag },
                    Session { key, send_seq: 0, recv_seq: 0 },
                ),
            )
        },
    }
}

/// Calls `getrandom::getrandom` for 32 bytes. Nothing is claimed of them, nor of when the
/// system has none; the text is that of the error.
#[verifier::external_body]
fn fresh_nonce() -> (nonce: Result<[u8; 32], String>) {
    let mut nonce = [0u8; 32];
    getrandom::getrandom(&mut nonce).map(|_| nonce).map_err(|e| e.to_string())
}

/// The system had no random numbers, and said this.
#[derive(Debug)]
pub struct NonceError {
    pub reason: String,
}

impl NonceError {
    /// What is said about the error.
    pub open spec fn said(&self) -> Seq<char> {
        "OS randomness unavailable for the signer auth nonce: "@ + self.reason@
    }

    /// The error in words.
    pub fn message(&self) -> (text: String)
        ensures
            text@ == self.said(),
    {
        joined("OS randomness unavailable for the signer auth nonce: ", self.reason.as_str())
    }
}

/// The challenge that a server opens a connection with, and the nonce that it drew for it.
pub fn open_challenge(auth_required: bool) -> (challenge: Result<AuthChallenge, NonceError>)
    ensures
        challenge matches Ok(c) ==> c.proto_version == PROTO_VERSION && c.auth_required
            == auth_required,
{
    challenge_with(auth_required, fresh_nonce())
}

/// The challenge with the nonce that was drawn; an error, with what the system said, exactly
/// where none could be drawn.
pub fn challenge_with(auth_required: bool, drawn: Result<[u8; 32], String>) -> (challenge: Result<
    AuthChallenge,
    NonceError,
>)
    ensures
        match drawn {
            Ok(nonce) => challenge == Ok::<AuthChallenge, NonceError>(
                AuthChallenge { proto_version: PROTO_VERSION, auth_required, nonce },
            ),
            Err(said) => challenge matches Err(e) && e.reason == said,
        },
{
    match drawn {
        Ok(nonce) => Ok(AuthChallenge { proto_version: PROTO_VERSION, auth_required, nonce }),
        Err(reason) => Err(NonceError { reason }),
    }
}

/// The client's side of the handshake. A nonce is drawn only where the server wants a tag
/// and there is a token to make it with.
pub fn meet_challenge(bytes: &[u8], token: &Option<Vec<u8>>) -> (done: Result<
    Result<Dialed, DialError>,
    NonceError,
>)
    ensures
        match done {
            Ok(d) => exists|nonce: [u8; 32]| #[trigger]
                answers_challenge(bytes@, *token, nonce, d),
            Err(_) => token is Some && exists|c: AuthChallenge| #[trigger]
                challenge_bytes(c) == bytes@ && c.proto_version == PROTO_VERSION
                    && c.auth_required,
        },
{
    let wanted: bool = match AuthChallenge::decode(bytes) {
        Ok(c) => c.proto_version == PROTO_VERSION && c.auth_required && token.is_some(),
        Err(_) => false,
    };
    if !wanted {
        return Ok(answer_challenge(bytes, token, [0u8; 32]));
    }
    match fresh_nonce() {
        Ok(nonce) => Ok(answer_challenge(bytes, token, nonce)),
        Err(reason) => Err(NonceError { reason }),
    }
}

/// What the server does with an answer.
pub enum Admission {
    /// The bytes are no answer; the connection ends with an error.
    Malformed(DecodeError),
    /// The tag is wrong; the connection ends and nothing is signed.
    Rejected,
    /// The client knows the token.
    Admitted(Session),
}

/// The server's side of the handshake, with the nonce that it sent.
pub fn check_answer(bytes: &[u8], token: &[u8], server_nonce: &[u8; 32]) -> (admission: Admission)
    ensures
        match admission {
            Admission::Malformed(e) => response_fault(bytes@) == Some(e),
            Admission::Rejected => exists|r: AuthResponse| #[trigger] response_bytes(r) == bytes@
                && r != honest_answer(token@, *server_nonce, r.client_nonce),
            Admission::Admitted(s) => exists|r: AuthResponse| #[trigger] response_bytes(r) == bytes@
                && r == honest_answer(token@, *server_nonce, r.client_nonce) && s == opened(
                token@,
                *server_nonce,
                r.client_nonce,
            ),
        },
{
    let response = match AuthResponse::decode(bytes) {
        Err(e) => {
            return Admission::Malformed(e);
        },
        Ok(r) => r,
    };
    let expected: [u8; 32] = auth_tag(token, server_nonce, &response.client_nonce);
    if !ct_eq(response.tag.as_slice(), expected.as_slice()) {
        return Admission::Rejected;
    }
    proof {
        assert(response.tag =~= expected);
    }
    let key: [u8; 32] = derive_session_key(token, server_nonce, &response.client_nonce);
    Admission::Admitted(Session { key, send_seq: 0, recv_seq: 0 })
}

/// The bytes of a challenge stand for it alone.
pub proof fn law_challenge_round_trip(a: AuthChallenge, b: AuthChallenge)
    requires
        challenge_bytes(a) == challenge_bytes(b),
    ensures
        a == b,
        challenge_bytes(a).len() == 34,
        challenge_bytes(a)[1] <= 1,
{
    let x = challenge_bytes(a);
    let y = challenge_bytes(b);
    assert(x[0] == a.proto_version && y[0] == b.proto_version);
    assert(x[1] == y[1]);
    assert(x.skip(2) =~= a.nonce@ && y.skip(2) =~= b.nonce@);
    assert(a.nonce =~= b.nonce);
}

/// The bytes of an answer stand for it alone.
pub proof fn law_response_round_trip(a: AuthResponse, b: AuthResponse)
    requires
        response_bytes(a) == response_bytes(b),
    ensures
        a == b,
        response_bytes(a).len() == 64,
{
    let x = response_bytes(a);
    let y = response_bytes(b);
    assert(x.take(32) =~= a.client_nonce@ && y.take(32) =~= b.client_nonce@);
    assert(x.skip(32) =~= a.tag@ && y.skip(32) =~= b.tag@);
    assert(a.client_nonce =~= b.client_nonce);
    assert(a.tag =~= b.tag);
}

/// A client whose answer was made with a token is admitted exactly where it is the
/// server's token, unless what was hashed for the two tokens collides; and then both hold one session.
pub proof fn law_only_the_token_admits(
    client_token: Seq<u8>,
    server_token: Seq<u8>,
    server_nonce: [u8; 32],
    client_nonce: [u8; 32],
)
    requires
        client_token.len() <= u64::MAX,
        server_token.len() <= u64::MAX,
    ensures
        ({
            let answer = honest_answer(client_token, server_nonce, client_nonce);
            let wanted = honest_answer(server_token, server_nonce, answer.client_nonce);
            &&& client_token == server_token ==> answer == wanted && opened(
                client_token,
                server_nonce,
                client_nonce,
            ) == opened(server_token, server_nonce, answer.client_nonce)
            &&& answer == wanted ==> client_token == server_token || collide(
                keyed_input(RS_AUTH_DOMAIN@, client_token, server_nonce, client_nonce),
                keyed_input(RS_AUTH_DOMAIN@, server_token, server_nonce, client_nonce),
            )
        }),
{
    if honest_answer(client_token, server_nonce, client_nonce) == honest_answer(
        server_token,
        server_nonce,
        client_nonce,
    ) {
        law_tag_is_bound(
            client_token,
            server_nonce,
            client_nonce,
            server_token,
            server_nonce,
            client_nonce,
        );
    }
}

} // verus!
