//! The bytes of requests and replies.
use crate::codec::{
    array_at, borsh_bytes, borsh_read_bytes, borsh_read_u64, borsh_write_bytes, borsh_write_u64,
    le_bytes, le_value, lemma_le_bytes_len, lemma_le_injective, lemma_le_round_trip,
    lemma_le_value_round_trip, lemma_pow256,
};
use crate::keys::{HybridSignature, PublicKeyBundle, Signature};
use crate::signer::{SignerRequest, SignerResponse};
use crate::text::text_from_utf8;
use vstd::prelude::*;
use vstd::string::*;
use vstd::utf8::*;

verus! {

/// What a request says.
#[verifier::ext_equal]
pub ghost enum RequestData {
    GetBundle,
    SignOwnVote { round: u64, digest: [u8; 32] },
    SignPeerVote { vertex_bytes: Seq<u8>, digest: [u8; 32] },
    SignNetworkHandshake { transcript: Seq<u8> },
    SignCheckpoint { chain_id: [u8; 32], round: u64, merkle_root: [u8; 32] },
    SignNetworkKeyCert { chain_id: [u8; 32], validator_id: [u8; 32], network_addr: [u8; 32] },
}

impl View for SignerRequest {
    type V = RequestData;

    open spec fn view(&self) -> RequestData {
        match self {
            SignerRequest::GetBundle => RequestData::GetBundle,
            SignerRequest::SignOwnVote { round, digest } => RequestData::SignOwnVote {
                round: *round,
                digest: *digest,
            },
            SignerRequest::SignPeerVote { vertex_bytes, digest } => RequestData::SignPeerVote {
                vertex_bytes: vertex_bytes@,
                digest: *digest,
            },
            SignerRequest::SignNetworkHandshake { transcript } => RequestData::SignNetworkHandshake {
                transcript: transcript@,
            },
            SignerRequest::SignCheckpoint { chain_id, round, merkle_root } => RequestData::SignCheckpoint {
                chain_id: *chain_id,
                round: *round,
                merkle_root: *merkle_root,
            },
            SignerRequest::SignNetworkKeyCert { chain_id, validator_id, network_addr } => RequestData::SignNetworkKeyCert {
                chain_id: *chain_id,
                validator_id: *validator_id,
                network_addr: *network_addr,
            },
        }
    }
}

/// The bytes of a request: the number of its form, then its parts.
pub open spec fn request_bytes(r: RequestData) -> Seq<u8> {
    match r {
        RequestData::GetBundle => seq![0u8],
        RequestData::SignOwnVote { round, digest } => seq![1u8] + le_bytes(round as nat, 8)
            + digest@,
        RequestData::SignPeerVote { vertex_bytes, digest } => seq![2u8] + borsh_bytes(vertex_bytes)
            + digest@,
        RequestData::SignNetworkHandshake { transcript } => seq![3u8] + borsh_bytes(transcript),
        RequestData::SignCheckpoint { chain_id, round, merkle_root } => seq![4u8] + chain_id@
            + le_bytes(round as nat, 8) + merkle_root@,
        RequestData::SignNetworkKeyCert { chain_id, validator_id, network_addr } => seq![5u8]
            + chain_id@ + validator_id@ + network_addr@,
    }
}

/// The lengths in a request fit the four bytes in which they are written.
pub open spec fn request_fits(r: RequestData) -> bool {
    match r {
        RequestData::SignPeerVote { vertex_bytes, digest } => vertex_bytes.len() <= u32::MAX,
        RequestData::SignNetworkHandshake { transcript } => transcript.len() <= u32::MAX,
        _ => true,
    }
}

impl SignerRequest {
    /// The bytes of the request, or none where a length does not fit.
    pub fn encode(&self) -> (bytes: Option<Vec<u8>>)
        ensures
            match bytes {
                Some(b) => request_fits(self@) && b@ == request_bytes(self@),
                None => !request_fits(self@),
            },
    {
        let mut out: Vec<u8> = Vec::new();
        match self {
            SignerRequest::GetBundle => {
                out.push(0);
            },
            SignerRequest::SignOwnVote { round, digest } => {
                out.push(1);
                let mut number: Vec<u8> = borsh_write_u64(*round);
                out.append(&mut number);
                out.extend_from_slice(digest.as_slice());
            },
            SignerRequest::SignPeerVote { vertex_bytes, digest } => {
                if vertex_bytes.len() > u32::MAX as usize {
                    return None;
                }
                out.push(2);
                let mut vertex: Vec<u8> = borsh_write_bytes(vertex_bytes.as_slice());
                out.append(&mut vertex);
                out.extend_from_slice(digest.as_slice());
            },
            SignerRequest::SignNetworkHandshake { transcript } => {
                if transcript.len() > u32::MAX as usize {
                    return None;
                }
                out.push(3);
                let mut body: Vec<u8> = borsh_write_bytes(transcript.as_slice());
                out.append(&mut body);
            },
            SignerRequest::SignCheckpoint { chain_id, round, merkle_root } => {
                out.push(4);
                out.extend_from_slice(chain_id.as_slice());
                let mut number: Vec<u8> = borsh_write_u64(*round);
                out.append(&mut number);
                out.extend_from_slice(merkle_root.as_slice());
            },
            SignerRequest::SignNetworkKeyCert { chain_id, validator_id, network_addr } => {
                out.push(5);
                out.extend_from_slice(chain_id.as_slice());
                out.extend_from_slice(validator_id.as_slice());
                out.extend_from_slice(network_addr.as_slice());
            },
        }
        proof {
            assert(out@ =~= request_bytes(self@));
        }
        Some(out)
    }

    /// The request that `bytes` stand for, all of them.
    pub fn decode(bytes: &[u8]) -> (request: Option<Self>)
        ensures
            match request {
                Some(r) => request_fits(r@) && bytes@ == request_bytes(r@),
                None => forall|r: RequestData| request_fits(r) ==> #[trigger] request_bytes(r)
                    != bytes@,
            },
    {
        let request = Self::decode_parts(bytes);
        proof {
            if request is None {
                assert forall|r: RequestData| request_fits(r) implies #[trigger] request_bytes(r)
                    != bytes@ by {
                    if request_bytes(r) == bytes@ {
                        lemma_request_parts(r, bytes@);
                    }
                }
            }
        }
        request
    }

    fn decode_parts(bytes: &[u8]) -> (request: Option<Self>)
        ensures
            match request {
                Some(r) => request_fits(r@) && bytes@ == request_bytes(r@),
                None => !has_request_shape(bytes@),
            },
    {
        let n: usize = bytes.len();
        if n == 0 {
            return None;
        }
        let kind: u8 = bytes[0];
        let rest = vstd::slice::slice_subrange(bytes, 1, n);
        proof {
            assert(rest@ =~= bytes@.skip(1));
        }
        if kind == 0 {
            if n != 1 {
                return None;
            }
            proof {
                assert(bytes@ =~= request_bytes(RequestData::GetBundle));
            }
            return Some(SignerRequest::GetBundle);
        }
        if kind == 1 {
            if n != 41 {
                return None;
            }
            match borsh_read_u64(rest) {
                None => None,
                Some(round) => {
                    let r = SignerRequest::SignOwnVote { round, digest: array_at(bytes, 9) };
                    proof {
                        lemma_number(rest@, round);
                        assert(bytes@ =~= request_bytes(r@));
                    }
                    Some(r)
                },
            }
        } else if kind == 2 {
            match borsh_read_bytes(rest) {
                None => None,
                Some(vertex_bytes) => {
                    proof {
                        lemma_bytes(rest@, vertex_bytes@);
                    }
                    if rest.len() - 4 < vertex_bytes.len() || rest.len() - 4 - vertex_bytes.len()
                        != 32 {
                        return None;
                    }
                    let digest: [u8; 32] = array_at(bytes, n - 32);
                    let r = SignerRequest::SignPeerVote { vertex_bytes, digest };
                    proof {
                        assert(bytes@ =~= request_bytes(r@));
                    }
                    Some(r)
                },
            }
        } else if kind == 3 {
            match borsh_read_bytes(rest) {
                None => None,
                Some(transcript) => {
                    proof {
                        lemma_bytes(rest@, transcript@);
                    }
                    if rest.len() - 4 != transcript.len() {
                        return None;
                    }
                    let r = SignerRequest::SignNetworkHandshake { transcript };
                    proof {
                        assert(bytes@ =~= request_bytes(r@));
                    }
                    Some(r)
                },
            }
        } else if kind == 4 {
            if n != 73 {
                return None;
            }
            let number = vstd::slice::slice_subrange(bytes, 33, n);
            match borsh_read_u64(number) {
                None => None,
                Some(round) => {
                    let r = SignerRequest::SignCheckpoint {
                        chain_id: array_at(bytes, 1),
                        round,
                        merkle_root: array_at(bytes, 41),
                    };
                    proof {
                        lemma_number(number@, round);
                        assert(bytes@ =~= request_bytes(r@));
                    }
                    Some(r)
                },
            }
        } else if kind == 5 {
            if n != 97 {
                return None;
            }
            let r = SignerRequest::SignNetworkKeyCert {
                chain_id: array_at(bytes, 1),
                validator_id: array_at(bytes, 33),
                network_addr: array_at(bytes, 65),
            };
            proof {
                assert(bytes@ =~= request_bytes(r@));
            }
            Some(r)
        } else {
            None
        }
    }
}

proof fn lemma_number(s: Seq<u8>, x: u64)
    requires
        s.len() >= 8,
        x == le_value(s.take(8)),
    ensures
        s.take(8) == le_bytes(x as nat, 8),
{
    lemma_le_value_round_trip(s.take(8));
}

proof fn lemma_bytes(s: Seq<u8>, v: Seq<u8>)
    requires
        s.len() >= 4,
        s.len() >= 4 + le_value(s.take(4)),
        v == s.subrange(4, 4 + le_value(s.take(4)) as int),
    ensures
        s.len() >= 4 + v.len(),
        v.len() == le_value(s.take(4)),
        v.len() <= u32::MAX,
        s.take(4 + v.len() as int) == borsh_bytes(v),
{
    lemma_le_value_round_trip(s.take(4));
    lemma_pow256();
    assert(s.take(4 + v.len() as int) =~= borsh_bytes(v));
}

/// The lengths that the bytes of a request have, by its form.
spec fn has_request_shape(b: Seq<u8>) -> bool {
    let rest = b.skip(1);
    let v = le_value(rest.take(4));
    &&& b.len() > 0
    &&& ({
        ||| b[0] == 0 && b.len() == 1
        ||| b[0] == 1 && b.len() == 41
        ||| b[0] == 2 && rest.len() >= 4 && rest.len() == 4 + v + 32
        ||| b[0] == 3 && rest.len() >= 4 && rest.len() == 4 + v
        ||| b[0] == 4 && b.len() == 73
        ||| b[0] == 5 && b.len() == 97
    })
}

proof fn lemma_request_parts(r: RequestData, b: Seq<u8>)
    requires
        request_fits(r),
        b == request_bytes(r),
    ensures
        has_request_shape(b),
{
    let rest = b.skip(1);
    lemma_pow256();
    match r {
        RequestData::SignOwnVote { round, digest } => {
            lemma_le_bytes_len(round as nat, 8);
        },
        RequestData::SignPeerVote { vertex_bytes, digest } => {
            lemma_le_bytes_len(vertex_bytes.len(), 4);
            lemma_le_round_trip(vertex_bytes.len(), 4);
            assert(rest.take(4) =~= le_bytes(vertex_bytes.len(), 4));
        },
        RequestData::SignNetworkHandshake { transcript } => {
            lemma_le_bytes_len(transcript.len(), 4);
            lemma_le_round_trip(transcript.len(), 4);
            assert(rest.take(4) =~= le_bytes(transcript.len(), 4));
        },
        RequestData::SignCheckpoint { chain_id, round, merkle_root } => {
            lemma_le_bytes_len(round as nat, 8);
        },
        _ => {},
    }
}

/// Two requests with the same bytes are the same, so what was written is read back.
pub proof fn law_request_round_trip(a: RequestData, b: RequestData)
    requires
        request_fits(a),
        request_fits(b),
        request_bytes(a) == request_bytes(b),
    ensures
        a == b,
{
    let x = request_bytes(a);
    let y = request_bytes(b);
    lemma_pow256();
    lemma_request_parts(a, x);
    lemma_request_parts(b, y);
    assert(x[0] == y[0]);
    match (a, b) {
        (
            RequestData::SignOwnVote { round: r1, digest: d1 },
            RequestData::SignOwnVote { round: r2, digest: d2 },
        ) => {
            lemma_le_bytes_len(r1 as nat, 8);
            lemma_le_bytes_len(r2 as nat, 8);
            assert(x.subrange(1, 9) =~= le_bytes(r1 as nat, 8));
            assert(y.subrange(1, 9) =~= le_bytes(r2 as nat, 8));
            lemma_le_injective(r1 as nat, r2 as nat, 8);
            assert(x.skip(9) =~= d1@ && y.skip(9) =~= d2@);
            assert(d1 =~= d2);
        },
        (
            RequestData::SignPeerVote { vertex_bytes: v1, digest: d1 },
            RequestData::SignPeerVote { vertex_bytes: v2, digest: d2 },
        ) => {
            lemma_le_bytes_len(v1.len(), 4);
            lemma_le_bytes_len(v2.len(), 4);
            assert(v1.len() == v2.len());
            let n = v1.len() as int;
            assert(x.subrange(5, 5 + n) =~= v1 && y.subrange(5, 5 + n) =~= v2);
            assert(x.skip(5 + n) =~= d1@ && y.skip(5 + n) =~= d2@);
            assert(d1 =~= d2);
        },
        (
            RequestData::SignNetworkHandshake { transcript: t1 },
            RequestData::SignNetworkHandshake { transcript: t2 },
        ) => {
            lemma_le_bytes_len(t1.len(), 4);
            lemma_le_bytes_len(t2.len(), 4);
            assert(x.skip(5) =~= t1 && y.skip(5) =~= t2);
        },
        (
            RequestData::SignCheckpoint { chain_id: c1, round: r1, merkle_root: m1 },
            RequestData::SignCheckpoint { chain_id: c2, round: r2, merkle_root: m2 },
        ) => {
            lemma_le_bytes_len(r1 as nat, 8);
            lemma_le_bytes_len(r2 as nat, 8);
            assert(x.subrange(1, 33) =~= c1@ && y.subrange(1, 33) =~= c2@);
            assert(x.subrange(33, 41) =~= le_bytes(r1 as nat, 8));
            assert(y.subrange(33, 41) =~= le_bytes(r2 as nat, 8));
            lemma_le_injective(r1 as nat, r2 as nat, 8);
            assert(x.skip(41) =~= m1@ && y.skip(41) =~= m2@);
            assert(c1 =~= c2 && m1 =~= m2);
        },
        (
            RequestData::SignNetworkKeyCert { chain_id: c1, validator_id: v1, network_addr: n1 },
            RequestData::SignNetworkKeyCert { chain_id: c2, validator_id: v2, network_addr: n2 },
        ) => {
            assert(x.subrange(1, 33) =~= c1@ && y.subrange(1, 33) =~= c2@);
            assert(x.subrange(33, 65) =~= v1@ && y.subrange(33, 65) =~= v2@);
            assert(x.subrange(65, 97) =~= n1@ && y.subrange(65, 97) =~= n2@);
            assert(c1 =~= c2 && v1 =~= v2 && n1 =~= n2);
        },
        _ => {},
    }
}

/// What a reply says.
#[verifier::ext_equal]
pub ghost enum ResponseData {
    Bundle { ed25519: [u8; 32], mldsa: Seq<u8> },
    Signature { ed25519_half: [u8; 64], mldsa: Seq<u8> },
    Refused { text: Seq<char> },
}

impl View for SignerResponse {
    type V = ResponseData;

    open spec fn view(&self) -> ResponseData {
        match self {
            SignerResponse::Bundle(b) => ResponseData::Bundle {
                ed25519: b.ed25519,
                mldsa: b.mldsa@,
            },
            SignerResponse::Signature(s) => ResponseData::Signature {
                ed25519_half: s.ed25519.0,
                mldsa: s.mldsa@,
            },
            SignerResponse::Refused(text) => ResponseData::Refused { text: text@ },
        }
    }
}

/// The bytes of a reply: the number of its form, then its parts.
pub open spec fn response_bytes(r: ResponseData) -> Seq<u8> {
    match r {
        ResponseData::Bundle { ed25519, mldsa } => seq![0u8] + ed25519@ + borsh_bytes(mldsa),
        ResponseData::Signature { ed25519_half, mldsa } => seq![1u8] + ed25519_half@ + borsh_bytes(mldsa),
        ResponseData::Refused { text } => seq![2u8] + borsh_bytes(encode_utf8(text)),
    }
}

/// The length in a reply fits the four bytes in which it is written.
pub open spec fn response_fits(r: ResponseData) -> bool {
    match r {
        ResponseData::Bundle { ed25519, mldsa } => mldsa.len() <= u32::MAX,
        ResponseData::Signature { ed25519_half, mldsa } => mldsa.len() <= u32::MAX,
        ResponseData::Refused { text } => encode_utf8(text).len() <= u32::MAX,
    }
}

/// The 64 bytes of `s` that begin at `from`.
fn half_at(s: &[u8], from: usize) -> (out: [u8; 64])
    requires
        from + 64 <= s@.len(),
    ensures
        out@ == s@.subrange(from as int, from + 64),
{
    let n: usize = s.len();
    let mut out: [u8; 64] = [0u8; 64];
    let mut i: usize = 0;
    while i < 64
        invariant
            i <= 64,
            from + 64 <= n == s@.len(),
            forall|j: int| 0 <= j < i ==> out@[j] == s@[from + j],
        decreases 64 - i,
    {
        out[i] = s[from + i];
        i += 1;
    }
    proof {
        assert(out@ =~= s@.subrange(from as int, from + 64));
    }
    out
}

impl SignerResponse {
    /// The bytes of the reply, or none where the length does not fit.
    pub fn encode(&self) -> (bytes: Option<Vec<u8>>)
        ensures
            match bytes {
                Some(b) => response_fits(self@) && b@ == response_bytes(self@),
                None => !response_fits(self@),
            },
    {
        let mut out: Vec<u8> = Vec::new();
        match self {
            SignerResponse::Bundle(b) => {
                if b.mldsa.len() > u32::MAX as usize {
                    return None;
                }
                out.push(0);
                out.extend_from_slice(b.ed25519.as_slice());
                let mut key: Vec<u8> = borsh_write_bytes(b.mldsa.as_slice());
                out.append(&mut key);
            },
            SignerResponse::Signature(s) => {
                if s.mldsa.len() > u32::MAX as usize {
                    return None;
                }
                out.push(1);
                out.extend_from_slice(s.ed25519.0.as_slice());
                let mut signature: Vec<u8> = borsh_write_bytes(s.mldsa.as_slice());
                out.append(&mut signature);
            },
            SignerResponse::Refused(text) => {
                let words = text.as_str().as_bytes();
                if words.len() > u32::MAX as usize {
                    return None;
                }
                out.push(2);
                let mut body: Vec<u8> = borsh_write_bytes(words);
                out.append(&mut body);
            },
        }
        proof {
            assert(out@ =~= response_bytes(self@));
        }
        Some(out)
    }

    /// The reply that `bytes` stand for, all of them.
    pub fn decode(bytes: &[u8]) -> (response: Option<Self>)
        ensures
            match response {
                Some(r) => response_fits(r@) && bytes@ == response_bytes(r@),
                None => forall|r: ResponseData| response_fits(r) ==> #[trigger] response_bytes(r)
                    != bytes@,
            },
    {
        let response = Self::decode_parts(bytes);
        proof {
            if response is None {
                assert forall|r: ResponseData| response_fits(r) implies #[trigger] response_bytes(r)
                    != bytes@ by {
                    if response_bytes(r) == bytes@ {
                        lemma_response_parts(r, bytes@);
                    }
                }
            }
        }
        response
    }

    fn decode_parts(bytes: &[u8]) -> (response: Option<Self>)
        ensures
            match response {
                Some(r) => response_fits(r@) && bytes@ == response_bytes(r@),
                None => !has_response_shape(bytes@),
            },
    {
        let n: usize = bytes.len();
        if n == 0 {
            return None;
        }
        let skipped: usize = if bytes[0] == 0 {
            33
        } else if bytes[0] == 1 {
            65
        } else if bytes[0] == 2 {
            1
        } else {
            return None;
        };
        if n < skipped {
            return None;
        }
        let rest = vstd::slice::slice_subrange(bytes, skipped, n);
        proof {
            assert(rest@ =~= bytes@.skip(skipped as int));
        }
        match borsh_read_bytes(rest) {
            None => None,
            Some(body) => {
                proof {
                    lemma_bytes(rest@, body@);
                }
                if rest.len() - 4 != body.len() {
                    return None;
                }
                proof {
                    assert(rest@ =~= borsh_bytes(body@));
                    assert(body@ =~= rest@.skip(4));
                }
                if bytes[0] == 0 {
                    let r = SignerResponse::Bundle(
                        PublicKeyBundle { ed25519: array_at(bytes, 1), mldsa: body },
                    );
                    proof {
                        assert(bytes@ =~= response_bytes(r@));
                    }
                    Some(r)
                } else if bytes[0] == 1 {
                    let r = SignerResponse::Signature(
                        HybridSignature { ed25519: Signature(half_at(bytes, 1)), mldsa: body },
                    );
                    proof {
                        assert(bytes@ =~= response_bytes(r@));
                    }
                    Some(r)
                } else {
                    match text_from_utf8(body) {
                        None => None,
                        Some(text) => {
                            let r = SignerResponse::Refused(text);
                            proof {
                                assert(bytes@ =~= response_bytes(r@));
                            }
                            Some(r)
                        },
                    }
                }
            },
        }
    }
}

/// The bytes have a reply's form, and what they carry is as long as they say.
spec fn has_response_shape(b: Seq<u8>) -> bool {
    &&& b.len() > 0
    &&& b[0] <= 2
    &&& ({
        let skipped: int = if b[0] == 0 {
            33
        } else if b[0] == 1 {
            65
        } else {
            1
        };
        let rest = b.skip(skipped);
        &&& b.len() >= skipped + 4
        &&& rest.len() == 4 + le_value(rest.take(4))
        &&& b[0] == 2 ==> valid_utf8(rest.skip(4))
    })
}

proof fn lemma_response_parts(r: ResponseData, b: Seq<u8>)
    requires
        response_fits(r),
        b == response_bytes(r),
    ensures
        has_response_shape(b),
{
    lemma_pow256();
    let (skipped, body): (int, Seq<u8>) = match r {
        ResponseData::Bundle { ed25519, mldsa } => (33, mldsa),
        ResponseData::Signature { ed25519_half, mldsa } => (65, mldsa),
        ResponseData::Refused { text } => (1, encode_utf8(text)),
    };
    lemma_le_bytes_len(body.len(), 4);
    lemma_le_round_trip(body.len(), 4);
    let rest = b.skip(skipped);
    assert(rest =~= borsh_bytes(body));
    assert(rest.take(4) =~= le_bytes(body.len(), 4));
    if let ResponseData::Refused { text } = r {
        assert(rest.skip(4) =~= body);
        encode_utf8_valid_utf8(text);
    }
}

/// Two replies with the same bytes are the same, so what was written is read back.
pub proof fn law_response_round_trip(a: ResponseData, b: ResponseData)
    requires
        response_fits(a),
        response_fits(b),
        response_bytes(a) == response_bytes(b),
    ensures
        a == b,
{
    let x = response_bytes(a);
    let y = response_bytes(b);
    lemma_response_parts(a, x);
    lemma_response_parts(b, y);
    assert(x[0] == y[0]);
    match (a, b) {
        (
            ResponseData::Bundle { ed25519: e1, mldsa: m1 },
            ResponseData::Bundle { ed25519: e2, mldsa: m2 },
        ) => {
            lemma_le_bytes_len(m1.len(), 4);
            lemma_le_bytes_len(m2.len(), 4);
            assert(x.subrange(1, 33) =~= e1@ && y.subrange(1, 33) =~= e2@);
            assert(e1 =~= e2);
            assert(x.skip(37) =~= m1 && y.skip(37) =~= m2);
        },
        (
            ResponseData::Signature { ed25519_half: e1, mldsa: m1 },
            ResponseData::Signature { ed25519_half: e2, mldsa: m2 },
        ) => {
            lemma_le_bytes_len(m1.len(), 4);
            lemma_le_bytes_len(m2.len(), 4);
            assert(x.subrange(1, 65) =~= e1@ && y.subrange(1, 65) =~= e2@);
            assert(e1 =~= e2);
            assert(x.skip(69) =~= m1 && y.skip(69) =~= m2);
        },
        (ResponseData::Refused { text: t1 }, ResponseData::Refused { text: t2 }) => {
            lemma_le_bytes_len(encode_utf8(t1).len(), 4);
            lemma_le_bytes_len(encode_utf8(t2).len(), 4);
            assert(x.skip(5) =~= encode_utf8(t1) && y.skip(5) =~= encode_utf8(t2));
            encode_utf8_decode_utf8(t1);
            encode_utf8_decode_utf8(t2);
        },
        _ => {},
    }
}

} // verus!
