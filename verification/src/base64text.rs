//! Bytes written in base64.
use base64::Engine;
use vstd::prelude::*;

verus! {

/// The base64 text of `bytes`: the standard alphabet, padded.
pub uninterp spec fn base64(bytes: Seq<u8>) -> Seq<char>;

/// The bytes that a base64 text stands for, or why it stands for none.
pub uninterp spec fn base64_decoded(text: Seq<char>) -> Result<Seq<u8>, Seq<char>>;

/// Calls `base64::engine::general_purpose::STANDARD.encode`: the text is a function of the
/// bytes, and decoding it gives the bytes back.
#[verifier::external_body]
pub(crate) fn base64_encode(bytes: &[u8]) -> (text: String)
    ensures
        text@ == base64(bytes@),
        base64_decoded(text@) is Ok,
        base64_decoded(text@)->Ok_0 == bytes@,
{
    base64::engine::general_purpose::STANDARD.encode(bytes)
}

/// Calls `base64::engine::general_purpose::STANDARD.decode`: the bytes, or the text of the
/// error, are a function of the text.
#[verifier::external_body]
pub(crate) fn base64_decode(text: &str) -> (bytes: Result<Vec<u8>, String>)
    ensures
        match bytes {
            Ok(b) => base64_decoded(text@) matches Ok(x) && x == b@,
            Err(e) => base64_decoded(text@) matches Err(x) && x == e@,
        },
{
    base64::engine::general_purpose::STANDARD.decode(text).map_err(|e| e.to_string())
}

} // verus!
