//! What can be wrong with encoded bytes.
use crate::text::{decimal, decimal_text, joined};
use vstd::prelude::*;

verus! {

/// Why bytes do not stand for a value.
#[derive(Clone, Copy, Debug, PartialEq, Eq, Structural)]
pub enum DecodeError {
    /// There are too few.
    UnexpectedLength,
    /// No variant has this tag.
    UnexpectedTag(u8),
    /// Some are left over.
    NotAllBytesRead,
    /// This byte is neither true nor false.
    InvalidBool(u8),
}

/// The words for a decoding error.
pub open spec fn decode_words(e: DecodeError) -> Seq<char> {
    match e {
        DecodeError::UnexpectedLength => "Unexpected length of input"@,
        DecodeError::UnexpectedTag(tag) => "Unexpected variant tag: "@ + decimal(tag as nat),
        DecodeError::NotAllBytesRead => "Not all bytes read"@,
        DecodeError::InvalidBool(byte) => "Invalid bool representation: "@ + decimal(byte as nat),
    }
}

impl DecodeError {
    /// The error in words.
    pub fn message(&self) -> (text: String)
        ensures
            text@ == decode_words(*self),
    {
        match self {
            DecodeError::UnexpectedLength => "Unexpected length of input".to_owned(),
            DecodeError::UnexpectedTag(tag) => joined(
                "Unexpected variant tag: ",
                decimal_text(*tag as u64).as_str(),
            ),
            DecodeError::NotAllBytesRead => "Not all bytes read".to_owned(),
            DecodeError::InvalidBool(byte) => joined(
                "Invalid bool representation: ",
                decimal_text(*byte as u64).as_str(),
            ),
        }
    }
}

} // verus!
