//! Bytes written as hexadecimal digits.
use crate::codec::array_at;
use crate::text::{decimal, decimal_text, joined};
use vstd::prelude::*;
use vstd::string::*;
use vstd::utf8::*;

verus! {

/// The value of a hexadecimal digit in ASCII.
pub open spec fn hex_digit(b: u8) -> Option<nat> {
    if 0x30 <= b <= 0x39 {
        Some((b - 0x30) as nat)
    } else if 0x61 <= b <= 0x66 {
        Some((b - 0x61 + 10) as nat)
    } else if 0x41 <= b <= 0x46 {
        Some((b - 0x41 + 10) as nat)
    } else {
        None
    }
}

/// The bytes at `2 * i` and `2 * i + 1` are the digits of `b`.
pub open spec fn spells_byte(digits: Seq<u8>, i: int, b: u8) -> bool {
    &&& hex_digit(digits[2 * i]) is Some
    &&& hex_digit(digits[2 * i + 1]) is Some
    &&& b == 16 * hex_digit(digits[2 * i])->0 + hex_digit(digits[2 * i + 1])->0
}

/// `digits` are two for each of `bytes`.
pub open spec fn spells(digits: Seq<u8>, bytes: Seq<u8>) -> bool {
    &&& digits.len() == 2 * bytes.len()
    &&& forall|i: int| 0 <= i < bytes.len() ==> spells_byte(digits, i, #[trigger] bytes[i])
}

/// The lower-case character of a digit.
pub open spec fn hex_char(d: nat) -> char {
    if d < 10 {
        (48 + d) as char
    } else {
        (87 + d) as char
    }
}

/// Two lower-case digits for each byte.
pub open spec fn hex_chars(bytes: Seq<u8>) -> Seq<char> {
    Seq::new(
        2 * bytes.len(),
        |k: int|
            if k % 2 == 0 {
                hex_char((bytes[k / 2] / 16) as nat)
            } else {
                hex_char((bytes[k / 2] % 16) as nat)
            },
    )
}

/// Calls `hex::encode`: two lower-case digits for each byte.
#[verifier::external_body]
pub(crate) fn hex_encode(bytes: &[u8]) -> (text: String)
    ensures
        text@ == hex_chars(bytes@),
{
    hex::encode(bytes)
}

/// Why a text is refused as hexadecimal.
pub uninterp spec fn hex_refusal(text: Seq<char>) -> Seq<char>;

/// Calls `hex::decode`: the bytes that the digits spell, in either case, or an error where
/// their number is odd or a character is no digit. What the error says is a function of the
/// text, and of an odd number of digits it says just that.
#[verifier::external_body]
pub(crate) fn hex_decode(text: &str) -> (bytes: Result<Vec<u8>, String>)
    ensures
        match bytes {
            Ok(b) => spells(text.spec_bytes(), b@),
            Err(reason) => {
                &&& reason@ == hex_refusal(text@)
                &&& text.spec_bytes().len() % 2 != 0 ==> reason@ == "Odd number of digits"@
                &&& text.spec_bytes().len() % 2 != 0 || exists|i: int|
                    0 <= i < text.spec_bytes().len() && hex_digit(
                        #[trigger] text.spec_bytes()[i],
                    ) is None
            },
        },
{
    hex::decode(text).map_err(|e| e.to_string())
}

/// What was written in hexadecimal digits is read back.
pub proof fn law_hex_round_trip(bytes: Seq<u8>)
    ensures
        spells(encode_utf8(hex_chars(bytes)), bytes),
        forall|other: Seq<u8>| #[trigger]
            spells(encode_utf8(hex_chars(bytes)), other) ==> other == bytes,
{
    let text = hex_chars(bytes);
    assert(is_ascii_chars(text)) by {
        assert forall|k: int| 0 <= k < text.len() implies 0 <= (#[trigger] text[k]) as nat && (
        text[k] as nat) < 128 by {}
    }
    is_ascii_chars_encode_utf8(text);
    let d = encode_utf8(text);
    assert(d =~= Seq::new(text.len(), |i: int| text.index(i) as u8));
    assert forall|i: int| 0 <= i < bytes.len() implies spells_byte(d, i, #[trigger] bytes[i]) by {
        let b = bytes[i];
        assert((2 * i) / 2 == i && (2 * i) % 2 == 0);
        assert((2 * i + 1) / 2 == i && (2 * i + 1) % 2 == 1);
        assert(d[2 * i] == hex_char((b / 16) as nat) as u8);
        assert(d[2 * i + 1] == hex_char((b % 16) as nat) as u8);
        assert(hex_digit(d[2 * i]) == Some((b / 16) as nat));
        assert(hex_digit(d[2 * i + 1]) == Some((b % 16) as nat));
    }
    assert forall|other: Seq<u8>| #[trigger] spells(d, other) implies other == bytes by {
        assert forall|i: int| 0 <= i < bytes.len() implies other[i] == bytes[i] by {
            assert(spells_byte(d, i, other[i]));
            assert(spells_byte(d, i, bytes[i]));
        }
        assert(other =~= bytes);
    }
}

/// Why a text is not 32 bytes in hexadecimal.
#[derive(Debug)]
pub enum HashTextError {
    /// It is not hexadecimal; the reason is given.
    NotHex(String),
    /// It stands for this many bytes.
    WrongLength(u64),
}

impl HashTextError {
    /// What is said about the error.
    pub open spec fn said(&self) -> Seq<char> {
        match self {
            HashTextError::NotHex(reason) => reason@,
            HashTextError::WrongLength(n) => "expected 32 bytes, got "@ + decimal(*n as nat),
        }
    }

    /// The error in words.
    pub fn message(&self) -> (text: String)
        ensures
            text@ == self.said(),
    {
        match self {
            HashTextError::NotHex(reason) => reason.clone(),
            HashTextError::WrongLength(n) => joined(
                "expected 32 bytes, got ",
                decimal_text(*n).as_str(),
            ),
        }
    }
}

/// The 32 bytes that a text in hexadecimal digits stands for.
pub fn hash_from_hex(text: &str) -> (hash: Result<[u8; 32], HashTextError>)
    ensures
        match hash {
            Ok(h) => spells(text.spec_bytes(), h@),
            Err(HashTextError::NotHex(reason)) => {
                &&& reason@ == hex_refusal(text@)
                &&& text.spec_bytes().len() % 2 != 0 ==> reason@ == "Odd number of digits"@
                &&& forall|b: Seq<u8>| !#[trigger] spells(text.spec_bytes(), b)
            },
            Err(HashTextError::WrongLength(n)) => n != 32 && text.spec_bytes().len() == 2 * n
                && exists|b: Seq<u8>| #[trigger] spells(text.spec_bytes(), b),
        },
{
    match hex_decode(text) {
        Err(reason) => {
            proof {
                let d = text.spec_bytes();
                assert forall|b: Seq<u8>| !#[trigger] spells(d, b) by {
                    if spells(d, b) {
                        let i = choose|i: int|
                            0 <= i < d.len() && hex_digit(#[trigger] d[i]) is None;
                        assert(spells_byte(d, i / 2, b[i / 2]));
                    }
                }
            }
            Err(HashTextError::NotHex(reason))
        },
        Ok(b) => {
            if b.len() != 32 {
                return Err(HashTextError::WrongLength(b.len() as u64));
            }
            let h: [u8; 32] = array_at(b.as_slice(), 0);
            proof {
                assert(h@ =~= b@);
            }
            Ok(h)
        },
    }
}

} // verus!
