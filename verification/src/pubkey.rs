//! Addresses and how they are written.
use crate::codec::{filled, repeated};
use crate::hash::digests_equal;
use crate::text::{decimal, decimal_text, joined};
use vstd::prelude::*;

verus! {

/// The base58 text of `bytes`.
pub uninterp spec fn base58(bytes: Seq<u8>) -> Seq<char>;

/// The bytes that a base58 text stands for, or why it stands for none.
pub uninterp spec fn base58_decoded(text: Seq<char>) -> Result<Seq<u8>, Seq<char>>;

/// Calls `bs58::encode(..).into_string()`: the text is a function of the bytes, and
/// decoding it gives the bytes back.
#[verifier::external_body]
fn base58_encode(bytes: &[u8]) -> (text: String)
    ensures
        text@ == base58(bytes@),
        base58_decoded(text@) is Ok,
        base58_decoded(text@)->Ok_0 == bytes@,
{
    bs58::encode(bytes).into_string()
}

/// Calls `bs58::decode(..).into_vec()`: the bytes, or the text of the error, are a
/// function of the text.
#[verifier::external_body]
fn base58_decode(text: &str) -> (bytes: Result<Vec<u8>, String>)
    ensures
        match bytes {
            Ok(b) => base58_decoded(text@) matches Ok(x) && x == b@,
            Err(e) => base58_decoded(text@) matches Err(x) && x == e@,
        },
{
    bs58::decode(text).into_vec().map_err(|e| e.to_string())
}

/// A 32-byte address.
#[derive(Clone, Copy, Debug, PartialEq, Eq, PartialOrd, Ord, Hash)]
pub struct Pubkey(pub [u8; 32]);

/// Why a text is no address.
#[derive(Debug)]
pub enum PubkeyError {
    /// It is not base58; the reason is given.
    NotBase58(String),
    /// It stands for this many bytes, which is not 32.
    WrongLength(u64),
}

impl PubkeyError {
    /// What is said about the error.
    pub open spec fn said(&self) -> Seq<char> {
        match self {
            PubkeyError::NotBase58(reason) => reason@,
            PubkeyError::WrongLength(n) => "invalid pubkey: expected 32 bytes, got "@ + decimal(
                *n as nat,
            ),
        }
    }

    /// The error in words.
    pub fn message(&self) -> (text: String)
        ensures
            text@ == self.said(),
    {
        match self {
            PubkeyError::NotBase58(reason) => reason.clone(),
            PubkeyError::WrongLength(n) => joined(
                "invalid pubkey: expected 32 bytes, got ",
                decimal_text(*n).as_str(),
            ),
        }
    }
}

/// The address whose bytes stand at `at`.
pub open spec fn key_at(data: Seq<u8>, at: int) -> Pubkey {
    choose|k: Pubkey| k.0@ == data.subrange(at, at + 32)
}

/// An address is the one that its bytes stand for.
pub proof fn lemma_key_at(k: Pubkey, data: Seq<u8>, at: int)
    requires
        data.subrange(at, at + 32) == k.0@,
    ensures
        key_at(data, at) == k,
{
    assert(key_at(data, at).0 =~= k.0);
}

/// The address of the system program: 32 zero bytes.
pub open spec fn system_program() -> Pubkey {
    Pubkey(filled(0))
}

/// The bytes of the treasury's address: its name, then zeros.
pub open spec fn treasury_bytes() -> Seq<u8> {
    seq![0x54u8, 0x52, 0x45, 0x41, 0x53, 0x55, 0x52, 0x59] + repeated(0, 24)
}

/// The bytes of the reward pool's address: its name, then zeros.
pub open spec fn reward_pool_bytes() -> Seq<u8> {
    seq![0x53u8, 0x54, 0x41, 0x4B, 0x45, 0x50, 0x4F, 0x4F, 0x4C] + repeated(0, 23)
}

impl Pubkey {
    /// The address with these bytes.
    pub fn new(bytes: [u8; 32]) -> (key: Self)
        ensures
            key.0 == bytes,
    {
        Pubkey(bytes)
    }

    /// The system program: 32 zero bytes.
    pub fn system_program_id() -> (key: Self)
        ensures
            key == system_program(),
    {
        Pubkey([0u8; 32])
    }

    /// The account that holds the supply until it is paid out. No key hashes to it.
    pub fn treasury() -> (key: Self)
        ensures
            key.0@ == treasury_bytes(),
    {
        let bytes: [u8; 32] = [
            0x54, 0x52, 0x45, 0x41, 0x53, 0x55, 0x52, 0x59, 0, 0, 0, 0, 0, 0, 0, 0, 0, 0, 0, 0, 0, 0, 0,
            0, 0, 0, 0, 0, 0, 0, 0, 0,
        ];
        proof {
            assert(bytes@ =~= treasury_bytes());
        }
        Pubkey(bytes)
    }

    /// The account that staking rewards are paid from. No key hashes to it.
    pub fn staking_rewards_pool() -> (key: Self)
        ensures
            key.0@ == reward_pool_bytes(),
    {
        let bytes: [u8; 32] = [
            0x53, 0x54, 0x41, 0x4B, 0x45, 0x50, 0x4F, 0x4F, 0x4C, 0, 0, 0, 0, 0, 0, 0, 0, 0, 0, 0, 0, 0,
            0, 0, 0, 0, 0, 0, 0, 0, 0, 0,
        ];
        proof {
            assert(bytes@ =~= reward_pool_bytes());
        }
        Pubkey(bytes)
    }

    /// The bytes of the address.
    pub fn to_bytes(&self) -> (bytes: [u8; 32])
        ensures
            bytes == self.0,
    {
        self.0
    }

    /// The address in base58. Parsing the text gives the address back.
    pub fn to_string(&self) -> (text: String)
        ensures
            text@ == base58(self.0@),
            (base58_decoded(text@) matches Ok(b) && b == self.0@),
    {
        base58_encode(self.0.as_slice())
    }

    /// The address that a base58 text stands for.
    pub fn parse(text: &str) -> (key: Result<Self, PubkeyError>)
        ensures
            match base58_decoded(text@) {
                Ok(b) => if b.len() == 32 {
                    key matches Ok(k) && k.0@ == b
                } else {
                    key matches Err(PubkeyError::WrongLength(n)) && n == b.len()
                },
                Err(e) => key matches Err(PubkeyError::NotBase58(reason)) && reason@ == e,
            },
    {
        match base58_decode(text) {
            Err(e) => Err(PubkeyError::NotBase58(e)),
            Ok(bytes) => {
                if bytes.len() != 32 {
                    return Err(PubkeyError::WrongLength(bytes.len() as u64));
                }
                let key = Pubkey(crate::codec::array_at(bytes.as_slice(), 0));
                proof {
                    assert(bytes@.subrange(0, 32) =~= bytes@);
                }
                Ok(key)
            },
        }
    }

    /// Whether two addresses are the same.
    pub fn same_as(&self, other: &Pubkey) -> (same: bool)
        ensures
            same == (*self == *other),
    {
        digests_equal(&self.0, &other.0)
    }
}

impl std::str::FromStr for Pubkey {
    type Err = PubkeyError;

    fn from_str(text: &str) -> Result<Self, PubkeyError> {
        Pubkey::parse(text)
    }
}

} // verus!
