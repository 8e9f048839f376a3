//! Hybrid keys and signatures: Ed25519 and ML-DSA-65 side by side, and a signature is
//! good only where both halves are.
use crate::hash::{sha256, sha256_digest};
use crate::hextext::{hex_chars, hex_encode};
use crate::pubkey::Pubkey;
use crate::text::{decimal, decimal_text, joined};
use ed25519_dalek::{Signer as _, Verifier as _};
use fips204::traits::{KeyGen as _, SerDes as _, Signer as _, Verifier as _};
use rand::RngCore as _;
use vstd::prelude::*;

verus! {

/// How many bytes an ML-DSA-65 secret key has.
pub const MLDSA_SECRET_LEN: usize = 4032;

/// How many bytes an ML-DSA-65 public key has.
pub const MLDSA_PUBLIC_LEN: usize = 1952;

/// How many bytes an ML-DSA-65 signature has.
pub const MLDSA_SIGNATURE_LEN: usize = 3309;

/// The Ed25519 public key of a secret key.
pub uninterp spec fn ed25519_public(secret: [u8; 32]) -> [u8; 32];

/// The Ed25519 signature of a message by a secret key.
pub uninterp spec fn ed25519_signed(secret: [u8; 32], msg: Seq<u8>) -> [u8; 64];

/// Whether an Ed25519 signature of a message is good under a public key.
pub uninterp spec fn ed25519_verifies(public: [u8; 32], msg: Seq<u8>, signature: [u8; 64]) -> bool;

/// Why bytes are refused as an Ed25519 secret key with its public key.
pub uninterp spec fn ed25519_pair_refusal(bytes: Seq<u8>) -> Seq<char>;

/// The ML-DSA-65 public key of a secret key, or why the bytes are no secret key.
pub uninterp spec fn mldsa_public(secret: Seq<u8>) -> Result<Seq<u8>, Seq<char>>;

/// The bytes are no ML-DSA-65 secret key, or the part of the public key that is kept in
/// them (t0) is the one that their other parts give.
pub uninterp spec fn mldsa_consistent(secret: Seq<u8>) -> bool;

/// Whether an ML-DSA-65 signature of a message is good under a public key.
pub uninterp spec fn mldsa_verifies(public: Seq<u8>, msg: Seq<u8>, signature: Seq<u8>) -> bool;

/// Whether ML-DSA-65 signing, which draws random bytes, can give this signature.
pub uninterp spec fn mldsa_signs(secret: Seq<u8>, msg: Seq<u8>, signature: Seq<u8>) -> bool;

/// Calls `try_fill_bytes` of `rand::rngs::OsRng` for the 32 bytes that are an Ed25519
/// secret key; it fails where the system has no random numbers, and nothing is claimed of
/// the bytes.
#[verifier::external_body]
fn ed25519_generate() -> (secret: Option<[u8; 32]>) {
    let mut secret = [0u8; 32];
    rand::rngs::OsRng.try_fill_bytes(&mut secret).ok().map(|_| secret)
}

/// Calls `SigningKey::from_keypair_bytes` of `ed25519_dalek`: it takes a secret key with
/// its own public key behind it and nothing else, and the reason for a refusal is a
/// function of the bytes.
#[verifier::external_body]
fn ed25519_read_pair(bytes: &[u8]) -> (secret: Result<[u8; 32], String>)
    requires
        bytes@.len() == 64,
    ensures
        match secret {
            Ok(s) => s@ == bytes@.subrange(0, 32) && ed25519_public(s)@ == bytes@.subrange(32, 64),
            Err(reason) => reason@ == ed25519_pair_refusal(bytes@) && !is_ed25519_pair(bytes@),
        },
{
    let pair: [u8; 64] = bytes.try_into().expect("the length is given");
    match ed25519_dalek::SigningKey::from_keypair_bytes(&pair) {
        Ok(key) => Ok(key.to_bytes()),
        Err(e) => Err(e.to_string()),
    }
}

/// An Ed25519 secret key with its public key behind it.
pub open spec fn is_ed25519_pair(bytes: Seq<u8>) -> bool {
    exists|s: [u8; 32]|
        s@ == bytes.subrange(0, 32) && #[trigger] ed25519_public(s)@ == bytes.subrange(32, 64)
}

/// Calls `SigningKey::from_bytes(..).verifying_key()` of `ed25519_dalek`; the public key
/// is a function of the secret one.
#[verifier::external_body]
fn ed25519_public_key(secret: &[u8; 32]) -> (public: [u8; 32])
    ensures
        public == ed25519_public(*secret),
{
    ed25519_dalek::SigningKey::from_bytes(secret).verifying_key().to_bytes()
}

/// Calls `SigningKey::sign` of `ed25519_dalek`: no random bytes go into the signature, so
/// that it is a function of the secret key and the message, and it is good under the public
/// key of the secret one.
#[verifier::external_body]
fn ed25519_sign(secret: &[u8; 32], msg: &[u8]) -> (signature: [u8; 64])
    ensures
        signature == ed25519_signed(*secret, msg@),
        ed25519_verifies(ed25519_public(*secret), msg@, signature),
{
    ed25519_dalek::SigningKey::from_bytes(secret).sign(msg).to_bytes()
}

/// Calls `VerifyingKey::verify` of `ed25519_dalek`. Bytes that are no public key verify
/// nothing.
#[verifier::external_body]
fn ed25519_verify(public: &[u8; 32], msg: &[u8], signature: &[u8; 64]) -> (good: bool)
    ensures
        good == ed25519_verifies(*public, msg@, *signature),
{
    match ed25519_dalek::VerifyingKey::from_bytes(public) {
        Ok(key) => key.verify(msg, &ed25519_dalek::Signature::from_bytes(signature)).is_ok(),
        Err(_) => false,
    }
}

/// An ML-DSA-65 keypair.
pub struct MlDsaPair {
    pub public: Vec<u8>,
    pub secret: Vec<u8>,
}

/// Calls `ml_dsa_65::KG::try_keygen` of `fips204`, which fails where the system has no
/// random numbers. The secret key is consistent, the public key is its own, and whatever
/// is signed with the secret key is good under it.
#[verifier::external_body]
fn mldsa_generate() -> (pair: Option<MlDsaPair>)
    ensures
        pair is Some ==> pair->0.public@.len() == MLDSA_PUBLIC_LEN && pair->0.secret@.len()
            == MLDSA_SECRET_LEN,
        pair is Some ==> mldsa_consistent(pair->0.secret@),
        pair is Some ==> mldsa_public(pair->0.secret@) == Ok::<Seq<u8>, Seq<char>>(
            pair->0.public@,
        ),
        pair is Some ==> pair_is_honest(pair->0.public@, pair->0.secret@),
{
    let (public, secret) = fips204::ml_dsa_65::KG::try_keygen().ok()?;
    Some(MlDsaPair { public: public.into_bytes().to_vec(), secret: secret.into_bytes().to_vec() })
}

/// Whatever is signed with the secret key is good under the public key.
pub open spec fn pair_is_honest(public: Seq<u8>, secret: Seq<u8>) -> bool {
    forall|msg: Seq<u8>, signature: Seq<u8>| #[trigger]
        mldsa_signs(secret, msg, signature) ==> mldsa_verifies(public, msg, signature)
}

/// Calls `PrivateKey::try_from_bytes(..)` of `fips204` for `ml_dsa_65` and, where it takes
/// the bytes, `get_public_key()`; the public key, or the reason for the refusal, is a
/// function of the bytes. On a secret key that is not consistent `get_public_key` fails a
/// debug assertion, so such bytes are shut out.
#[verifier::external_body]
fn mldsa_public_key(secret: &[u8]) -> (public: Result<Vec<u8>, String>)
    requires
        secret@.len() == MLDSA_SECRET_LEN,
        mldsa_consistent(secret@),
    ensures
        match public {
            Ok(p) => mldsa_public(secret@) == Ok::<Seq<u8>, Seq<char>>(p@) && p@.len()
                == MLDSA_PUBLIC_LEN,
            Err(reason) => mldsa_public(secret@) == Err::<Seq<u8>, Seq<char>>(reason@),
        },
{
    let bytes: [u8; 4032] = secret.try_into().expect("the length is given");
    match fips204::ml_dsa_65::PrivateKey::try_from_bytes(bytes) {
        Ok(key) => Ok(key.get_public_key().into_bytes().to_vec()),
        Err(e) => Err(e.to_string()),
    }
}

/// Calls `PrivateKey::try_sign` of `fips204` for `ml_dsa_65` with an empty context. It
/// draws random bytes, and fails where the system has none or where none of its bounded
/// number of tries gives a signature.
#[verifier::external_body]
fn mldsa_sign(secret: &[u8], msg: &[u8]) -> (signature: Option<Vec<u8>>)
    requires
        secret@.len() == MLDSA_SECRET_LEN,
        mldsa_consistent(secret@),
    ensures
        signature is Some ==> mldsa_signs(secret@, msg@, signature->0@),
        signature is Some ==> signature->0@.len() == MLDSA_SIGNATURE_LEN,
{
    let bytes: [u8; 4032] = secret.try_into().ok()?;
    let key = fips204::ml_dsa_65::PrivateKey::try_from_bytes(bytes).ok()?;
    Some(key.try_sign(msg, &[]).ok()?.to_vec())
}

/// Calls `PublicKey::verify` of `fips204` for `ml_dsa_65` with an empty context. Bytes
/// that are no public key verify nothing.
#[verifier::external_body]
fn mldsa_verify(public: &[u8], msg: &[u8], signature: &[u8]) -> (good: bool)
    requires
        public@.len() == MLDSA_PUBLIC_LEN,
        signature@.len() == MLDSA_SIGNATURE_LEN,
    ensures
        good == mldsa_verifies(public@, msg@, signature@),
{
    let public: [u8; 1952] = public.try_into().expect("the length is given");
    let signature: [u8; 3309] = signature.try_into().expect("the length is given");
    match fips204::ml_dsa_65::PublicKey::try_from_bytes(public) {
        Ok(key) => key.verify(msg, &signature, &[]),
        Err(_) => false,
    }
}

/// An Ed25519 signature.
#[derive(Clone, Copy, Debug)]
pub struct Signature(pub [u8; 64]);

impl Signature {
    /// The bytes of the signature.
    pub fn to_bytes(&self) -> (bytes: [u8; 64])
        ensures
            bytes == self.0,
    {
        self.0
    }

    /// The signature in hexadecimal digits.
    pub fn to_string(&self) -> (text: String)
        ensures
            text@ == hex_chars(self.0@),
    {
        hex_encode(self.0.as_slice())
    }
}

/// Both public keys behind an address.
#[derive(Debug, PartialEq, Eq)]
pub struct PublicKeyBundle {
    pub ed25519: [u8; 32],
    pub mldsa: Vec<u8>,
}

/// What a bundle holds.
#[verifier::ext_equal]
pub ghost struct BundleData {
    pub ed25519: [u8; 32],
    pub mldsa: Seq<u8>,
}

impl View for PublicKeyBundle {
    type V = BundleData;

    open spec fn view(&self) -> BundleData {
        BundleData { ed25519: self.ed25519, mldsa: self.mldsa@ }
    }
}

impl Clone for PublicKeyBundle {
    fn clone(&self) -> (copy: Self)
        ensures
            copy.ed25519 == self.ed25519,
            copy.mldsa@ == self.mldsa@,
    {
        let mldsa = self.mldsa.clone();
        proof {
            assert(mldsa@ =~= self.mldsa@);
        }
        PublicKeyBundle { ed25519: self.ed25519, mldsa }
    }
}

/// The address of a pair of public keys: the hash of the one behind the other.
pub open spec fn address_of(ed25519: [u8; 32], mldsa: Seq<u8>) -> [u8; 32] {
    sha256(ed25519@ + mldsa)
}

impl PublicKeyBundle {
    /// The address of the keys.
    pub fn to_address(&self) -> (address: Pubkey)
        ensures
            address.0 == address_of(self.ed25519, self.mldsa@),
    {
        let mut data: Vec<u8> = Vec::new();
        data.extend_from_slice(self.ed25519.as_slice());
        data.extend_from_slice(self.mldsa.as_slice());
        proof {
            assert(data@ =~= self.ed25519@ + self.mldsa@);
        }
        Pubkey(sha256_digest(data.as_slice()))
    }
}

/// A signature under both schemes.
#[derive(Debug)]
pub struct HybridSignature {
    pub ed25519: Signature,
    pub mldsa: Vec<u8>,
}

/// What a signature holds.
#[verifier::ext_equal]
pub ghost struct SignatureData {
    pub ed25519: [u8; 64],
    pub mldsa: Seq<u8>,
}

impl View for HybridSignature {
    type V = SignatureData;

    open spec fn view(&self) -> SignatureData {
        SignatureData { ed25519: self.ed25519.0, mldsa: self.mldsa@ }
    }
}

impl Clone for HybridSignature {
    fn clone(&self) -> (copy: Self)
        ensures
            copy.ed25519 == self.ed25519,
            copy.mldsa@ == self.mldsa@,
    {
        let mldsa = self.mldsa.clone();
        proof {
            assert(mldsa@ =~= self.mldsa@);
        }
        HybridSignature { ed25519: self.ed25519, mldsa }
    }
}

/// A signature is good: both halves are, and the keys and signatures have their lengths.
pub open spec fn signature_good(
    ed25519: [u8; 32],
    mldsa: Seq<u8>,
    msg: Seq<u8>,
    ed25519_signature: [u8; 64],
    mldsa_signature: Seq<u8>,
) -> bool {
    &&& ed25519_verifies(ed25519, msg, ed25519_signature)
    &&& mldsa.len() == MLDSA_PUBLIC_LEN
    &&& mldsa_signature.len() == MLDSA_SIGNATURE_LEN
    &&& mldsa_verifies(mldsa, msg, mldsa_signature)
}

/// Whether `signature` is a good signature of `msg` under the keys of `bundle`.
pub fn verify(bundle: &PublicKeyBundle, msg: &[u8], signature: &HybridSignature) -> (good: bool)
    ensures
        good == signature_good(
            bundle.ed25519,
            bundle.mldsa@,
            msg@,
            signature.ed25519.0,
            signature.mldsa@,
        ),
{
    if !ed25519_verify(&bundle.ed25519, msg, &signature.ed25519.0) {
        return false;
    }
    if bundle.mldsa.len() != MLDSA_PUBLIC_LEN {
        return false;
    }
    if signature.mldsa.len() != MLDSA_SIGNATURE_LEN {
        return false;
    }
    mldsa_verify(bundle.mldsa.as_slice(), msg, signature.mldsa.as_slice())
}

/// Why bytes are no keypair.
#[derive(Debug)]
pub enum KeypairError {
    /// There are this many bytes in place of the right number.
    WrongLength(u64),
    /// The Ed25519 public key is not the one of the secret key; the reason is given.
    InvalidEd25519(String),
    /// The ML-DSA-65 secret key is none; the reason is given.
    InvalidMlDsa(String),
}

impl KeypairError {
    /// What is said about the error.
    pub open spec fn said(&self) -> Seq<char> {
        match self {
            KeypairError::WrongLength(n) => "invalid keypair: expected 4096 bytes, got "@ + decimal(
                *n as nat,
            ),
            KeypairError::InvalidEd25519(reason) => "invalid ed25519 keypair bytes: "@ + reason@,
            KeypairError::InvalidMlDsa(reason) => "invalid ML-DSA-65 secret key: "@ + reason@,
        }
    }

    /// The error in words.
    pub fn message(&self) -> (text: String)
        ensures
            text@ == self.said(),
    {
        match self {
            KeypairError::WrongLength(n) => joined(
                "invalid keypair: expected 4096 bytes, got ",
                decimal_text(*n).as_str(),
            ),
            KeypairError::InvalidEd25519(reason) => joined(
                "invalid ed25519 keypair bytes: ",
                reason.as_str(),
            ),
            KeypairError::InvalidMlDsa(reason) => joined(
                "invalid ML-DSA-65 secret key: ",
                reason.as_str(),
            ),
        }
    }
}

/// A hybrid keypair.
pub struct Keypair {
    ed25519: [u8; 32],
    mldsa_sk: Vec<u8>,
    mldsa_pk: Vec<u8>,
}

impl Keypair {
    /// The Ed25519 secret key.
    pub closed spec fn ed25519_secret(&self) -> [u8; 32] {
        self.ed25519
    }

    /// The ML-DSA-65 secret key.
    pub closed spec fn mldsa_secret(&self) -> Seq<u8> {
        self.mldsa_sk@
    }

    /// The ML-DSA-65 public key.
    pub closed spec fn mldsa_public_bytes(&self) -> Seq<u8> {
        self.mldsa_pk@
    }

    /// The ML-DSA-65 public key is the one of the secret key, which is consistent.
    pub open spec fn wf(&self) -> bool {
        &&& self.mldsa_secret().len() == MLDSA_SECRET_LEN
        &&& self.mldsa_public_bytes().len() == MLDSA_PUBLIC_LEN
        &&& mldsa_consistent(self.mldsa_secret())
        &&& mldsa_public(self.mldsa_secret()) == Ok::<Seq<u8>, Seq<char>>(
            self.mldsa_public_bytes(),
        )
    }

    /// What the ML-DSA-65 secret key signs is good under the public key, as it is for
    /// every keypair that was generated.
    pub open spec fn honest(&self) -> bool {
        pair_is_honest(self.mldsa_public_bytes(), self.mldsa_secret())
    }

    /// The bytes of the keypair: the Ed25519 secret and public keys, then the ML-DSA-65
    /// secret key.
    pub open spec fn encoded(&self) -> Seq<u8> {
        self.ed25519_secret()@ + ed25519_public(self.ed25519_secret())@ + self.mldsa_secret()
    }

    /// A fresh keypair, or none where the system has no random numbers.
    pub fn generate() -> (keypair: Option<Self>)
        ensures
            keypair is Some ==> keypair->0.wf() && keypair->0.honest(),
    {
        Keypair::from_generated(ed25519_generate(), mldsa_generate())
    }

    /// The keypair of an Ed25519 secret key and an ML-DSA-65 keypair; none exactly where one
    /// of the two could not be generated.
    pub fn from_generated(ed25519: Option<[u8; 32]>, mldsa: Option<MlDsaPair>) -> (keypair: Option<
        Self,
    >)
        ensures
            match (ed25519, mldsa) {
                (Some(secret), Some(pair)) => {
                    &&& keypair is Some
                    &&& keypair->0.ed25519_secret() == secret
                    &&& keypair->0.mldsa_secret() == pair.secret@
                    &&& keypair->0.mldsa_public_bytes() == pair.public@
                },
                _ => keypair is None,
            },
    {
        match (ed25519, mldsa) {
            (Some(ed25519), Some(pair)) => Some(
                Keypair { ed25519, mldsa_sk: pair.secret, mldsa_pk: pair.public },
            ),
            _ => None,
        }
    }

    /// The bytes of a fresh keypair and the keypair that is read back from them, or none
    /// where the system has no random numbers.
    pub fn generate_bytes() -> (written: Option<(Vec<u8>, Self)>)
        ensures
            written matches Some((bytes, keypair)) ==> keypair.wf() && keypair.honest() && bytes@
                == keypair.encoded(),
    {
        Keypair::read_back(Keypair::generate())
    }

    /// The bytes of a keypair and the keypair that is read back from them; none exactly where
    /// there was no keypair.
    pub fn read_back(keypair: Option<Self>) -> (written: Option<(Vec<u8>, Self)>)
        requires
            keypair is Some ==> keypair->0.wf(),
        ensures
            match keypair {
                Some(k) => written matches Some((bytes, again)) && bytes@ == k.encoded()
                    && again.wf() && again.encoded() == k.encoded() && (k.honest()
                    ==> again.honest()),
                None => written is None,
            },
    {
        let keypair = match keypair {
            Some(k) => k,
            None => return None,
        };
        let bytes = keypair.to_bytes();
        proof {
            law_keypair_bytes_accepted(keypair);
        }
        match Keypair::from_bytes(bytes.as_slice()) {
            Ok(again) => {
                proof {
                    law_keypair_round_trip(keypair, again);
                }
                Some((bytes, again))
            },
            Err(_) => None,
        }
    }

    /// The keypair that `bytes` stand for. Bytes with an ML-DSA-65 secret key that is not
    /// consistent are shut out: from such a key no public key can be derived.
    pub fn from_bytes(bytes: &[u8]) -> (keypair: Result<Self, KeypairError>)
        requires
            bytes@.len() == 4096 && is_ed25519_pair(bytes@.subrange(0, 64)) ==> mldsa_consistent(
                bytes@.subrange(64, 4096),
            ),
        ensures
            match keypair {
                Ok(k) => k.wf() && k.encoded() == bytes@,
                Err(KeypairError::WrongLength(n)) => bytes@.len() != 4096 && n == bytes@.len(),
                Err(KeypairError::InvalidEd25519(reason)) => {
                    &&& bytes@.len() == 4096
                    &&& !is_ed25519_pair(bytes@.subrange(0, 64))
                    &&& reason@ == ed25519_pair_refusal(bytes@.subrange(0, 64))
                },
                Err(KeypairError::InvalidMlDsa(reason)) => {
                    &&& bytes@.len() == 4096
                    &&& is_ed25519_pair(bytes@.subrange(0, 64))
                    &&& mldsa_public(bytes@.subrange(64, 4096)) == Err::<Seq<u8>, Seq<char>>(
                        reason@,
                    )
                },
            },
    {
        if bytes.len() != 64 + MLDSA_SECRET_LEN {
            return Err(KeypairError::WrongLength(bytes.len() as u64));
        }
        let pair = vstd::slice::slice_subrange(bytes, 0, 64);
        let secret = vstd::slice::slice_subrange(bytes, 64, 64 + MLDSA_SECRET_LEN);
        let ed25519: [u8; 32] = match ed25519_read_pair(pair) {
            Ok(s) => s,
            Err(reason) => return Err(KeypairError::InvalidEd25519(reason)),
        };
        proof {
            assert(ed25519_public(ed25519)@ == pair@.subrange(32, 64));
            assert(is_ed25519_pair(pair@));
        }
        match mldsa_public_key(secret) {
            Err(reason) => Err(KeypairError::InvalidMlDsa(reason)),
            Ok(mldsa_pk) => {
                let mut mldsa_sk: Vec<u8> = Vec::with_capacity(MLDSA_SECRET_LEN);
                mldsa_sk.extend_from_slice(secret);
                let keypair = Keypair { ed25519, mldsa_sk, mldsa_pk };
                proof {
                    assert(mldsa_sk@ =~= bytes@.subrange(64, 4096));
                    assert(keypair.encoded() =~= bytes@);
                }
                Ok(keypair)
            },
        }
    }

    /// The bytes of the keypair.
    pub fn to_bytes(&self) -> (bytes: Vec<u8>)
        ensures
            bytes@ == self.encoded(),
    {
        let mut out: Vec<u8> = Vec::with_capacity(64 + MLDSA_SECRET_LEN);
        out.extend_from_slice(self.ed25519.as_slice());
        out.extend_from_slice(ed25519_public_key(&self.ed25519).as_slice());
        out.extend_from_slice(self.mldsa_sk.as_slice());
        proof {
            assert(out@ =~= self.encoded());
        }
        out
    }

    /// Both public keys.
    pub fn public_key_bundle(&self) -> (bundle: PublicKeyBundle)
        ensures
            bundle.ed25519 == ed25519_public(self.ed25519_secret()),
            bundle.mldsa@ == self.mldsa_public_bytes(),
    {
        let mldsa = self.mldsa_pk.clone();
        proof {
            assert(mldsa@ =~= self.mldsa_pk@);
        }
        PublicKeyBundle { ed25519: ed25519_public_key(&self.ed25519), mldsa }
    }

    /// The address of the keypair.
    pub fn pubkey(&self) -> (address: Pubkey)
        ensures
            address.0 == address_of(
                ed25519_public(self.ed25519_secret()),
                self.mldsa_public_bytes(),
            ),
    {
        self.public_key_bundle().to_address()
    }

    /// A signature of `msg`, or none where none could be drawn. It is good
    /// under the public keys of the keypair, where the keypair was generated.
    pub fn sign(&self, msg: &[u8]) -> (signature: Option<HybridSignature>)
        requires
            self.wf(),
        ensures
            signature is Some ==> signature->0.ed25519.0 == ed25519_signed(
                self.ed25519_secret(),
                msg@,
            ),
            signature is Some ==> ed25519_verifies(
                ed25519_public(self.ed25519_secret()),
                msg@,
                signature->0.ed25519.0,
            ),
            signature is Some ==> mldsa_signs(self.mldsa_secret(), msg@, signature->0.mldsa@),
            signature is Some && self.honest() ==> signature_good(
                ed25519_public(self.ed25519_secret()),
                self.mldsa_public_bytes(),
                msg@,
                signature->0.ed25519.0,
                signature->0.mldsa@,
            ),
    {
        self.sign_with(msg, mldsa_sign(self.mldsa_sk.as_slice(), msg))
    }

    /// The signature of `msg` whose ML-DSA-65 half is given; none exactly where that half
    /// could not be made.
    pub fn sign_with(&self, msg: &[u8], mldsa: Option<Vec<u8>>) -> (signature: Option<
        HybridSignature,
    >)
        ensures
            match mldsa {
                Some(half) => {
                    &&& signature is Some
                    &&& signature->0.ed25519.0 == ed25519_signed(self.ed25519_secret(), msg@)
                    &&& ed25519_verifies(
                        ed25519_public(self.ed25519_secret()),
                        msg@,
                        signature->0.ed25519.0,
                    )
                    &&& signature->0.mldsa@ == half@
                },
                None => signature is None,
            },
    {
        match mldsa {
            Some(mldsa) => {
                let ed25519: [u8; 64] = ed25519_sign(&self.ed25519, msg);
                Some(HybridSignature { ed25519: Signature(ed25519), mldsa })
            },
            None => None,
        }
    }
}

/// Reading back the bytes of a keypair gives its keys, so its address and what it can
/// sign stay the same.
pub proof fn law_keypair_round_trip(a: Keypair, b: Keypair)
    requires
        a.wf(),
        b.wf(),
        b.encoded() == a.encoded(),
    ensures
        b.ed25519_secret() == a.ed25519_secret(),
        b.mldsa_secret() == a.mldsa_secret(),
        b.mldsa_public_bytes() == a.mldsa_public_bytes(),
        a.honest() ==> b.honest(),
{
    let x = a.encoded();
    let y = b.encoded();
    assert forall|i: int| 0 <= i < 32 implies a.ed25519_secret()[i] == b.ed25519_secret()[i] by {
        assert(x[i] == a.ed25519_secret()@[i] && y[i] == b.ed25519_secret()@[i]);
    }
    assert(a.ed25519_secret() =~= b.ed25519_secret());
    assert(a.mldsa_secret() =~= x.subrange(64, x.len() as int));
    assert(b.mldsa_secret() =~= y.subrange(64, y.len() as int));
}

/// The bytes of a well-formed keypair are accepted, so that what was written is read
/// back.
pub proof fn law_keypair_bytes_accepted(a: Keypair)
    requires
        a.wf(),
    ensures
        a.encoded().len() == 4096,
        is_ed25519_pair(a.encoded().subrange(0, 64)),
        mldsa_consistent(a.encoded().subrange(64, 4096)),
        mldsa_public(a.encoded().subrange(64, 4096)) is Ok,
{
    let x = a.encoded();
    let s = a.ed25519_secret();
    let pair = x.subrange(0, 64);
    assert(pair.subrange(0, 32) =~= s@);
    assert(pair.subrange(32, 64) =~= ed25519_public(s)@);
    assert(x.subrange(64, 4096) =~= a.mldsa_secret());
}

} // verus!
