//! Backups of a wallet that a password protects: Argon2id makes a key out of the password,
//! and AES-256-GCM seals the contents with it.
use crate::base64text::{base64, base64_decode, base64_decoded, base64_encode};
use crate::text::{joined, text_from_utf8};
use aes_gcm::aead::{Aead, KeyInit};
use rand::RngCore;
use vstd::prelude::*;
use vstd::string::*;
use vstd::utf8::*;

verus! {

/// The number that a backup is marked with.
pub const KEYSTORE_VERSION: u64 = 1;

/// How the key is made out of the password.
pub const KDF: &'static str = "argon2id";

/// How the contents are sealed.
pub const CIPHER: &'static str = "aes-256-gcm";

/// How many bytes are sealed at once, at most.
pub const SEAL_LIMIT: u64 = 68_719_476_736;

/// The 32 bytes that Argon2id, with its default parameters, makes out of a password and
/// a salt.
pub uninterp spec fn argon2_key(password: Seq<u8>, salt: Seq<u8>) -> [u8; 32];

/// What AES-256-GCM makes out of a plain text.
pub uninterp spec fn aes_gcm_sealed(key: [u8; 32], nonce: Seq<u8>, plain: Seq<u8>) -> Seq<u8>;

/// What AES-256-GCM finds in a sealed text, where it is genuine.
pub uninterp spec fn aes_gcm_opened(key: [u8; 32], nonce: Seq<u8>, sealed: Seq<u8>) -> Option<
    Seq<u8>,
>;

/// The lengths that Argon2id takes.
pub open spec fn key_can_be_made(password: Seq<u8>, salt: Seq<u8>) -> bool {
    password.len() <= u32::MAX && 8 <= salt.len() <= u32::MAX
}

/// Why no key can be made, where the lengths do not allow it.
pub open spec fn derivation_fault(password: Seq<u8>, salt: Seq<u8>) -> Seq<char> {
    if password.len() > u32::MAX {
        "password is too long"@
    } else if salt.len() < 8 {
        "salt is too short"@
    } else {
        "salt is too long"@
    }
}

/// Calls `argon2::Argon2::default().hash_password_into` for 32 bytes: they are a function
/// of the password and the salt. It fails where the salt has fewer than 8 bytes, or one of
/// the two has more than `u32::MAX`, and says which, the password first.
#[verifier::external_body]
fn argon2_hash(password: &[u8], salt: &[u8]) -> (key: Result<[u8; 32], String>)
    ensures
        match key {
            Ok(k) => key_can_be_made(password@, salt@) && k == argon2_key(password@, salt@),
            Err(reason) => !key_can_be_made(password@, salt@) && reason@ == derivation_fault(
                password@,
                salt@,
            ),
        },
{
    let mut key = [0u8; 32];
    match argon2::Argon2::default().hash_password_into(password, salt, &mut key) {
        Ok(_) => Ok(key),
        Err(e) => Err(e.to_string()),
    }
}

/// Calls `encrypt` of `aes_gcm::Aes256Gcm` without associated data: the sealed text is a
/// function of the key, the nonce and the plain text, and opening it with the same key and
/// nonce gives the plain text back.
#[verifier::external_body]
fn aes_gcm_encrypt(key: &[u8; 32], nonce: &[u8], plain: &[u8]) -> (sealed: Option<Vec<u8>>)
    requires
        nonce@.len() == 12,
        plain@.len() <= SEAL_LIMIT,
    ensures
        sealed is Some,
        sealed->0@ == aes_gcm_sealed(*key, nonce@, plain@),
        sealed->0@.len() == plain@.len() + 16,
        aes_gcm_opened(*key, nonce@, sealed->0@) == Some(plain@),
{
    let cipher = aes_gcm::Aes256Gcm::new(aes_gcm::Key::<aes_gcm::Aes256Gcm>::from_slice(key));
    cipher.encrypt(aes_gcm::Nonce::from_slice(nonce), plain).ok()
}

/// Calls `decrypt` of `aes_gcm::Aes256Gcm` without associated data: the plain text, or the
/// failure, is a function of the key, the nonce and the sealed text.
#[verifier::external_body]
fn aes_gcm_decrypt(key: &[u8; 32], nonce: &[u8], sealed: &[u8]) -> (plain: Option<Vec<u8>>)
    requires
        nonce@.len() == 12,
    ensures
        match plain {
            Some(p) => aes_gcm_opened(*key, nonce@, sealed@) == Some(p@),
            None => aes_gcm_opened(*key, nonce@, sealed@) is None,
        },
{
    let cipher = aes_gcm::Aes256Gcm::new(aes_gcm::Key::<aes_gcm::Aes256Gcm>::from_slice(key));
    cipher.decrypt(aes_gcm::Nonce::from_slice(nonce), sealed).ok()
}

/// Calls `try_fill_bytes` of `rand::rngs::OsRng`: as many bytes as asked for, or none where
/// the system has no random numbers. Nothing is claimed of the bytes.
#[verifier::external_body]
fn random_bytes(n: usize) -> (bytes: Option<Vec<u8>>)
    ensures
        bytes is Some ==> bytes->0@.len() == n,
{
    let mut bytes = vec![0u8; n];
    rand::rngs::OsRng.try_fill_bytes(&mut bytes).ok().map(|_| bytes)
}

/// The fields of a backup.
#[derive(Clone, Copy, Debug, PartialEq, Eq)]
pub enum Field {
    Salt,
    Nonce,
    Ciphertext,
}

impl Field {
    /// What the field is called.
    pub open spec fn called(&self) -> Seq<char> {
        match self {
            Field::Salt => "salt"@,
            Field::Nonce => "nonce"@,
            Field::Ciphertext => "ciphertext"@,
        }
    }

    /// What the field is called.
    pub fn name(&self) -> (name: &'static str)
        ensures
            name@ == self.called(),
    {
        match self {
            Field::Salt => "salt",
            Field::Nonce => "nonce",
            Field::Ciphertext => "ciphertext",
        }
    }
}

/// A backup: three fields in base64. A file can lack any of them.
pub struct Keystore {
    pub salt: Option<String>,
    pub nonce: Option<String>,
    pub ciphertext: Option<String>,
}

/// The texts of a backup.
pub struct KeystoreData {
    pub salt: Option<Seq<char>>,
    pub nonce: Option<Seq<char>>,
    pub ciphertext: Option<Seq<char>>,
}

/// The text of an optional field.
pub open spec fn field_text(field: Option<String>) -> Option<Seq<char>> {
    match field {
        Some(t) => Some(t@),
        None => None,
    }
}

impl Keystore {
    /// The texts.
    pub open spec fn view(&self) -> KeystoreData {
        KeystoreData {
            salt: field_text(self.salt),
            nonce: field_text(self.nonce),
            ciphertext: field_text(self.ciphertext),
        }
    }
}

/// What is wrong with a backup or a password.
pub enum Fault {
    Missing(Field),
    NotBase64(Seq<char>),
    NonceLength,
    KeyDerivation(Seq<char>),
    Sealing,
    Rejected,
    NotText,
    NoRandomness,
}

/// What is said about a fault.
pub open spec fn fault_text(fault: Fault) -> Seq<char> {
    match fault {
        Fault::Missing(f) => "keystore sin campo '"@ + f.called() + "'"@,
        Fault::NotBase64(reason) => "base64 inválido: "@ + reason,
        Fault::NonceLength => "nonce de tamaño inválido"@,
        Fault::KeyDerivation(reason) => "derivación de clave falló: "@ + reason,
        Fault::Sealing => "cifrado falló"@,
        Fault::Rejected => "contraseña incorrecta o archivo dañado"@,
        Fault::NotText => "el contenido descifrado no es texto válido"@,
        Fault::NoRandomness => "no hay números aleatorios"@,
    }
}

/// Why a backup was not made or not opened.
#[derive(Debug)]
pub enum KeystoreError {
    /// The backup lacks a field.
    Missing(Field),
    /// A field is not base64; the reason is given.
    NotBase64(String),
    /// The nonce does not have 12 bytes.
    NonceLength,
    /// No key can be made out of this password and salt; the reason is given.
    KeyDerivation(String),
    /// The contents are too long.
    Sealing,
    /// The password is wrong, or the backup was changed.
    Rejected,
    /// The contents are no text.
    NotText,
    /// The system has no random numbers.
    NoRandomness,
}

impl KeystoreError {
    /// What is wrong.
    pub open spec fn view(&self) -> Fault {
        match self {
            KeystoreError::Missing(f) => Fault::Missing(*f),
            KeystoreError::NotBase64(reason) => Fault::NotBase64(reason@),
            KeystoreError::NonceLength => Fault::NonceLength,
            KeystoreError::KeyDerivation(reason) => Fault::KeyDerivation(reason@),
            KeystoreError::Sealing => Fault::Sealing,
            KeystoreError::Rejected => Fault::Rejected,
            KeystoreError::NotText => Fault::NotText,
            KeystoreError::NoRandomness => Fault::NoRandomness,
        }
    }

    /// What is said about the error.
    pub open spec fn said(&self) -> Seq<char> {
        fault_text(self@)
    }

    /// The error in words.
    pub fn message(&self) -> (text: String)
        ensures
            text@ == self.said(),
    {
        match self {
            KeystoreError::Missing(f) => joined(
                joined("keystore sin campo '", f.name()).as_str(),
                "'",
            ),
            KeystoreError::NotBase64(reason) => joined("base64 inválido: ", reason.as_str()),
            KeystoreError::NonceLength => "nonce de tamaño inválido".to_owned(),
            KeystoreError::KeyDerivation(reason) => joined(
                "derivación de clave falló: ",
                reason.as_str(),
            ),
            KeystoreError::Sealing => "cifrado falló".to_owned(),
            KeystoreError::Rejected => "contraseña incorrecta o archivo dañado".to_owned(),
            KeystoreError::NotText => "el contenido descifrado no es texto válido".to_owned(),
            KeystoreError::NoRandomness => "no hay números aleatorios".to_owned(),
        }
    }
}

/// The bytes of a field.
pub open spec fn field_bytes(text: Option<Seq<char>>, field: Field) -> Result<Seq<u8>, Fault> {
    match text {
        None => Err(Fault::Missing(field)),
        Some(t) => match base64_decoded(t) {
            Ok(b) => Ok(b),
            Err(e) => Err(Fault::NotBase64(e)),
        },
    }
}

fn read_field(text: &Option<String>, field: Field) -> (bytes: Result<Vec<u8>, KeystoreError>)
    ensures
        match bytes {
            Ok(b) => field_bytes(field_text(*text), field) == Ok::<Seq<u8>, Fault>(b@),
            Err(e) => field_bytes(field_text(*text), field) == Err::<Seq<u8>, Fault>(e@),
        },
{
    match text {
        None => Err(KeystoreError::Missing(field)),
        Some(t) => match base64_decode(t.as_str()) {
            Ok(b) => Ok(b),
            Err(e) => Err(KeystoreError::NotBase64(e)),
        },
    }
}

/// What is found behind decoded fields with a password.
pub open spec fn opened_bytes(
    salt: Seq<u8>,
    nonce: Seq<u8>,
    sealed: Seq<u8>,
    password: Seq<char>,
) -> Result<Seq<char>, Fault> {
    if nonce.len() != 12 {
        Err(Fault::NonceLength)
    } else if !key_can_be_made(encode_utf8(password), salt) {
        Err(Fault::KeyDerivation(derivation_fault(encode_utf8(password), salt)))
    } else {
        match aes_gcm_opened(argon2_key(encode_utf8(password), salt), nonce, sealed) {
            None => Err(Fault::Rejected),
            Some(plain) => if valid_utf8(plain) {
                Ok(decode_utf8(plain))
            } else {
                Err(Fault::NotText)
            },
        }
    }
}

/// What is found in a backup with a password.
pub open spec fn opened(backup: KeystoreData, password: Seq<char>) -> Result<Seq<char>, Fault> {
    match field_bytes(backup.salt, Field::Salt) {
        Err(e) => Err(e),
        Ok(salt) => match field_bytes(backup.nonce, Field::Nonce) {
            Err(e) => Err(e),
            Ok(nonce) => match field_bytes(backup.ciphertext, Field::Ciphertext) {
                Err(e) => Err(e),
                Ok(sealed) => opened_bytes(salt, nonce, sealed, password),
            },
        },
    }
}

/// The text that opened bytes are, or why there is none.
pub fn opened_text(plain: Option<Vec<u8>>) -> (text: Result<String, KeystoreError>)
    ensures
        match text {
            Ok(t) => plain is Some && plain->0@ == encode_utf8(t@),
            Err(KeystoreError::Rejected) => plain is None,
            Err(KeystoreError::NotText) => plain is Some && !valid_utf8(plain->0@),
            Err(_) => false,
        },
{
    match plain {
        None => Err(KeystoreError::Rejected),
        Some(p) => match text_from_utf8(p) {
            Some(t) => Ok(t),
            None => Err(KeystoreError::NotText),
        },
    }
}

/// The contents of a backup.
pub fn decrypt(backup: &Keystore, password: &str) -> (contents: Result<String, KeystoreError>)
    ensures
        match contents {
            Ok(t) => opened(backup@, password@) == Ok::<Seq<char>, Fault>(t@),
            Err(e) => opened(backup@, password@) == Err::<Seq<char>, Fault>(e@),
        },
{
    let salt = match read_field(&backup.salt, Field::Salt) {
        Ok(b) => b,
        Err(e) => return Err(e),
    };
    let nonce = match read_field(&backup.nonce, Field::Nonce) {
        Ok(b) => b,
        Err(e) => return Err(e),
    };
    let sealed = match read_field(&backup.ciphertext, Field::Ciphertext) {
        Ok(b) => b,
        Err(e) => return Err(e),
    };
    if nonce.len() != 12 {
        return Err(KeystoreError::NonceLength);
    }
    let key: [u8; 32] = match argon2_hash(password.as_bytes(), salt.as_slice()) {
        Ok(k) => k,
        Err(reason) => return Err(KeystoreError::KeyDerivation(reason)),
    };
    let plain = aes_gcm_decrypt(&key, nonce.as_slice(), sealed.as_slice());
    let contents = opened_text(plain);
    proof {
        if let Ok(t) = &contents {
            encode_utf8_decode_utf8(t@);
            encode_utf8_valid_utf8(t@);
        }
    }
    contents
}

/// The backup of `plain` under a password, with this salt and nonce.
pub open spec fn sealed_backup(
    plain: Seq<char>,
    password: Seq<char>,
    salt: Seq<u8>,
    nonce: Seq<u8>,
) -> KeystoreData {
    KeystoreData {
        salt: Some(base64(salt)),
        nonce: Some(base64(nonce)),
        ciphertext: Some(
            base64(
                aes_gcm_sealed(argon2_key(encode_utf8(password), salt), nonce, encode_utf8(plain)),
            ),
        ),
    }
}

/// Makes a backup with this salt and nonce. The password that made it opens it again.
pub fn seal(plain: &str, password: &str, salt: &[u8], nonce: &[u8]) -> (backup: Result<
    Keystore,
    KeystoreError,
>)
    requires
        nonce@.len() == 12,
    ensures
        match backup {
            Ok(b) => {
                &&& key_can_be_made(encode_utf8(password@), salt@)
                &&& encode_utf8(plain@).len() <= SEAL_LIMIT
                &&& b@ == sealed_backup(plain@, password@, salt@, nonce@)
                &&& opened(b@, password@) == Ok::<Seq<char>, Fault>(plain@)
            },
            Err(KeystoreError::KeyDerivation(reason)) => {
                &&& !key_can_be_made(encode_utf8(password@), salt@)
                &&& reason@ == derivation_fault(encode_utf8(password@), salt@)
            },
            Err(KeystoreError::Sealing) => {
                &&& key_can_be_made(encode_utf8(password@), salt@)
                &&& encode_utf8(plain@).len() > SEAL_LIMIT
            },
            Err(_) => false,
        },
{
    let key: [u8; 32] = match argon2_hash(password.as_bytes(), salt) {
        Ok(k) => k,
        Err(reason) => return Err(KeystoreError::KeyDerivation(reason)),
    };
    let bytes = plain.as_bytes();
    if bytes.len() as u64 > SEAL_LIMIT {
        return Err(KeystoreError::Sealing);
    }
    let sealed = match aes_gcm_encrypt(&key, nonce, bytes) {
        Some(s) => s,
        None => return Err(KeystoreError::Sealing),
    };
    let backup = Keystore {
        salt: Some(base64_encode(salt)),
        nonce: Some(base64_encode(nonce)),
        ciphertext: Some(base64_encode(sealed.as_slice())),
    };
    proof {
        encode_utf8_decode_utf8(plain@);
        encode_utf8_valid_utf8(plain@);
    }
    Ok(backup)
}

/// Makes a backup with a fresh salt and nonce.
pub fn encrypt(plain: &str, password: &str) -> (backup: Result<Keystore, KeystoreError>)
    ensures
        match backup {
            Ok(b) => {
                &&& opened(b@, password@) == Ok::<Seq<char>, Fault>(plain@)
                &&& exists|salt: Seq<u8>, nonce: Seq<u8>|
                    salt.len() == 16 && nonce.len() == 12 && b@ == #[trigger] sealed_backup(
                        plain@,
                        password@,
                        salt,
                        nonce,
                    )
            },
            Err(KeystoreError::KeyDerivation(reason)) => encode_utf8(password@).len() > u32::MAX
                && reason@ == "password is too long"@,
            Err(KeystoreError::Sealing) => encode_utf8(password@).len() <= u32::MAX && encode_utf8(
                plain@,
            ).len() > SEAL_LIMIT,
            Err(KeystoreError::NoRandomness) => true,
            Err(_) => false,
        },
{
    let salt = random_bytes(16);
    let nonce = random_bytes(12);
    seal_drawn(plain, password, salt, nonce)
}

/// Makes a backup with a salt and a nonce that were drawn, or says that one of them could
/// not be drawn.
pub fn seal_drawn(
    plain: &str,
    password: &str,
    salt: Option<Vec<u8>>,
    nonce: Option<Vec<u8>>,
) -> (backup: Result<Keystore, KeystoreError>)
    requires
        nonce is Some ==> nonce->0@.len() == 12,
    ensures
        match backup {
            Ok(b) => {
                &&& salt is Some && nonce is Some
                &&& key_can_be_made(encode_utf8(password@), salt->0@)
                &&& encode_utf8(plain@).len() <= SEAL_LIMIT
                &&& b@ == sealed_backup(plain@, password@, salt->0@, nonce->0@)
                &&& opened(b@, password@) == Ok::<Seq<char>, Fault>(plain@)
            },
            Err(KeystoreError::NoRandomness) => salt is None || nonce is None,
            Err(KeystoreError::KeyDerivation(reason)) => {
                &&& salt is Some && nonce is Some
                &&& !key_can_be_made(encode_utf8(password@), salt->0@)
                &&& reason@ == derivation_fault(encode_utf8(password@), salt->0@)
            },
            Err(KeystoreError::Sealing) => {
                &&& salt is Some && nonce is Some
                &&& key_can_be_made(encode_utf8(password@), salt->0@)
                &&& encode_utf8(plain@).len() > SEAL_LIMIT
            },
            Err(_) => false,
        },
{
    match (salt, nonce) {
        (Some(s), Some(n)) => seal(plain, password, s.as_slice(), n.as_slice()),
        _ => Err(KeystoreError::NoRandomness),
    }
}

/// A backup needs a password of at least 6 characters.
pub fn backup_password_will_do(password: &str) -> (will_do: bool)
    ensures
        will_do == (password@.len() >= 6),
{
    password.unicode_len() >= 6
}

} // verus!
