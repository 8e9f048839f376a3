//! Addresses and seeds that a wallet derives from its one secret.
use crate::codec::{borsh_write_u32, le_bytes, lemma_le_bytes_len, lemma_le_injective, lemma_pow256};
use crate::hash::{collide, sha3_256, sha3_256_digest};
use crate::pubkey::{base58, base58_decoded, key_at, lemma_key_at, Pubkey, PubkeyError};
use crate::text::{joined, trim, trimmed};
use vstd::prelude::*;
use vstd::string::*;
use vstd::utf8::*;

verus! {

/// The word before the seed of an account.
pub const ACCOUNT_DOMAIN: &'static str = "qchain-account-v1";

/// The word before the address of a stake account.
pub const STAKE_DOMAIN: &'static str = "qchain-stake-account-v1";

/// The word before the address of a program.
pub const PROGRAM_DOMAIN: &'static str = "qchain-program-account-v1";

/// The word before the address of an account that belongs to a program.
pub const PDA_DOMAIN: &'static str = "qchain-program-pda-v1";

/// What is hashed: a word, a seed and a number.
pub open spec fn derivation(domain: Seq<char>, seed: [u8; 32], index: u32) -> Seq<u8> {
    encode_utf8(domain) + seed@ + le_bytes(index as nat, 4)
}

/// What is hashed for an account of a program: a word, the program and a seed.
pub open spec fn pda_derivation(program: Pubkey, seed: Seq<u8>) -> Seq<u8> {
    encode_utf8(PDA_DOMAIN@) + program.0@ + seed
}

fn derive(domain: &str, seed: &[u8; 32], index: u32) -> (digest: [u8; 32])
    ensures
        digest == sha3_256(derivation(domain@, *seed, index)),
{
    let mut data: Vec<u8> = Vec::new();
    data.extend_from_slice(domain.as_bytes());
    data.extend_from_slice(seed.as_slice());
    let mut number = borsh_write_u32(index);
    data.append(&mut number);
    proof {
        assert(data@ =~= derivation(domain@, *seed, index));
    }
    sha3_256_digest(data.as_slice())
}

/// The seed of an account: the first one is the master seed itself.
pub open spec fn account_seed(master: [u8; 32], index: u32) -> [u8; 32] {
    if index == 0 {
        master
    } else {
        sha3_256(derivation(ACCOUNT_DOMAIN@, master, index))
    }
}

/// The seed of the account with this number.
pub fn derive_account_seed(master_seed: &[u8; 32], index: u32) -> (seed: [u8; 32])
    ensures
        seed == account_seed(*master_seed, index),
{
    if index == 0 {
        return *master_seed;
    }
    derive(ACCOUNT_DOMAIN, master_seed, index)
}

/// The address that 32 bytes are, in base58.
pub fn address_from_bytes(bytes: &[u8; 32]) -> (text: String)
    ensures
        text@ == base58(bytes@),
        base58_decoded(text@) == Ok::<Seq<u8>, Seq<char>>(bytes@),
{
    Pubkey::new(*bytes).to_string()
}

/// The address of the stake account with this number, in base58.
pub fn stake_address_from_seed(seed: &[u8; 32], index: u32) -> (text: String)
    ensures
        text@ == base58(sha3_256(derivation(STAKE_DOMAIN@, *seed, index))@),
        base58_decoded(text@) == Ok::<Seq<u8>, Seq<char>>(
            sha3_256(derivation(STAKE_DOMAIN@, *seed, index))@,
        ),
{
    address_from_bytes(&derive(STAKE_DOMAIN, seed, index))
}

/// The address of the program with this number, in base58.
pub fn program_address_from_seed(seed: &[u8; 32], index: u32) -> (text: String)
    ensures
        text@ == base58(sha3_256(derivation(PROGRAM_DOMAIN@, *seed, index))@),
        base58_decoded(text@) == Ok::<Seq<u8>, Seq<char>>(
            sha3_256(derivation(PROGRAM_DOMAIN@, *seed, index))@,
        ),
{
    address_from_bytes(&derive(PROGRAM_DOMAIN, seed, index))
}

/// What an address that was typed is meant for.
#[derive(Clone, Copy, Debug, PartialEq, Eq)]
pub enum Role {
    Validator,
    StakeAccount,
    Position,
    Proposal,
    Destination,
    Program,
    ProgramId,
    Account,
    Holder,
}

impl Role {
    /// What is said where the address is none.
    pub open spec fn complaint(&self) -> Seq<char> {
        match self {
            Role::Validator => "validator address invalid: "@,
            Role::StakeAccount => "stake account address invalid: "@,
            Role::Position => "position address invalid: "@,
            Role::Proposal => "proposal address invalid: "@,
            Role::Destination => "destination address invalid: "@,
            Role::Program => "program address invalid: "@,
            Role::ProgramId => "program id invalid: "@,
            Role::Account => "account address invalid: "@,
            Role::Holder => "dirección de titular inválida: "@,
        }
    }
}

/// A text that was to be an address and is none.
#[derive(Debug)]
pub struct AddressError {
    pub role: Role,
    pub reason: PubkeyError,
}

impl AddressError {
    /// What is said about the error.
    pub open spec fn said(&self) -> Seq<char> {
        self.role.complaint() + self.reason.said()
    }

    /// The error in words.
    pub fn message(&self) -> (text: String)
        ensures
            text@ == self.said(),
    {
        let complaint: &'static str = match self.role {
            Role::Validator => "validator address invalid: ",
            Role::StakeAccount => "stake account address invalid: ",
            Role::Position => "position address invalid: ",
            Role::Proposal => "proposal address invalid: ",
            Role::Destination => "destination address invalid: ",
            Role::Program => "program address invalid: ",
            Role::ProgramId => "program id invalid: ",
            Role::Account => "account address invalid: ",
            Role::Holder => "dirección de titular inválida: ",
        };
        joined(complaint, self.reason.message().as_str())
    }
}

/// The address that a text names, white space around it aside.
pub open spec fn address_named(text: Seq<char>) -> Option<Pubkey> {
    match base58_decoded(trimmed(text)) {
        Ok(bytes) => if bytes.len() == 32 {
            Some(key_at(bytes, 0))
        } else {
            None
        },
        Err(e) => None,
    }
}

/// This is why a text names no address.
pub open spec fn is_reason(reason: PubkeyError, text: Seq<char>) -> bool {
    match base58_decoded(trimmed(text)) {
        Ok(bytes) => reason matches PubkeyError::WrongLength(n) && n == bytes.len() && n != 32,
        Err(words) => reason matches PubkeyError::NotBase58(r) && r@ == words,
    }
}

/// The address that a text names.
pub fn parse_address(text: &str, role: Role) -> (key: Result<Pubkey, AddressError>)
    ensures
        match key {
            Ok(k) => address_named(text@) == Some(k),
            Err(e) => address_named(text@) is None && e.role == role && is_reason(e.reason, text@),
        },
{
    match Pubkey::parse(trim(text)) {
        Ok(k) => {
            proof {
                let bytes = base58_decoded(trimmed(text@))->Ok_0;
                assert(bytes.subrange(0, 32) =~= bytes);
                lemma_key_at(k, bytes, 0);
            }
            Ok(k)
        },
        Err(reason) => Err(AddressError { role, reason }),
    }
}

/// The address of an account that belongs to a program, in base58.
pub fn program_pda(program_id: &str, seed: &[u8]) -> (text: Result<String, AddressError>)
    ensures
        match text {
            Ok(t) => address_named(program_id@) is Some && t@ == base58(
                sha3_256(pda_derivation(address_named(program_id@)->0, seed@))@,
            ) && base58_decoded(t@) == Ok::<Seq<u8>, Seq<char>>(
                sha3_256(pda_derivation(address_named(program_id@)->0, seed@))@,
            ),
            Err(e) => address_named(program_id@) is None && e.role == Role::ProgramId && is_reason(
                e.reason,
                program_id@,
            ),
        },
{
    let program = match parse_address(program_id, Role::ProgramId) {
        Ok(k) => k,
        Err(e) => return Err(e),
    };
    let mut data: Vec<u8> = Vec::new();
    data.extend_from_slice(PDA_DOMAIN.as_bytes());
    data.extend_from_slice(program.0.as_slice());
    data.extend_from_slice(seed);
    proof {
        assert(data@ =~= pda_derivation(program, seed@));
    }
    Ok(address_from_bytes(&sha3_256_digest(data.as_slice())))
}

/// The seed of the account in which a token keeps what a holder has: a one, then the holder.
pub open spec fn balance_seed(holder: Pubkey) -> Seq<u8> {
    seq![1u8] + holder.0@
}

/// The address of the account in which a token keeps what a holder has, in base58.
pub fn token_balance_pda(program_id: &str, holder: &str) -> (text: Result<String, AddressError>)
    ensures
        match text {
            Ok(t) => {
                &&& address_named(holder@) is Some
                &&& address_named(program_id@) is Some
                &&& t@ == base58(
                    sha3_256(
                        pda_derivation(
                            address_named(program_id@)->0,
                            balance_seed(address_named(holder@)->0),
                        ),
                    )@,
                )
            },
            Err(e) => if address_named(holder@) is None {
                e.role == Role::Holder && is_reason(e.reason, holder@)
            } else {
                address_named(program_id@) is None && e.role == Role::ProgramId && is_reason(
                    e.reason,
                    program_id@,
                )
            },
        },
{
    let key = match parse_address(holder, Role::Holder) {
        Ok(k) => k,
        Err(e) => return Err(e),
    };
    let mut seed: Vec<u8> = Vec::new();
    seed.push(1);
    seed.extend_from_slice(key.0.as_slice());
    proof {
        assert(seed@ =~= balance_seed(key));
    }
    program_pda(program_id, seed.as_slice())
}

/// Under one word, another seed or another number gives another digest, unless two byte
/// strings share one.
pub proof fn law_derivations_are_separate(
    domain: Seq<char>,
    s: [u8; 32],
    i: u32,
    t: [u8; 32],
    j: u32,
)
    requires
        sha3_256(derivation(domain, s, i)) == sha3_256(derivation(domain, t, j)),
    ensures
        (s == t && i == j) || collide(derivation(domain, s, i), derivation(domain, t, j)),
{
    let x = derivation(domain, s, i);
    let y = derivation(domain, t, j);
    if x == y {
        let n = encode_utf8(domain).len() as int;
        lemma_le_bytes_len(i as nat, 4);
        lemma_le_bytes_len(j as nat, 4);
        assert(x.subrange(n, n + 32) =~= s@);
        assert(y.subrange(n, n + 32) =~= t@);
        assert(s =~= t);
        assert(x.skip(n + 32) =~= le_bytes(i as nat, 4));
        assert(y.skip(n + 32) =~= le_bytes(j as nat, 4));
        lemma_pow256();
        lemma_le_injective(i as nat, j as nat, 4);
    }
}

/// The words have different lengths, so what is hashed under one is never what is hashed
/// under another.
proof fn lemma_domains()
    ensures
        encode_utf8(ACCOUNT_DOMAIN@).len() == 17,
        encode_utf8(STAKE_DOMAIN@).len() == 23,
        encode_utf8(PROGRAM_DOMAIN@).len() == 25,
{
    reveal_strlit("qchain-account-v1");
    reveal_strlit("qchain-stake-account-v1");
    reveal_strlit("qchain-program-account-v1");
    is_ascii_chars_encode_utf8(ACCOUNT_DOMAIN@);
    is_ascii_chars_encode_utf8(STAKE_DOMAIN@);
    is_ascii_chars_encode_utf8(PROGRAM_DOMAIN@);
}

/// The seed of an account, the address of a stake account and the address of a program never
/// meet, whatever their seeds and numbers, unless what was hashed for them collides.
pub proof fn law_uses_are_separate(s: [u8; 32], i: u32, t: [u8; 32], j: u32)
    ensures
        sha3_256(derivation(ACCOUNT_DOMAIN@, s, i)) != sha3_256(derivation(STAKE_DOMAIN@, t, j))
            || collide(derivation(ACCOUNT_DOMAIN@, s, i), derivation(STAKE_DOMAIN@, t, j)),
        sha3_256(derivation(ACCOUNT_DOMAIN@, s, i)) != sha3_256(derivation(PROGRAM_DOMAIN@, t, j))
            || collide(derivation(ACCOUNT_DOMAIN@, s, i), derivation(PROGRAM_DOMAIN@, t, j)),
        sha3_256(derivation(STAKE_DOMAIN@, s, i)) != sha3_256(derivation(PROGRAM_DOMAIN@, t, j))
            || collide(derivation(STAKE_DOMAIN@, s, i), derivation(PROGRAM_DOMAIN@, t, j)),
{
    lemma_domains();
    lemma_le_bytes_len(i as nat, 4);
    lemma_le_bytes_len(j as nat, 4);
    let a = derivation(ACCOUNT_DOMAIN@, s, i);
    let b = derivation(STAKE_DOMAIN@, t, j);
    let c = derivation(PROGRAM_DOMAIN@, t, j);
    let d = derivation(STAKE_DOMAIN@, s, i);
    assert(a.len() == 53 && b.len() == 59 && c.len() == 61 && d.len() == 59);
    assert(a != b && a != c && d != c);
}

/// Another program or another seed gives another account, unless two byte strings share a
/// digest: no program can reach into the accounts of another.
pub proof fn law_program_accounts_are_separate(p: Pubkey, s: Seq<u8>, q: Pubkey, t: Seq<u8>)
    requires
        sha3_256(pda_derivation(p, s)) == sha3_256(pda_derivation(q, t)),
    ensures
        (p == q && s == t) || collide(pda_derivation(p, s), pda_derivation(q, t)),
{
    let x = pda_derivation(p, s);
    let y = pda_derivation(q, t);
    if x == y {
        let n = encode_utf8(PDA_DOMAIN@).len() as int;
        assert(x.subrange(n, n + 32) =~= p.0@);
        assert(y.subrange(n, n + 32) =~= q.0@);
        assert(p.0 =~= q.0);
        assert(x.skip(n + 32) =~= s);
        assert(y.skip(n + 32) =~= t);
    }
}

} // verus!
