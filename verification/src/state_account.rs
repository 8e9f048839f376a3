//! The account that the state tree commits to.
use crate::codec::{
    array_at, borsh_bytes, borsh_read_bytes, borsh_read_u64, borsh_write_bytes, borsh_write_u16,
    borsh_write_u64, filled, le_bytes, le_decode, le_value, lemma_le_bytes_len, lemma_le_round_trip,
    lemma_le_value_round_trip, lemma_pow256,
};
use crate::hash::{sha3_256, sha3_256_digest};
use crate::pubkey::Pubkey;
use vstd::prelude::*;

verus! {

/// The signature scheme that an account is bound to.
#[derive(Clone, Copy, Debug, PartialEq, Eq, Structural)]
pub struct AlgorithmId(pub u16);

/// The hybrid of Ed25519 and ML-DSA-65.
pub const COMBO_HYBRID_ED25519_ML_DSA_65: u16 = 1;

/// An account of the committed state.
#[derive(Debug, PartialEq, Eq)]
pub struct StateAccount {
    pub balance: u64,
    pub nonce: u64,
    pub algorithm_id: AlgorithmId,
    pub owner: Pubkey,
    pub code_hash: [u8; 32],
    pub data: Vec<u8>,
}

/// What an account holds.
#[verifier::ext_equal]
pub ghost struct StateAccountData {
    pub balance: u64,
    pub nonce: u64,
    pub algorithm_id: AlgorithmId,
    pub owner: Pubkey,
    pub code_hash: [u8; 32],
    pub data: Seq<u8>,
}

impl View for StateAccount {
    type V = StateAccountData;

    open spec fn view(&self) -> StateAccountData {
        StateAccountData {
            balance: self.balance,
            nonce: self.nonce,
            algorithm_id: self.algorithm_id,
            owner: self.owner,
            code_hash: self.code_hash,
            data: self.data@,
        }
    }
}

impl Clone for StateAccount {
    fn clone(&self) -> (copy: Self)
        ensures
            copy@ == self@,
    {
        let data = self.data.clone();
        proof {
            assert(data@ =~= self.data@);
        }
        StateAccount {
            balance: self.balance,
            nonce: self.nonce,
            algorithm_id: self.algorithm_id,
            owner: self.owner,
            code_hash: self.code_hash,
            data,
        }
    }
}

/// The length of the data fits the four bytes in which it is written.
pub open spec fn encodable(a: StateAccountData) -> bool {
    a.data.len() <= u32::MAX
}

/// The bytes of an account: its fields in order, integers least significant byte
/// first, the data behind its length.
pub open spec fn account_bytes(a: StateAccountData) -> Seq<u8> {
    le_bytes(a.balance as nat, 8) + le_bytes(a.nonce as nat, 8) + le_bytes(
        a.algorithm_id.0 as nat,
        2,
    ) + a.owner.0@ + a.code_hash@ + borsh_bytes(a.data)
}

/// Where the fields of an account stand in its bytes.
proof fn lemma_account_layout(a: StateAccountData)
    requires
        encodable(a),
    ensures
        ({
            let b = account_bytes(a);
            &&& b.len() == 86 + a.data.len()
            &&& b.take(8) == le_bytes(a.balance as nat, 8)
            &&& b.subrange(8, 16) == le_bytes(a.nonce as nat, 8)
            &&& b.subrange(16, 18) == le_bytes(a.algorithm_id.0 as nat, 2)
            &&& b.subrange(18, 50) == a.owner.0@
            &&& b.subrange(50, 82) == a.code_hash@
            &&& b.subrange(82, 86) == le_bytes(a.data.len(), 4)
            &&& b.skip(86) == a.data
            &&& le_value(b.take(8)) == a.balance
            &&& le_value(b.subrange(8, 16)) == a.nonce
            &&& le_value(b.subrange(16, 18)) == a.algorithm_id.0
            &&& le_value(b.subrange(82, 86)) == a.data.len()
        }),
{
    let b = account_bytes(a);
    lemma_le_bytes_len(a.balance as nat, 8);
    lemma_le_bytes_len(a.nonce as nat, 8);
    lemma_le_bytes_len(a.algorithm_id.0 as nat, 2);
    lemma_le_bytes_len(a.data.len(), 4);
    assert(b.take(8) =~= le_bytes(a.balance as nat, 8));
    assert(b.subrange(8, 16) =~= le_bytes(a.nonce as nat, 8));
    assert(b.subrange(16, 18) =~= le_bytes(a.algorithm_id.0 as nat, 2));
    assert(b.subrange(18, 50) =~= a.owner.0@);
    assert(b.subrange(50, 82) =~= a.code_hash@);
    assert(b.subrange(82, 86) =~= le_bytes(a.data.len(), 4));
    assert(b.skip(86) =~= a.data);
    lemma_pow256();
    lemma_le_round_trip(a.balance as nat, 8);
    lemma_le_round_trip(a.nonce as nat, 8);
    lemma_le_round_trip(a.algorithm_id.0 as nat, 2);
    lemma_le_round_trip(a.data.len(), 4);
}

/// Two accounts with the same bytes are the same.
pub proof fn law_bytes_name_one_account(a: StateAccountData, b: StateAccountData)
    requires
        encodable(a),
        encodable(b),
        account_bytes(a) == account_bytes(b),
    ensures
        a == b,
{
    lemma_account_layout(a);
    lemma_account_layout(b);
    assert(a.owner.0 =~= b.owner.0);
    assert(a.code_hash =~= b.code_hash);
    assert(a =~= b);
}

/// The bytes are those of an account.
pub open spec fn is_account(bytes: Seq<u8>) -> bool {
    exists|a: StateAccountData| encodable(a) && #[trigger] account_bytes(a) == bytes
}

/// The account that the bytes are of.
pub open spec fn account_of(bytes: Seq<u8>) -> StateAccountData {
    choose|a: StateAccountData| encodable(a) && #[trigger] account_bytes(a) == bytes
}

/// An account is the one that its bytes are of.
pub proof fn law_account_round_trip(a: StateAccountData)
    requires
        encodable(a),
    ensures
        is_account(account_bytes(a)),
        account_of(account_bytes(a)) == a,
{
    assert(encodable(a) && account_bytes(a) == account_bytes(a));
    law_bytes_name_one_account(a, account_of(account_bytes(a)));
}

/// The leaf hash of an account: its bytes behind a zero byte.
pub open spec fn leaf_hash(a: StateAccountData) -> [u8; 32] {
    sha3_256(seq![0u8] + account_bytes(a))
}

impl StateAccount {
    /// An account without balance, data or history.
    pub fn new_wallet(owner: Pubkey) -> (account: Self)
        ensures
            account.balance == 0,
            account.nonce == 0,
            account.algorithm_id.0 == COMBO_HYBRID_ED25519_ML_DSA_65,
            account.owner == owner,
            account.code_hash == filled(0),
            account.data@ == Seq::<u8>::empty(),
    {
        StateAccount {
            balance: 0,
            nonce: 0,
            algorithm_id: AlgorithmId(COMBO_HYBRID_ED25519_ML_DSA_65),
            owner,
            code_hash: [0u8; 32],
            data: Vec::new(),
        }
    }

    /// The bytes of the account.
    pub fn encode(&self) -> (out: Vec<u8>)
        requires
            encodable(self@),
        ensures
            out@ == account_bytes(self@),
    {
        let mut out: Vec<u8> = borsh_write_u64(self.balance);
        let mut nonce: Vec<u8> = borsh_write_u64(self.nonce);
        let mut algorithm: Vec<u8> = borsh_write_u16(self.algorithm_id.0);
        let mut data: Vec<u8> = borsh_write_bytes(self.data.as_slice());
        out.append(&mut nonce);
        out.append(&mut algorithm);
        out.extend_from_slice(self.owner.0.as_slice());
        out.extend_from_slice(self.code_hash.as_slice());
        out.append(&mut data);
        proof {
            assert(out@ =~= account_bytes(self@));
        }
        out
    }

    /// The account that the bytes are of, where they are those of one.
    pub fn decode(bytes: &[u8]) -> (account: Option<Self>)
        ensures
            match account {
                Some(a) => encodable(a@) && account_bytes(a@) == bytes@ && is_account(bytes@)
                    && account_of(bytes@) == a@,
                None => !is_account(bytes@),
            },
    {
        let n: usize = bytes.len();
        proof {
            assert forall|a: StateAccountData|
                encodable(a) && #[trigger] account_bytes(a) == bytes@ implies n >= 86 && n == 86
                + le_value(bytes@.subrange(82, 86)) by {
                lemma_account_layout(a);
            }
        }
        if n < 86 {
            return None;
        }
        let balance: u64 = match borsh_read_u64(bytes) {
            Some(x) => x,
            None => return None,
        };
        let nonce: u64 = match borsh_read_u64(vstd::slice::slice_subrange(bytes, 8, n)) {
            Some(x) => x,
            None => return None,
        };
        let algorithm: u64 = le_decode(vstd::slice::slice_subrange(bytes, 16, 18));
        let owner = Pubkey(array_at(bytes, 18));
        let code_hash: [u8; 32] = array_at(bytes, 50);
        let rest = vstd::slice::slice_subrange(bytes, 82, n);
        proof {
            assert(rest@.take(4) =~= bytes@.subrange(82, 86));
            assert(bytes@.subrange(8, n as int).take(8) =~= bytes@.subrange(8, 16));
            lemma_pow256();
            lemma_le_value_round_trip(bytes@.take(8));
            lemma_le_value_round_trip(bytes@.subrange(8, 16));
            lemma_le_value_round_trip(bytes@.subrange(16, 18));
            lemma_le_value_round_trip(bytes@.subrange(82, 86));
        }
        let data = match borsh_read_bytes(rest) {
            Some(d) => d,
            None => return None,
        };
        if data.len() != n - 86 {
            return None;
        }
        let account = StateAccount {
            balance,
            nonce,
            algorithm_id: AlgorithmId(algorithm as u16),
            owner,
            code_hash,
            data,
        };
        proof {
            assert(account_bytes(account@) =~= bytes@);
            law_account_round_trip(account@);
        }
        Some(account)
    }
}

/// The leaf hash of an account.
pub fn hash_leaf(account: &StateAccount) -> (digest: [u8; 32])
    requires
        encodable(account@),
    ensures
        digest == leaf_hash(account@),
{
    let mut data: Vec<u8> = Vec::new();
    data.push(0x00);
    let mut bytes: Vec<u8> = account.encode();
    data.append(&mut bytes);
    proof {
        assert(data@ =~= seq![0u8] + account_bytes(account@));
    }
    sha3_256_digest(data.as_slice())
}

} // verus!
