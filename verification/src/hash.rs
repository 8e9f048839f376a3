//! The hash functions the chain commits with.
use sha2::Digest;
use vstd::prelude::*;

verus! {

/// The SHA3-256 digest of `data`.
pub uninterp spec fn sha3_256(data: Seq<u8>) -> [u8; 32];

/// The SHA-256 digest of `data`.
pub uninterp spec fn sha256(data: Seq<u8>) -> [u8; 32];

/// Calls `sha3::Sha3_256::digest`. The digest is a function of the bytes alone;
/// it is named here and nothing more is claimed of it.
#[verifier::external_body]
pub(crate) fn sha3_256_digest(data: &[u8]) -> (digest: [u8; 32])
    ensures
        digest == sha3_256(data@),
{
    sha3::Sha3_256::digest(data).into()
}

/// Calls `sha2::Sha256::digest`. The digest is a function of the bytes alone;
/// it is named here and nothing more is claimed of it.
#[verifier::external_body]
pub(crate) fn sha256_digest(data: &[u8]) -> (digest: [u8; 32])
    ensures
        digest == sha256(data@),
{
    sha2::Sha256::digest(data).into()
}

/// The SHA-384 digest of `data`.
pub uninterp spec fn sha384(data: Seq<u8>) -> Seq<u8>;

/// Calls `sha2::Sha384::digest`: 48 bytes, which are a function of the data alone; they are
/// named here and nothing more is claimed of them.
#[verifier::external_body]
pub(crate) fn sha384_digest(data: &[u8]) -> (digest: Vec<u8>)
    ensures
        digest@ == sha384(data@),
        digest@.len() == 48,
{
    sha2::Sha384::digest(data).to_vec()
}

/// The two byte strings are different and have one SHA3-256 digest.
pub open spec fn collide(a: Seq<u8>, b: Seq<u8>) -> bool {
    a != b && sha3_256(a) == sha3_256(b)
}

/// A byte string made of one tag byte and two digests determines all three.
pub proof fn lemma_tagged_pair_injective(
    s: u8,
    a: [u8; 32],
    b: [u8; 32],
    t: u8,
    c: [u8; 32],
    d: [u8; 32],
)
    requires
        seq![s] + a@ + b@ == seq![t] + c@ + d@,
    ensures
        s == t,
        a == c,
        b == d,
{
    let x = seq![s] + a@ + b@;
    let y = seq![t] + c@ + d@;
    assert(x[0] == y[0]);
    assert forall|i: int| 0 <= i < 32 implies a[i] == c[i] by {
        assert(x[1 + i] == a@[i] && y[1 + i] == c@[i]);
    }
    assert forall|i: int| 0 <= i < 32 implies b[i] == d[i] by {
        assert(x[33 + i] == b@[i] && y[33 + i] == d@[i]);
    }
    assert(a =~= c);
    assert(b =~= d);
}

/// `tag` followed by the two digests, hashed.
pub(crate) fn hash_tagged_pair(tag: u8, left: &[u8; 32], right: &[u8; 32]) -> (digest: [u8; 32])
    ensures
        digest == sha3_256(seq![tag] + left@ + right@),
{
    let mut data: Vec<u8> = Vec::with_capacity(65);
    data.push(tag);
    data.extend_from_slice(left.as_slice());
    data.extend_from_slice(right.as_slice());
    proof {
        assert(data@ =~= seq![tag] + left@ + right@);
    }
    sha3_256_digest(data.as_slice())
}

/// A second list with the same digests.
pub(crate) fn copy_digests(digests: &Vec<[u8; 32]>) -> (copy: Vec<[u8; 32]>)
    ensures
        copy@ == digests@,
{
    let mut copy: Vec<[u8; 32]> = Vec::with_capacity(digests.len());
    let mut i: usize = 0;
    while i < digests.len()
        invariant
            i <= digests@.len(),
            copy@ == digests@.take(i as int),
        decreases digests@.len() - i,
    {
        copy.push(digests[i]);
        proof {
            assert(copy@ =~= digests@.take(i + 1));
        }
        i += 1;
    }
    proof {
        assert(copy@ =~= digests@);
    }
    copy
}

/// Whether two digests are the same.
pub fn digests_equal(a: &[u8; 32], b: &[u8; 32]) -> (equal: bool)
    ensures
        equal == (*a == *b),
{
    let mut i: usize = 0;
    while i < 32
        invariant
            i <= 32,
            forall|j: int| 0 <= j < i ==> a[j] == b[j],
        decreases 32 - i,
    {
        if a[i] != b[i] {
            return false;
        }
        i += 1;
    }
    proof {
        assert(*a =~= *b);
    }
    true
}

} // verus!
