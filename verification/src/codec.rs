//! Little-endian integers and length-prefixed bytes, as they appear on the wire
//! and under the hashes.
use borsh::BorshDeserialize;
use vstd::prelude::*;

verus! {

/// The `n` lowest bytes of `x`, least significant first.
pub open spec fn le_bytes(x: nat, n: nat) -> Seq<u8>
    decreases n,
{
    if n == 0 {
        Seq::empty()
    } else {
        seq![(x % 256) as u8] + le_bytes(x / 256, (n - 1) as nat)
    }
}

/// The number that `s` spells, least significant byte first.
pub open spec fn le_value(s: Seq<u8>) -> nat
    decreases s.len(),
{
    if s.len() == 0 {
        0
    } else {
        s[0] as nat + 256 * le_value(s.skip(1))
    }
}

/// `n` times the byte `b`.
pub open spec fn repeated(b: u8, n: nat) -> Seq<u8> {
    Seq::new(n, |i: int| b)
}

/// An array of 32 times the byte `b`.
pub open spec fn filled(b: u8) -> [u8; 32] {
    vstd::array::spec_array_fill_for_copy_type::<u8, 32>(b)
}

/// 256 to the power `n`.
pub open spec fn pow256(n: nat) -> nat
    decreases n,
{
    if n == 0 {
        1
    } else {
        256 * pow256((n - 1) as nat)
    }
}

/// The powers at the widths of the machine integers.
pub proof fn lemma_pow256()
    ensures
        pow256(2) == 0x1_0000,
        pow256(4) == 0x1_0000_0000,
        pow256(8) == 0x1_0000_0000_0000_0000,
{
    reveal_with_fuel(pow256, 9);
}

/// `le_bytes` has the length it was asked for.
pub proof fn lemma_le_bytes_len(x: nat, n: nat)
    ensures
        le_bytes(x, n).len() == n,
    decreases n,
{
    if n > 0 {
        lemma_le_bytes_len(x / 256, (n - 1) as nat);
    }
}

/// Reading back what was written gives the number.
pub proof fn lemma_le_round_trip(x: nat, n: nat)
    requires
        x < pow256(n),
    ensures
        le_value(le_bytes(x, n)) == x,
    decreases n,
{
    if n > 0 {
        let m = (n - 1) as nat;
        assert(x / 256 < pow256(m)) by (nonlinear_arith)
            requires
                x < 256 * pow256(m),
        ;
        lemma_le_round_trip(x / 256, m);
        assert(le_bytes(x, n).skip(1) =~= le_bytes(x / 256, m));
    }
}

/// Writing what was read gives the bytes.
pub proof fn lemma_le_value_round_trip(s: Seq<u8>)
    ensures
        le_bytes(le_value(s), s.len()) == s,
        le_value(s) < pow256(s.len()),
    decreases s.len(),
{
    if s.len() > 0 {
        let t = s.skip(1);
        lemma_le_value_round_trip(t);
        let v = le_value(t);
        assert((s[0] as nat + 256 * v) / 256 == v);
        assert((s[0] as nat + 256 * v) % 256 == s[0] as nat);
        assert(le_bytes(le_value(s), s.len()) =~= s);
    }
}

/// Different numbers have different bytes.
pub proof fn lemma_le_injective(x: nat, y: nat, n: nat)
    requires
        x < pow256(n),
        y < pow256(n),
        le_bytes(x, n) == le_bytes(y, n),
    ensures
        x == y,
{
    lemma_le_round_trip(x, n);
    lemma_le_round_trip(y, n);
}

/// The `n` lowest bytes of `x`, least significant first.
pub fn le_encode(x: u64, n: usize) -> (out: Vec<u8>)
    ensures
        out@ == le_bytes(x as nat, n as nat),
{
    let mut out: Vec<u8> = Vec::new();
    let mut rest: u64 = x;
    let mut i: usize = 0;
    while i < n
        invariant
            i <= n,
            out@ + le_bytes(rest as nat, (n - i) as nat) == le_bytes(x as nat, n as nat),
        decreases n - i,
    {
        let ghost before = out@;
        out.push((rest % 256) as u8);
        proof {
            assert(before + le_bytes(rest as nat, (n - i) as nat) =~= out@ + le_bytes(
                (rest / 256) as nat,
                (n - i - 1) as nat,
            ));
        }
        rest = rest / 256;
        i += 1;
    }
    proof {
        assert(out@ + le_bytes(rest as nat, 0) =~= out@);
    }
    out
}

/// The number that the first eight bytes or fewer spell, least significant first.
pub fn le_decode(s: &[u8]) -> (x: u64)
    requires
        s@.len() <= 8,
    ensures
        x == le_value(s@),
{
    let mut x: u64 = 0;
    let mut i: usize = s.len();
    proof {
        assert(s@.skip(i as int) =~= Seq::<u8>::empty());
    }
    while i > 0
        invariant
            i <= s@.len() <= 8,
            x == le_value(s@.skip(i as int)),
        decreases i,
    {
        i -= 1;
        proof {
            let t = s@.skip(i as int);
            assert(t.skip(1) =~= s@.skip(i + 1));
            lemma_le_value_round_trip(t);
            lemma_pow256();
            lemma_pow256_monotonic(t.len(), 8);
        }
        x = s[i] as u64 + 256 * x;
    }
    proof {
        assert(s@.skip(0) =~= s@);
    }
    x
}

proof fn lemma_pow256_monotonic(a: nat, b: nat)
    requires
        a <= b,
    ensures
        pow256(a) <= pow256(b),
    decreases b,
{
    if a < b {
        lemma_pow256_monotonic(a, (b - 1) as nat);
    }
}

/// What `borsh` writes for a byte string: its length in four bytes, then the bytes.
pub open spec fn borsh_bytes(data: Seq<u8>) -> Seq<u8> {
    le_bytes(data.len(), 4) + data
}

/// Calls `borsh::to_vec` on a `u16`: its two bytes, least significant first.
#[verifier::external_body]
pub(crate) fn borsh_write_u16(x: u16) -> (out: Vec<u8>)
    ensures
        out@ == le_bytes(x as nat, 2),
{
    borsh::to_vec(&x).expect("writing to a vector does not fail")
}

/// Calls `borsh::to_vec` on a `u32`: its four bytes, least significant first.
#[verifier::external_body]
pub(crate) fn borsh_write_u32(x: u32) -> (out: Vec<u8>)
    ensures
        out@ == le_bytes(x as nat, 4),
{
    borsh::to_vec(&x).expect("writing to a vector does not fail")
}

/// Calls `borsh::to_vec` on a `u64`: its eight bytes, least significant first.
#[verifier::external_body]
pub(crate) fn borsh_write_u64(x: u64) -> (out: Vec<u8>)
    ensures
        out@ == le_bytes(x as nat, 8),
{
    borsh::to_vec(&x).expect("writing to a vector does not fail")
}

/// Calls `borsh::to_vec` on a byte string: the length as a `u32`, then the bytes.
/// A length beyond `u32` is an error there, so it is left out here.
#[verifier::external_body]
pub(crate) fn borsh_write_bytes(data: &[u8]) -> (out: Vec<u8>)
    requires
        data@.len() <= u32::MAX,
    ensures
        out@ == borsh_bytes(data@),
{
    borsh::to_vec(data).expect("the length fits")
}

/// Calls `u64::deserialize` of `borsh` on the front of `data`: the first eight
/// bytes, least significant first, or an error where there are fewer.
#[verifier::external_body]
pub(crate) fn borsh_read_u64(data: &[u8]) -> (x: Option<u64>)
    ensures
        match x {
            Some(v) => data@.len() >= 8 && v == le_value(data@.take(8)),
            None => data@.len() < 8,
        },
{
    let mut rest = data;
    u64::deserialize(&mut rest).ok()
}

/// Calls `Vec::<u8>::deserialize` of `borsh` on the front of `data`: a `u32`
/// length and that many bytes, or an error where there are fewer.
#[verifier::external_body]
pub(crate) fn borsh_read_bytes(data: &[u8]) -> (bytes: Option<Vec<u8>>)
    ensures
        match bytes {
            Some(v) => data@.len() >= 4 && data@.len() >= 4 + le_value(data@.take(4)) && v@
                == data@.subrange(4, 4 + le_value(data@.take(4)) as int),
            None => data@.len() < 4 || data@.len() < 4 + le_value(data@.take(4)),
        },
{
    let mut rest = data;
    Vec::<u8>::deserialize(&mut rest).ok()
}

/// A 32-byte array made of the 32 bytes of `s` that begin at `from`.
pub(crate) fn array_at(s: &[u8], from: usize) -> (out: [u8; 32])
    requires
        from + 32 <= s@.len(),
    ensures
        out@ == s@.subrange(from as int, from + 32),
{
    let n: usize = s.len();
    let mut out: [u8; 32] = [0u8; 32];
    let mut i: usize = 0;
    while i < 32
        invariant
            i <= 32,
            from + 32 <= n == s@.len(),
            forall|j: int| 0 <= j < i ==> out@[j] == s@[from + j],
        decreases 32 - i,
    {
        out[i] = s[from + i];
        i += 1;
    }
    proof {
        assert(out@ =~= s@.subrange(from as int, from + 32));
    }
    out
}

} // verus!
