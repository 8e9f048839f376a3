//! The bits of a 256-bit key, most significant first.
use vstd::prelude::*;

verus! {

/// How many bits a key has.
pub const KEY_BITS: usize = 256;

/// Bit `j` of a byte, counted from the most significant one.
pub open spec fn byte_bit(byte: u8, j: int) -> bool {
    (byte >> ((7 - j) as u8)) & 1u8 == 1u8
}

/// Bit `i` of `key`, counted from the most significant bit of the first byte.
pub open spec fn bit(key: [u8; 32], i: int) -> bool {
    byte_bit(key@[i / 8], i % 8)
}

/// All 256 bits of `key`.
pub open spec fn key_bits(key: [u8; 32]) -> Seq<bool> {
    Seq::new(256, |i: int| bit(key, i))
}

/// `key` begins with the bits `prefix`.
pub open spec fn under(key: [u8; 32], prefix: Seq<bool>) -> bool {
    &&& prefix.len() <= 256
    &&& forall|i: int| 0 <= i < prefix.len() ==> bit(key, i) == #[trigger] prefix[i]
}

/// The first `depth` bits of `key`.
pub open spec fn prefix_of(key: [u8; 32], depth: int) -> Seq<bool> {
    key_bits(key).take(depth)
}

/// `a` and `b` have the same first `depth` bits.
pub open spec fn agree(a: [u8; 32], b: [u8; 32], depth: int) -> bool {
    forall|i: int| 0 <= i < depth ==> #[trigger] bit(a, i) == bit(b, i)
}

proof fn lemma_byte_from_bits(a: u8, b: u8)
    requires
        forall|j: int| 0 <= j < 8 ==> #[trigger] byte_bit(a, j) == byte_bit(b, j),
    ensures
        a == b,
{
    assert(byte_bit(a, 0) == byte_bit(b, 0) && byte_bit(a, 1) == byte_bit(b, 1));
    assert(byte_bit(a, 2) == byte_bit(b, 2) && byte_bit(a, 3) == byte_bit(b, 3));
    assert(byte_bit(a, 4) == byte_bit(b, 4) && byte_bit(a, 5) == byte_bit(b, 5));
    assert(byte_bit(a, 6) == byte_bit(b, 6) && byte_bit(a, 7) == byte_bit(b, 7));
    assert(a == b) by (bit_vector)
        requires
            ((a >> 7u8) & 1u8 == 1u8) == ((b >> 7u8) & 1u8 == 1u8),
            ((a >> 6u8) & 1u8 == 1u8) == ((b >> 6u8) & 1u8 == 1u8),
            ((a >> 5u8) & 1u8 == 1u8) == ((b >> 5u8) & 1u8 == 1u8),
            ((a >> 4u8) & 1u8 == 1u8) == ((b >> 4u8) & 1u8 == 1u8),
            ((a >> 3u8) & 1u8 == 1u8) == ((b >> 3u8) & 1u8 == 1u8),
            ((a >> 2u8) & 1u8 == 1u8) == ((b >> 2u8) & 1u8 == 1u8),
            ((a >> 1u8) & 1u8 == 1u8) == ((b >> 1u8) & 1u8 == 1u8),
            ((a >> 0u8) & 1u8 == 1u8) == ((b >> 0u8) & 1u8 == 1u8),
    ;
}

/// A key is determined by its bits.
pub proof fn lemma_bits_determine_key(a: [u8; 32], b: [u8; 32])
    requires
        agree(a, b, 256),
    ensures
        a == b,
{
    assert forall|n: int| 0 <= n < 32 implies a[n] == b[n] by {
        assert forall|j: int| 0 <= j < 8 implies #[trigger] byte_bit(a@[n], j) == byte_bit(b@[n], j) by {
            let i = 8 * n + j;
            assert(i / 8 == n && i % 8 == j);
            assert(bit(a, i) == bit(b, i));
        }
        lemma_byte_from_bits(a@[n], b@[n]);
    }
    assert(a =~= b);
}

/// At most one key lies under a prefix of full length.
pub proof fn lemma_full_prefix_unique(a: [u8; 32], b: [u8; 32], p: Seq<bool>)
    requires
        p.len() == 256,
        under(a, p),
        under(b, p),
    ensures
        a == b,
{
    assert forall|i: int| 0 <= i < 256 implies #[trigger] bit(a, i) == bit(b, i) by {
        assert(bit(a, i) == p[i] && bit(b, i) == p[i]);
    }
    lemma_bits_determine_key(a, b);
}

/// A key lies under exactly its own prefixes.
pub proof fn lemma_under_prefix_of(a: [u8; 32], b: [u8; 32], depth: int)
    requires
        0 <= depth <= 256,
    ensures
        under(a, prefix_of(b, depth)) <==> agree(a, b, depth),
        prefix_of(b, depth).len() == depth,
{
    let p = prefix_of(b, depth);
    if under(a, p) {
        assert forall|i: int| 0 <= i < depth implies #[trigger] bit(a, i) == bit(b, i) by {
            assert(p[i] == bit(b, i));
        }
    }
}

/// One more bit: `key` lies under `p` extended by exactly one of the two bits.
pub proof fn lemma_under_push(key: [u8; 32], p: Seq<bool>, b: bool)
    requires
        p.len() < 256,
    ensures
        under(key, p.push(b)) <==> under(key, p) && bit(key, p.len() as int) == b,
{
    let q = p.push(b);
    if under(key, q) {
        assert(q[p.len() as int] == b);
        assert forall|i: int| 0 <= i < p.len() implies bit(key, i) == #[trigger] p[i] by {
            assert(q[i] == p[i]);
        }
    }
    if under(key, p) && bit(key, p.len() as int) == b {
        assert forall|i: int| 0 <= i < q.len() implies bit(key, i) == #[trigger] q[i] by {
            if i < p.len() {
                assert(q[i] == p[i]);
            }
        }
    }
}

/// The prefix of length `depth + 1` is the one of length `depth` and one bit more.
pub proof fn lemma_prefix_push(key: [u8; 32], depth: int)
    requires
        0 <= depth < 256,
    ensures
        prefix_of(key, depth + 1) == prefix_of(key, depth).push(bit(key, depth)),
{
    assert(prefix_of(key, depth + 1) =~= prefix_of(key, depth).push(bit(key, depth)));
}

/// Keys that agree have the same prefix.
pub proof fn lemma_prefix_agree(a: [u8; 32], b: [u8; 32], depth: int)
    requires
        0 <= depth <= 256,
        agree(a, b, depth),
    ensures
        prefix_of(a, depth) == prefix_of(b, depth),
{
    let p = prefix_of(a, depth);
    let q = prefix_of(b, depth);
    assert forall|i: int| 0 <= i < depth implies p[i] == q[i] by {
        assert(bit(a, i) == bit(b, i));
    }
    assert(p =~= q);
}

/// A key that is zero from `depth` on is determined by its prefix.
pub proof fn lemma_zero_from_unique(a: [u8; 32], b: [u8; 32], depth: int)
    requires
        0 <= depth <= 256,
        agree(a, b, depth),
        zero_from(a, depth),
        zero_from(b, depth),
    ensures
        a == b,
{
    assert forall|i: int| 0 <= i < 256 implies #[trigger] bit(a, i) == bit(b, i) by {
        if i >= depth {
            assert(!bit(a, i) && !bit(b, i));
        }
    }
    lemma_bits_determine_key(a, b);
}

/// The bit of `key` at `depth`.
pub(crate) fn bit_at(key: &[u8; 32], depth: usize) -> (set: bool)
    requires
        depth < 256,
    ensures
        set == bit(*key, depth as int),
{
    let byte: u8 = key[depth / 8];
    let bit_index: u8 = (7 - depth % 8) as u8;
    (byte >> bit_index) & 1 == 1
}

/// The first bit at which the two keys differ, or 256 where they are equal.
pub(crate) fn first_diff_bit(a: &[u8; 32], b: &[u8; 32]) -> (d: usize)
    ensures
        d <= 256,
        agree(*a, *b, d as int),
        d < 256 ==> bit(*a, d as int) != bit(*b, d as int),
        d == 256 <==> *a == *b,
{
    let mut d: usize = 0;
    while d < 256
        invariant
            d <= 256,
            agree(*a, *b, d as int),
        decreases 256 - d,
    {
        if bit_at(a, d) != bit_at(b, d) {
            return d;
        }
        d += 1;
    }
    proof {
        lemma_bits_determine_key(*a, *b);
    }
    256
}

/// Every bit of `key` from `depth` on is zero.
pub open spec fn zero_from(key: [u8; 32], depth: int) -> bool {
    forall|i: int| depth <= i < 256 ==> !#[trigger] bit(key, i)
}

proof fn lemma_mask_byte(b: u8, r: u8, j: u8)
    requires
        1 <= r < 8,
        j < 8,
    ensures
        ((b & (0xFFu8 << ((8 - r) as u8))) >> ((7 - j) as u8)) & 1u8 == (if j < r {
            (b >> ((7 - j) as u8)) & 1u8
        } else {
            0u8
        }),
{
    let s: u8 = (8 - r) as u8;
    let t: u8 = (7 - j) as u8;
    assert(((b & (0xFFu8 << s)) >> t) & 1u8 == (if t >= s {
        (b >> t) & 1u8
    } else {
        0u8
    })) by (bit_vector)
        requires
            1 <= s < 8,
            t < 8,
    ;
}

pub proof fn lemma_zero_byte(t: u8)
    ensures
        (0u8 >> t) & 1u8 == 0u8,
{
    assert((0u8 >> t) & 1u8 == 0u8) by (bit_vector);
}

/// `key` with every bit from `depth` on set to zero: the name of the subtree at
/// `depth` in which `key` lies.
pub(crate) fn mask_prefix(key: &[u8; 32], depth: usize) -> (out: [u8; 32])
    requires
        depth <= 256,
    ensures
        agree(out, *key, depth as int),
        zero_from(out, depth as int),
{
    let mut out: [u8; 32] = *key;
    if depth >= 256 {
        return out;
    }
    let full_bytes: usize = depth / 8;
    let rem_bits: usize = depth % 8;
    let mut first_zero: usize = full_bytes;
    if rem_bits != 0 {
        let shift: u8 = (8 - rem_bits) as u8;
        out[full_bytes] = out[full_bytes] & (0xFFu8 << shift);
        first_zero = full_bytes + 1;
    }
    let ghost masked = out;
    let mut i: usize = first_zero;
    while i < 32
        invariant
            first_zero <= i <= 32,
            forall|n: int| 0 <= n < first_zero ==> out@[n] == masked@[n],
            forall|n: int| first_zero <= n < i ==> out@[n] == 0,
        decreases 32 - i,
    {
        out[i] = 0;
        i += 1;
    }
    proof {
        assert forall|n: int| 0 <= n < 256 implies #[trigger] bit(out, n) == (n < depth && bit(
            *key,
            n,
        )) by {
            let j = (n % 8) as u8;
            if n / 8 < full_bytes {
                assert(out@[n / 8] == key@[n / 8]);
            } else if n / 8 == full_bytes && rem_bits != 0 {
                lemma_mask_byte(key@[n / 8], rem_bits as u8, j);
            } else {
                assert(out@[n / 8] == 0);
                lemma_zero_byte((7 - n % 8) as u8);
            }
        }
    }
    out
}

proof fn lemma_set_bit(b: u8, s: u8, t: u8)
    requires
        s < 8,
        t < 8,
    ensures
        ((b | (1u8 << s)) >> t) & 1u8 == (if s == t {
            1u8
        } else {
            (b >> t) & 1u8
        }),
        ((b & !(1u8 << s)) >> t) & 1u8 == (if s == t {
            0u8
        } else {
            (b >> t) & 1u8
        }),
{
    assert(((b | (1u8 << s)) >> t) & 1u8 == (if s == t {
        1u8
    } else {
        (b >> t) & 1u8
    })) by (bit_vector)
        requires
            s < 8,
            t < 8,
    ;
    assert(((b & !(1u8 << s)) >> t) & 1u8 == (if s == t {
        0u8
    } else {
        (b >> t) & 1u8
    })) by (bit_vector)
        requires
            s < 8,
            t < 8,
    ;
}

/// The first `depth` bits of `key`, then `bit_value`, then zeros.
pub(crate) fn prefix_with_bit(key: &[u8; 32], depth: usize, bit_value: bool) -> (out: [u8; 32])
    requires
        depth < 256,
    ensures
        agree(out, *key, depth as int),
        bit(out, depth as int) == bit_value,
        zero_from(out, depth + 1),
{
    let mut out: [u8; 32] = mask_prefix(key, depth + 1);
    let ghost masked = out;
    let byte_idx: usize = depth / 8;
    let bit_idx: u8 = (7 - depth % 8) as u8;
    if bit_value {
        out[byte_idx] = out[byte_idx] | (1u8 << bit_idx);
    } else {
        out[byte_idx] = out[byte_idx] & !(1u8 << bit_idx);
    }
    proof {
        assert forall|n: int| 0 <= n < 256 implies #[trigger] bit(out, n) == (if n == depth {
            bit_value
        } else {
            bit(masked, n)
        }) by {
            if n / 8 == byte_idx {
                lemma_set_bit(masked@[n / 8], bit_idx, (7 - n % 8) as u8);
            } else {
                assert(out@[n / 8] == masked@[n / 8]);
            }
        }
    }
    out
}

} // verus!
