//! Bit patterns over at most 64 indices: single-bit tests, Hamming weight
//! and parity, with the lemmas that let proofs reason index by index.
use vstd::prelude::*;

verus! {

/// Bit `i` of `x`, for a machine index.
pub open spec fn raw_bit(x: u64, i: u64) -> bool {
    (x >> i) & 1 == 1
}

/// Bit `i` of `x`; false outside `0..64`.
pub open spec fn bit(x: u64, i: int) -> bool {
    0 <= i < 64 && raw_bit(x, i as u64)
}

/// `x` has no bit set at index `m` or above.
pub open spec fn fits(x: u64, m: int) -> bool {
    forall|i: int| m <= i < 64 ==> !#[trigger] bit(x, i)
}

/// Number of set bits of `x` below index `k`.
pub open spec fn weight_below(x: u64, k: int) -> nat
    decreases k,
{
    if k <= 0 {
        0
    } else {
        weight_below(x, k - 1) + (if bit(x, k - 1) { 1nat } else { 0nat })
    }
}

/// Hamming weight of `x`.
pub open spec fn weight(x: u64) -> nat {
    weight_below(x, 64)
}

/// `x` has an odd number of set bits.
pub open spec fn odd(x: u64) -> bool {
    weight(x) % 2 == 1
}

proof fn lemma_raw_ops(a: u64, b: u64)
    by (bit_vector)
    ensures
        forall|i: u64| i < 64 ==> #[trigger] raw_bit(a ^ b, i) == (raw_bit(a, i) != raw_bit(b, i)),
        forall|i: u64| i < 64 ==> #[trigger] raw_bit(a & b, i) == (raw_bit(a, i) && raw_bit(b, i)),
        forall|i: u64| i < 64 ==> #[trigger] raw_bit(a | b, i) == (raw_bit(a, i) || raw_bit(b, i)),
{
}

proof fn lemma_raw_single(j: u64)
    by (bit_vector)
    requires
        j < 64,
    ensures
        forall|i: u64| i < 64 ==> #[trigger] raw_bit(1u64 << j, i) == (i == j),
        forall|i: u64| i < 64 ==> !#[trigger] raw_bit(0u64, i),
{
}

proof fn lemma_raw_ext_step(a: u64, b: u64, k: u64)
    by (bit_vector)
    requires
        k < 64,
        k == 63 || (a >> ((k + 1) as u64)) == (b >> ((k + 1) as u64)),
        raw_bit(a, k) == raw_bit(b, k),
    ensures
        (a >> k) == (b >> k),
        k == 0 ==> a == b,
{
}

proof fn lemma_raw_ext_from(a: u64, b: u64, k: int)
    requires
        forall|i: u64| i < 64 ==> raw_bit(a, i) == raw_bit(b, i),
        0 <= k < 64,
    ensures
        (a >> (k as u64)) == (b >> (k as u64)),
        k == 0 ==> a == b,
    decreases 64 - k,
{
    if k < 63 {
        lemma_raw_ext_from(a, b, k + 1);
    }
    lemma_raw_ext_step(a, b, k as u64);
}

proof fn lemma_raw_ext(a: u64, b: u64)
    requires
        forall|i: u64| i < 64 ==> raw_bit(a, i) == raw_bit(b, i),
    ensures
        a == b,
{
    lemma_raw_ext_from(a, b, 0);
}

proof fn lemma_raw_narrow(s: u32)
    by (bit_vector)
    ensures
        forall|i: u64| 32 <= i < 64 ==> !#[trigger] raw_bit(s as u64, i),
{
}

/// Identities of exclusive or that proofs about linear combinations use.
pub proof fn lemma_xor_algebra(a: u64, b: u64, s: u64)
    by (bit_vector)
    ensures
        (a ^ b) ^ s == (a ^ s) ^ b,
        (a ^ b) ^ s == a ^ (b ^ s),
        (a ^ s) ^ (b ^ s) == a ^ b,
        (a ^ b) ^ b == a,
        a ^ (a ^ b) == b,
        a ^ b == b ^ a,
        a ^ 0 == a,
        b ^ 0 == b,
        0 ^ a == a,
        (a ^ b) ^ 0 == a ^ b,
        a ^ a == 0,
        (a ^ b) & s == (a & s) ^ (b & s),
        s & (a ^ b) == (s & a) ^ (s & b),
        a & 0 == 0,
        0 & a == 0,
        (a ^ b == 0) == (a == b),
{
}

proof fn lemma_raw_spread(x: u64, j: u64)
    by (bit_vector)
    requires
        j < 64,
    ensures
        forall|i: u64|
            i < 64 ==> #[trigger] raw_bit((x & ((1u64 << j) - 1) as u64) | ((x >> j) << j << 1), i) == (if i
                < j {
                raw_bit(x, i)
            } else if i == j {
                false
            } else {
                raw_bit(x, (i - 1) as u64)
            }),
{
}

/// Bits of `a ^ b`, `a & b` and `a | b`, index by index.
pub proof fn lemma_bit_ops(a: u64, b: u64)
    ensures
        forall|i: int| #[trigger] bit(a ^ b, i) == (bit(a, i) != bit(b, i)),
        forall|i: int| #[trigger] bit(a & b, i) == (bit(a, i) && bit(b, i)),
        forall|i: int| #[trigger] bit(a | b, i) == (bit(a, i) || bit(b, i)),
{
    lemma_raw_ops(a, b);
    assert forall|i: int| #[trigger] bit(a ^ b, i) == (bit(a, i) != bit(b, i)) by {
        if 0 <= i < 64 {
            assert(raw_bit(a ^ b, i as u64) == (raw_bit(a, i as u64) != raw_bit(b, i as u64)));
        }
    }
    assert forall|i: int| #[trigger] bit(a & b, i) == (bit(a, i) && bit(b, i)) by {
        if 0 <= i < 64 {
            assert(raw_bit(a & b, i as u64) == (raw_bit(a, i as u64) && raw_bit(b, i as u64)));
        }
    }
    assert forall|i: int| #[trigger] bit(a | b, i) == (bit(a, i) || bit(b, i)) by {
        if 0 <= i < 64 {
            assert(raw_bit(a | b, i as u64) == (raw_bit(a, i as u64) || raw_bit(b, i as u64)));
        }
    }
}

/// The pattern `1 << j` has exactly bit `j`; the pattern `0` has none.
pub proof fn lemma_bit_single(j: int)
    requires
        0 <= j < 64,
    ensures
        forall|i: int| #[trigger] bit(1u64 << (j as u64), i) == (i == j),
        forall|i: int| !#[trigger] bit(0u64, i),
{
    lemma_raw_single(j as u64);
    assert forall|i: int| #[trigger] bit(1u64 << (j as u64), i) == (i == j) by {
        if 0 <= i < 64 {
            assert(raw_bit(1u64 << (j as u64), i as u64) == (i as u64 == j as u64));
        }
    }
    assert forall|i: int| !#[trigger] bit(0u64, i) by {
        if 0 <= i < 64 {
            assert(!raw_bit(0u64, i as u64));
        }
    }
}

/// Two patterns with the same bits are the same pattern.
pub proof fn lemma_bit_ext(a: u64, b: u64)
    requires
        forall|i: int| 0 <= i < 64 ==> bit(a, i) == bit(b, i),
    ensures
        a == b,
{
    assert forall|i: u64| i < 64 implies raw_bit(a, i) == raw_bit(b, i) by {
        assert(bit(a, i as int) == bit(b, i as int));
    }
    lemma_raw_ext(a, b);
}

/// A widened 32-bit pattern has no bit at index 32 or above.
pub proof fn lemma_bit_narrow(s: u32)
    ensures
        fits(s as u64, 32),
{
    lemma_raw_narrow(s);
    assert forall|i: int| 32 <= i < 64 implies !#[trigger] bit(s as u64, i) by {
        assert(!raw_bit(s as u64, i as u64));
    }
}

/// The pattern obtained from `x` by opening a cleared bit at index `j`.
pub open spec fn spread(x: u64, j: int) -> u64 {
    (x & ((1u64 << (j as u64)) - 1) as u64) | ((x >> (j as u64)) << (j as u64) << 1)
}

/// Bits of `spread(x, j)`: those of `x` below `j`, a cleared bit at `j`,
/// and those of `x` moved up by one above `j`.
pub proof fn lemma_bit_spread(x: u64, j: int)
    requires
        0 <= j < 64,
    ensures
        forall|i: int|
            0 <= i < 64 ==> #[trigger] bit(spread(x, j), i) == (if i < j {
                bit(x, i)
            } else if i == j {
                false
            } else {
                bit(x, i - 1)
            }),
{
    lemma_raw_spread(x, j as u64);
    let ju: u64 = j as u64;
    assert forall|i: int| 0 <= i < 64 implies #[trigger] bit(spread(x, j), i) == (if i < j {
        bit(x, i)
    } else if i == j {
        false
    } else {
        bit(x, i - 1)
    }) by {
        let iu: u64 = i as u64;
        assert(raw_bit((x & ((1u64 << ju) - 1) as u64) | ((x >> ju) << ju << 1), iu) == (if iu < ju {
            raw_bit(x, iu)
        } else if iu == ju {
            false
        } else {
            raw_bit(x, (iu - 1) as u64)
        }));
    }
}

/// The weight below `k` is at most `k`.
pub proof fn lemma_weight_bound(x: u64, k: int)
    ensures
        weight_below(x, k) <= (if k <= 0 { 0 } else { k }),
    decreases k,
{
    if k > 0 {
        lemma_weight_bound(x, k - 1);
    }
}

/// A pattern that fits in `m` bits has all its weight below `m`.
pub proof fn lemma_weight_fits(x: u64, m: int, k: int)
    requires
        fits(x, m),
        0 <= m <= k,
    ensures
        weight_below(x, k) == weight_below(x, m),
    decreases k,
{
    if k > m {
        lemma_weight_fits(x, m, k - 1);
        if k - 1 < 64 {
            assert(!bit(x, k - 1));
        }
    }
}

/// Weight of a pattern whose set bits are exactly those of `a` and `b` that
/// lie in `0..64` (either may lie outside, standing for no bit).
pub proof fn lemma_weight_sparse(v: u64, a: int, b: int, k: int)
    requires
        forall|j: int| 0 <= j < 64 ==> (bit(v, j) <==> (j == a || j == b)),
        k <= 64,
    ensures
        weight_below(v, k) == (if 0 <= a < k { 1nat } else { 0nat }) + (if 0 <= b < k && b != a {
            1nat
        } else {
            0nat
        }),
    decreases k,
{
    if k > 0 {
        lemma_weight_sparse(v, a, b, k - 1);
    }
}

/// Weights of two patterns that differ at index `i` only.
pub proof fn lemma_weight_flip(u: u64, v: u64, i: int, k: int)
    requires
        0 <= i < 64,
        forall|j: int| 0 <= j < 64 && j != i ==> bit(u, j) == bit(v, j),
        !bit(u, i),
        bit(v, i),
        k <= 64,
    ensures
        weight_below(v, k) == weight_below(u, k) + (if i < k { 1nat } else { 0nat }),
    decreases k,
{
    if k > 0 {
        lemma_weight_flip(u, v, i, k - 1);
    }
}

/// A pattern with positive weight below `k` has a set bit below `k`.
pub proof fn lemma_weight_witness(x: u64, k: int) -> (i: int)
    requires
        weight_below(x, k) > 0,
    ensures
        0 <= i < k,
        bit(x, i),
    decreases k,
{
    if bit(x, k - 1) {
        k - 1
    } else {
        lemma_weight_witness(x, k - 1)
    }
}

/// A pattern with weight zero below `k` has no set bit below `k`.
pub proof fn lemma_weight_none(x: u64, k: int)
    requires
        weight_below(x, k) == 0,
    ensures
        forall|i: int| 0 <= i < k ==> !bit(x, i),
    decreases k,
{
    if k > 0 {
        lemma_weight_none(x, k - 1);
    }
}

/// Exclusive or commutes with widening from 32 to 64 bits.
pub proof fn lemma_xor_widen(a: u32, b: u32)
    by (bit_vector)
    ensures
        ((a ^ b) as u64) == (a as u64) ^ (b as u64),
{
}

/// Applying the same 32-bit pattern twice by exclusive or restores a pattern.
pub proof fn lemma_xor_twice(a: u32, b: u32)
    by (bit_vector)
    ensures
        (a ^ b) ^ b == a,
        a ^ 0 == a,
        a ^ a == 0,
        a ^ b == b ^ a,
        (a ^ b == 0) == (a == b),
{
}

/// Exclusive or of 32-bit patterns is associative and commutative.
pub proof fn lemma_xor_shuffle(a: u32, b: u32, c: u32)
    by (bit_vector)
    ensures
        (a ^ b) ^ c == (a ^ c) ^ b,
        (a ^ b) ^ c == a ^ (b ^ c),
        a ^ (b ^ a) == b,
        (a ^ b) ^ (c ^ b) == a ^ c,
        (a ^ c) ^ (a ^ b) == c ^ b,
{
}

/// The weight of `a ^ b` is at most the sum of the weights.
pub proof fn lemma_weight_xor_le(a: u64, b: u64, k: int)
    ensures
        weight_below(a ^ b, k) <= weight_below(a, k) + weight_below(b, k),
    decreases k,
{
    if k > 0 {
        lemma_weight_xor_le(a, b, k - 1);
        lemma_bit_ops(a, b);
    }
}

proof fn lemma_raw_shift(x: u64, n: u64)
    by (bit_vector)
    requires
        n < 64,
    ensures
        forall|i: u64| i < 64 && i + n < 64 ==> #[trigger] raw_bit(x >> n, i) == raw_bit(x, (i + n) as u64),
        forall|i: u64| i < 64 && i + n >= 64 ==> !#[trigger] raw_bit(x >> n, i),
        x >> n == 0 ==> x < (1u64 << n),
        x < (1u64 << n) ==> x >> n == 0,
        forall|i: u64| x < (1u64 << n) && n <= i < 64 ==> !#[trigger] raw_bit(x, i),
        n <= 32 ==> (1u64 << n) <= 0x1_0000_0000u64,
        n <= 26 ==> (1u64 << n) <= 0x400_0000u64,
{
}

/// A pattern lies within the low `n` indices exactly when, read as a
/// number, it is below `2^n`.
pub proof fn lemma_fits_lt(x: u64, n: int)
    requires
        0 <= n < 64,
    ensures
        fits(x, n) <==> x < (1u64 << (n as u64)),
        n <= 32 ==> (1u64 << (n as u64)) <= 0x1_0000_0000u64,
        n <= 26 ==> (1u64 << (n as u64)) <= 0x400_0000u64,
{
    let nu: u64 = n as u64;
    lemma_raw_shift(x, nu);
    if fits(x, n) {
        lemma_raw_single(0);
        assert forall|i: u64| i < 64 implies raw_bit(x >> nu, i) == raw_bit(0u64, i) by {
            if i + nu < 64 {
                assert(!bit(x, i + nu));
            }
        }
        lemma_raw_ext(x >> nu, 0u64);
    }
    if x < (1u64 << nu) {
        assert forall|i: int| n <= i < 64 implies !#[trigger] bit(x, i) by {
            assert(!raw_bit(x, i as u64));
        }
    }
}

/// The weight of `a ^ b` has the parity of the sum of the weights.
pub proof fn lemma_weight_xor(a: u64, b: u64, k: int)
    ensures
        (weight_below(a ^ b, k) + weight_below(a, k) + weight_below(b, k)) % 2 == 0,
    decreases k,
{
    if k > 0 {
        lemma_weight_xor(a, b, k - 1);
        lemma_bit_ops(a, b);
    }
}

/// Parity is linear: `odd(a ^ b)` is the exclusive or of `odd(a)` and `odd(b)`.
pub proof fn lemma_odd_xor(a: u64, b: u64)
    ensures
        odd(a ^ b) == (odd(a) != odd(b)),
{
    lemma_weight_xor(a, b, 64);
}

/// Tests bit `i` of `x`.
pub fn test_bit(x: u64, i: usize) -> (b: bool)
    requires
        i < 64,
    ensures
        b == bit(x, i as int),
{
    (x >> (i as u64)) & 1 == 1
}

/// Sets bit `i` of `x`.
pub fn with_bit(x: u64, i: usize) -> (r: u64)
    requires
        i < 64,
    ensures
        forall|j: int| #[trigger] bit(r, j) == (bit(x, j) || j == i),
        r == x | (1u64 << (i as u64)),
{
    let r: u64 = x | (1u64 << (i as u64));
    proof {
        lemma_bit_ops(x, 1u64 << (i as u64));
        lemma_bit_single(i as int);
    }
    r
}

/// Sets bit `i` of a 32-bit pattern that lies within `n` positions.
pub fn with_bit32(mask: u32, i: usize, n: usize) -> (r: u32)
    requires
        i < n <= 32,
        fits(mask as u64, n as int),
    ensures
        fits(r as u64, n as int),
        forall|j: int| #[trigger] bit(r as u64, j) == (bit(mask as u64, j) || j == i),
{
    let wide: u64 = with_bit(mask as u64, i);
    proof {
        assert(fits(wide, n as int));
        assert(fits(wide, 32));
        lemma_fits_lt(wide, 32);
    }
    wide as u32
}

/// Counts the set bits of `x`.
pub fn popcount(x: u64) -> (c: u64)
    ensures
        c == weight(x),
        c <= 64,
{
    let mut c: u64 = 0;
    let mut i: usize = 0;
    while i < 64
        invariant
            i <= 64,
            c == weight_below(x, i as int),
            c <= i,
        decreases 64 - i,
    {
        if test_bit(x, i) {
            c = c + 1;
        }
        i = i + 1;
    }
    c
}

} // verus!
