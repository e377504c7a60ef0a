//! The affine coset of a solution: enumeration of the combinations of a
//! basis, and the search for an element of least Hamming weight.
use vstd::prelude::*;
use crate::bits::{
    bit, fits, lemma_bit_ops, lemma_bit_single, lemma_xor_algebra, popcount, test_bit, weight,
};
use crate::gf2::in_span;
use vstd::arithmetic::power2::pow2;

verus! {

/// Combinations of two families combine to a combination of their
/// concatenation.
pub proof fn lemma_span_join(b1: Seq<u64>, b2: Seq<u64>, v1: u64, v2: u64)
    requires
        in_span(b1, v1),
        in_span(b2, v2),
    ensures
        in_span(b1 + b2, v1 ^ v2),
    decreases b2.len(),
{
    if b2.len() == 0 {
        assert(b1 + b2 =~= b1);
        lemma_xor_algebra(v1, v2, 0);
    } else {
        let init = b2.drop_last();
        let l = b2.last();
        assert((b1 + b2).drop_last() =~= b1 + init);
        assert((b1 + b2).last() == l);
        lemma_xor_algebra(v1, v2, l);
        if in_span(init, v2) {
            lemma_span_join(b1, init, v1, v2);
        } else {
            lemma_span_join(b1, init, v1, v2 ^ l);
        }
    }
}

/// A combination of a concatenation splits into a combination of each part.
pub proof fn lemma_span_split(b1: Seq<u64>, b2: Seq<u64>, v: u64) -> (v2: u64)
    requires
        in_span(b1 + b2, v),
    ensures
        in_span(b2, v2),
        in_span(b1, v ^ v2),
    decreases b2.len(),
{
    if b2.len() == 0 {
        assert(b1 + b2 =~= b1);
        lemma_xor_algebra(v, 0, 0);
        0u64
    } else {
        let init = b2.drop_last();
        let l = b2.last();
        assert((b1 + b2).drop_last() =~= b1 + init);
        assert((b1 + b2).last() == l);
        if in_span(b1 + init, v) {
            lemma_span_split(b1, init, v)
        } else {
            let w = lemma_span_split(b1, init, v ^ l);
            lemma_xor_algebra(w, l, 0);
            lemma_xor_algebra(v, l, w);
            lemma_xor_algebra(l, w, 0);
            w ^ l
        }
    }
}

/// Each vector of `basis` has a place of its own among `marks`: the bit
/// at that place is set in it and clear in the other vectors.
pub open spec fn marked(basis: Seq<u64>, marks: Seq<int>) -> bool {
    &&& marks.len() == basis.len()
    &&& forall|t: int, u: int|
        0 <= t < basis.len() && 0 <= u < basis.len() ==> bit(#[trigger] basis[t], #[trigger] marks[u]) == (t == u)
}

/// The vectors of `basis` are independent, each by a place of its own.
pub open spec fn independent(basis: Seq<u64>) -> bool {
    exists|marks: Seq<int>| marked(basis, marks)
}

/// Lists `seed` combined with every combination of `basis[from..to]`, by
/// doubling the list once per basis vector: two to the power of their
/// number in all, and each once where the vectors are independent.
pub fn expand(seed: u64, basis: &Vec<u64>, from: usize, to: usize) -> (list: Vec<u64>)
    requires
        from <= to <= basis.len(),
    ensures
        list.len() == pow2((to - from) as nat),
        list.len() >= 1,
        forall|y: u64| list@.contains(y) <==> in_span(basis@.subrange(from as int, to as int), y ^ seed),
        independent(basis@) ==> list@.no_duplicates(),
{
    let ghost ind = independent(basis@);
    let ghost marks = choose|marks: Seq<int>| marked(basis@, marks);
    let mut list: Vec<u64> = Vec::new();
    list.push(seed);
    proof {
        vstd::arithmetic::power2::lemma2_to64();
        lemma_xor_algebra(seed, seed, 0);
        assert(basis@.subrange(from as int, from as int).len() == 0);
        assert forall|y: u64| list@.contains(y) <==> in_span(
            basis@.subrange(from as int, from as int),
            y ^ seed,
        ) by {
            lemma_xor_algebra(y, seed, 0);
            if y == seed {
                assert(list@[0] == y);
            }
        }
    }
    let mut j: usize = from;
    while j < to
        invariant
            from <= j <= to <= basis.len(),
            list.len() >= 1,
            list.len() == pow2((j - from) as nat),
            forall|y: u64| list@.contains(y) <==> in_span(basis@.subrange(from as int, j as int), y ^ seed),
            ind ==> marked(basis@, marks),
            ind ==> list@.no_duplicates(),
            ind ==> forall|a: int, u: int|
                0 <= a < list.len() && j <= u < to ==> bit(#[trigger] list@[a], #[trigger] marks[u]) == bit(
                    seed,
                    marks[u],
                ),
        decreases to - j,
    {
        let b: u64 = basis[j];
        let len: usize = list.len();
        let ghost before = list@;
        let mut i: usize = 0;
        while i < len
            invariant
                i <= len,
                len == before.len(),
                list.len() == len + i,
                list@.subrange(0, len as int) == before,
                forall|t: int| 0 <= t < i ==> list@[len + t] == before[t] ^ b,
            decreases len - i,
        {
            let v: u64 = list[i];
            proof {
                assert(list@.subrange(0, len as int)[i as int] == before[i as int]);
            }
            list.push(v ^ b);
            proof {
                assert(list@.subrange(0, len as int) =~= before);
            }
            i = i + 1;
        }
        proof {
            vstd::arithmetic::power2::lemma_pow2_unfold((j - from + 1) as nat);
            if ind {
                assert(bit(basis@[j as int], marks[j as int]));
                assert forall|a: int| 0 <= a < list.len() implies #[trigger] list@[a] == (if a < len {
                    before[a]
                } else {
                    before[a - len] ^ b
                }) by {
                    if a < len {
                        assert(list@.subrange(0, len as int)[a] == before[a]);
                    } else {
                        assert(list@[len + (a - len)] == before[a - len] ^ b);
                    }
                }
                assert forall|a: int, u: int| 0 <= a < list.len() && j + 1 <= u < to implies bit(
                    #[trigger] list@[a],
                    #[trigger] marks[u],
                ) == bit(seed, marks[u]) by {
                    if a < len {
                        assert(bit(before[a], marks[u]) == bit(seed, marks[u]));
                    } else {
                        lemma_bit_ops(before[a - len], b);
                        assert(bit(before[a - len], marks[u]) == bit(seed, marks[u]));
                        assert(!bit(basis@[j as int], marks[u]));
                    }
                }
                assert forall|a: int, c: int| 0 <= a < list.len() && 0 <= c < list.len() && a != c implies list@[a]
                    != list@[c] by {
                    let mj = marks[j as int];
                    if a < len && c < len {
                        assert(before[a] != before[c]);
                    } else if a >= len && c >= len {
                        lemma_xor_algebra(before[a - len], b, 0);
                        lemma_xor_algebra(before[c - len], b, 0);
                        assert(before[a - len] != before[c - len]);
                    } else if a < len {
                        lemma_bit_ops(before[c - len], b);
                        assert(bit(before[a], mj) == bit(seed, mj));
                        assert(bit(before[c - len], mj) == bit(seed, mj));
                    } else {
                        lemma_bit_ops(before[a - len], b);
                        assert(bit(before[c], mj) == bit(seed, mj));
                        assert(bit(before[a - len], mj) == bit(seed, mj));
                    }
                }
            }
            let cur = basis@.subrange(from as int, j as int);
            let nxt = basis@.subrange(from as int, j as int + 1);
            assert(nxt.drop_last() =~= cur);
            assert(nxt.last() == b);
            assert forall|y: u64| list@.contains(y) <==> in_span(nxt, y ^ seed) by {
                lemma_xor_algebra(y, b, seed);
                lemma_xor_algebra(y, seed, b);
                if list@.contains(y) {
                    let t = choose|t: int| 0 <= t < list@.len() && list@[t] == y;
                    if t < len {
                        assert(list@.subrange(0, len as int)[t] == before[t]);
                        assert(before.contains(y));
                    } else {
                        assert(list@[len + (t - len)] == before[t - len] ^ b);
                        lemma_xor_algebra(before[t - len], b, 0);
                        assert(before.contains(y ^ b));
                    }
                }
                if in_span(nxt, y ^ seed) {
                    if in_span(cur, y ^ seed) {
                        assert(before.contains(y));
                        let t = choose|t: int| 0 <= t < before.len() && before[t] == y;
                        assert(list@.subrange(0, len as int)[t] == before[t]);
                        assert(list@[t] == y);
                    } else {
                        assert(in_span(cur, (y ^ b) ^ seed));
                        assert(before.contains(y ^ b));
                        let t = choose|t: int| 0 <= t < before.len() && before[t] == y ^ b;
                        assert(list@[len + t] == before[t] ^ b);
                        assert(list@[len + t] == y);
                    }
                }
            }
        }
        j = j + 1;
    }
    list
}

/// Finds an element of least Hamming weight in the coset of `particular`
/// under the span of `basis`, by meeting in the middle: the combinations of
/// each half of the basis are listed once and every pair is scored.
///
/// Returns the least weight and an element that has it.
pub fn min_weight_coset(particular: u64, basis: &Vec<u64>) -> (res: (u64, u64))
    ensures
        res.0 == weight(res.1),
        in_span(basis@, res.1 ^ particular),
        forall|v: u64| in_span(basis@, v) ==> res.0 <= weight(particular ^ v),
{
    let k: usize = basis.len();
    if k == 0 {
        proof {
            lemma_xor_algebra(particular, particular, 0);
            assert forall|v: u64| in_span(basis@, v) implies weight(particular) <= weight(particular ^ v) by {
                lemma_xor_algebra(particular, v, 0);
            }
        }
        return (popcount(particular), particular);
    }
    let k1: usize = k / 2;
    let sums1 = expand(0, basis, 0, k1);
    let sums2 = expand(0, basis, k1, k);
    let ghost b1 = basis@.subrange(0, k1 as int);
    let ghost b2 = basis@.subrange(k1 as int, k as int);
    proof {
        assert(b1 + b2 =~= basis@);
    }
    let mut best: u64 = particular ^ (sums1[0] ^ sums2[0]);
    let mut best_w: u64 = popcount(best);
    proof {
        let s1 = sums1@[0];
        let s2 = sums2@[0];
        assert(sums1@.contains(s1));
        assert(sums2@.contains(s2));
        lemma_xor_algebra(s1, s2, 0);
        lemma_span_join(b1, b2, s1, s2);
        lemma_xor_algebra(s1 ^ s2, particular, 0);
    }
    let mut i1: usize = 0;
    while i1 < sums1.len()
        invariant
            i1 <= sums1.len(),
            best_w == weight(best),
            in_span(basis@, best ^ particular),
            b1 + b2 == basis@,
            forall|y: u64| sums1@.contains(y) <==> in_span(b1, y ^ 0),
            forall|y: u64| sums2@.contains(y) <==> in_span(b2, y ^ 0),
            forall|a: int, b: int|
                0 <= a < i1 && 0 <= b < sums2.len() ==> best_w <= weight(
                    particular ^ (#[trigger] sums1@[a] ^ #[trigger] sums2@[b]),
                ),
        decreases sums1.len() - i1,
    {
        let s1: u64 = sums1[i1];
        let mut i2: usize = 0;
        while i2 < sums2.len()
            invariant
                i1 < sums1.len(),
                i2 <= sums2.len(),
                s1 == sums1@[i1 as int],
                best_w == weight(best),
                in_span(basis@, best ^ particular),
                b1 + b2 == basis@,
                forall|y: u64| sums1@.contains(y) <==> in_span(b1, y ^ 0),
                forall|y: u64| sums2@.contains(y) <==> in_span(b2, y ^ 0),
                forall|a: int, b: int|
                    0 <= a < i1 && 0 <= b < sums2.len() ==> best_w <= weight(
                        particular ^ (#[trigger] sums1@[a] ^ #[trigger] sums2@[b]),
                    ),
                forall|b: int| 0 <= b < i2 ==> best_w <= weight(particular ^ (s1 ^ #[trigger] sums2@[b])),
            decreases sums2.len() - i2,
        {
            let s2: u64 = sums2[i2];
            let cand: u64 = particular ^ (s1 ^ s2);
            let w: u64 = popcount(cand);
            if w < best_w {
                best = cand;
                best_w = w;
                proof {
                    assert(sums1@.contains(s1));
                    assert(sums2@.contains(s2));
                    lemma_xor_algebra(s1, s2, 0);
                    lemma_span_join(b1, b2, s1, s2);
                    lemma_xor_algebra(s1 ^ s2, particular, 0);
                }
            }
            i2 = i2 + 1;
        }
        i1 = i1 + 1;
    }
    proof {
        assert forall|v: u64| in_span(basis@, v) implies best_w <= weight(particular ^ v) by {
            let v2 = lemma_span_split(b1, b2, v);
            let v1 = v ^ v2;
            lemma_xor_algebra(v1, v2, 0);
            lemma_xor_algebra(v, v2, 0);
            assert(sums1@.contains(v1));
            assert(sums2@.contains(v2));
            let a = choose|a: int| 0 <= a < sums1@.len() && sums1@[a] == v1;
            let b = choose|b: int| 0 <= b < sums2@.len() && sums2@[b] == v2;
            assert(best_w <= weight(particular ^ (sums1@[a] ^ sums2@[b])));
        }
    }
    (best_w, best)
}


/// The combination of the first `k` basis vectors that `bits` selects.
pub open spec fn combo(basis: Seq<u64>, bits: u64, k: int) -> u64
    decreases k,
{
    if k <= 0 {
        0u64
    } else {
        combo(basis, bits, k - 1) ^ (if bit(bits, k - 1) {
            basis[k - 1]
        } else {
            0u64
        })
    }
}

/// A selected combination lies in the span of the vectors it draws on.
pub proof fn lemma_combo_span(basis: Seq<u64>, bits: u64, k: int)
    requires
        0 <= k <= basis.len(),
    ensures
        in_span(basis.subrange(0, k), combo(basis, bits, k)),
    decreases k,
{
    if k == 0 {
        assert(basis.subrange(0, 0).len() == 0);
    } else {
        lemma_combo_span(basis, bits, k - 1);
        let s = basis.subrange(0, k);
        assert(s.drop_last() =~= basis.subrange(0, k - 1));
        assert(s.last() == basis[k - 1]);
        lemma_xor_algebra(combo(basis, bits, k - 1), basis[k - 1], 0);
    }
}

/// Combinations that select alike from like vectors are equal.
pub proof fn lemma_combo_same(b1: Seq<u64>, b2: Seq<u64>, x: u64, y: u64, k: int)
    requires
        0 <= k <= b1.len(),
        k <= b2.len(),
        forall|i: int| 0 <= i < k ==> b1[i] == b2[i] && bit(x, i) == bit(y, i),
    ensures
        combo(b1, x, k) == combo(b2, y, k),
    decreases k,
{
    if k > 0 {
        lemma_combo_same(b1, b2, x, y, k - 1);
    }
}

/// Every element of a span is the combination that some selection picks.
pub proof fn lemma_span_index(basis: Seq<u64>, v: u64) -> (bits: u64)
    requires
        in_span(basis, v),
        basis.len() <= 64,
    ensures
        fits(bits, basis.len() as int),
        combo(basis, bits, basis.len() as int) == v,
    decreases basis.len(),
{
    let k = basis.len() as int;
    lemma_bit_single(0);
    if k == 0 {
        0u64
    } else {
        let init = basis.drop_last();
        let l = basis.last();
        if in_span(init, v) {
            let bits = lemma_span_index(init, v);
            lemma_combo_same(init, basis, bits, bits, k - 1);
            assert(!bit(bits, k - 1));
            lemma_xor_algebra(v, 0, 0);
            bits
        } else {
            let low = lemma_span_index(init, v ^ l);
            let bits = low | (1u64 << ((k - 1) as u64));
            lemma_bit_single(k - 1);
            lemma_bit_ops(low, 1u64 << ((k - 1) as u64));
            lemma_combo_same(init, basis, low, bits, k - 1);
            lemma_xor_algebra(v, l, 0);
            assert(bit(bits, k - 1));
            assert(fits(bits, k)) by {
                assert forall|i: int| k <= i < 64 implies !#[trigger] bit(bits, i) by {
                    assert(!bit(low, i));
                }
            }
            bits
        }
    }
}

/// Computes `seed` combined with the basis vectors that `bits` selects.
pub fn seeded_combo(seed: u64, basis: &Vec<u64>, bits: u64) -> (r: u64)
    requires
        basis.len() <= 64,
    ensures
        r == seed ^ combo(basis@, bits, basis.len() as int),
{
    let mut acc: u64 = seed;
    let mut idx: usize = 0;
    proof {
        lemma_xor_algebra(seed, 0, 0);
    }
    while idx < basis.len()
        invariant
            idx <= basis.len() <= 64,
            acc == seed ^ combo(basis@, bits, idx as int),
        decreases basis.len() - idx,
    {
        proof {
            lemma_xor_algebra(seed, combo(basis@, bits, idx as int), basis@[idx as int]);
            lemma_xor_algebra(seed ^ combo(basis@, bits, idx as int), 0, 0);
            lemma_xor_algebra(combo(basis@, bits, idx as int), 0, 0);
        }
        if test_bit(bits, idx) {
            acc = acc ^ basis[idx];
        }
        idx = idx + 1;
    }
    acc
}

} // verus!
