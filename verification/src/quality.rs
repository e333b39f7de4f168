//! Quality gating: a Shannon-entropy estimator over a chunk's byte
//! distribution and a lens-coverage detector over a pixel buffer.
//!
//! A chunk is admitted to the output pool only when its entropy score meets a
//! configured threshold; an obstructed lens yields a near-uniform frame, which
//! the coverage detector reports as a distinct-value count below a threshold.

use vstd::arithmetic::div_mod::{
    lemma_div_denominator, lemma_div_is_ordered, lemma_div_multiples_vanish,
    lemma_fundamental_div_mod, lemma_multiply_divide_lt,
};
use vstd::arithmetic::mul::lemma_mul_inequality;
use vstd::arithmetic::power2::{
    lemma2_to64, lemma2_to64_rest, lemma_pow2_strictly_increases, lemma_pow2_unfold, pow2,
};
use vstd::prelude::*;

verus! {

/// How many distinct byte values occur in a buffer.
pub open spec fn distinct_count(s: Seq<u8>) -> nat
    decreases s.len(),
{
    if s.len() == 0 {
        0
    } else {
        distinct_count(s.drop_last()) + (if s.drop_last().contains(s.last()) {
            0nat
        } else {
            1nat
        })
    }
}

/// How many times the byte value `v` occurs in a buffer.
pub open spec fn count_occ(s: Seq<u8>, v: u8) -> nat
    decreases s.len(),
{
    if s.len() == 0 {
        0
    } else {
        count_occ(s.drop_last(), v) + (if s.last() == v {
            1nat
        } else {
            0nat
        })
    }
}

/// A value occurs no more often than the buffer is long.
pub proof fn lemma_count_occ_le_len(s: Seq<u8>, v: u8)
    ensures
        count_occ(s, v) <= s.len(),
    decreases s.len(),
{
    if s.len() > 0 {
        lemma_count_occ_le_len(s.drop_last(), v);
    }
}

/// Reports whether the camera lens looks obstructed: true when the grayscale
/// frame holds fewer distinct brightness values than `threshold`, since an
/// obstructed lens yields a near-uniform frame.
pub fn is_covered(grayscale: &[u8], threshold: usize) -> (covered: bool)
    ensures
        covered == (distinct_count(grayscale@) < threshold),
{
    let mut seen: Vec<bool> = Vec::new();
    let mut v: usize = 0;
    while v < 256
        invariant
            v <= 256,
            seen@.len() == v,
            forall|k: int| 0 <= k < v ==> !seen@[k],
        decreases 256 - v,
    {
        seen.push(false);
        v += 1;
    }
    let mut count: usize = 0;
    let mut i: usize = 0;
    proof {
        assert(grayscale@.take(0) =~= Seq::<u8>::empty());
    }
    while i < grayscale.len()
        invariant
            i <= grayscale@.len(),
            count <= i,
            seen@.len() == 256,
            count == distinct_count(grayscale@.take(i as int)),
            forall|k: int|
                0 <= k < 256 ==> #[trigger] seen@[k] == grayscale@.take(i as int).contains(k as u8),
        decreases grayscale@.len() - i,
    {
        let ghost done = grayscale@.take(i as int);
        let ghost next = grayscale@.take(i + 1);
        let pixel = grayscale[i];
        proof {
            assert(next.drop_last() =~= done);
            assert(next.last() == grayscale@[i as int]);
            assert forall|k: int| 0 <= k < 256 implies #[trigger] next.contains(k as u8) == (
            done.contains(k as u8) || k == pixel as int) by {
                if done.contains(k as u8) {
                    let j = choose|j: int| 0 <= j < done.len() && done[j] == k as u8;
                    assert(next[j] == k as u8);
                }
                if k == pixel as int {
                    assert(next[next.len() - 1] == k as u8);
                }
                if next.contains(k as u8) && k != pixel as int {
                    let j = choose|j: int| 0 <= j < next.len() && next[j] == k as u8;
                    assert(done[j] == k as u8);
                }
            }
        }
        if !seen[pixel as usize] {
            seen.set(pixel as usize, true);
            count += 1;
        }
        i += 1;
    }
    proof {
        assert(grayscale@.take(grayscale@.len() as int) =~= grayscale@);
    }
    count < threshold
}

/// Builds the byte-value histogram of a buffer: entry `v` holds how often
/// the byte value `v` occurs.
pub fn byte_histogram(data: &[u8]) -> (counts: Vec<usize>)
    ensures
        counts@.len() == 256,
        forall|v: int| 0 <= v < 256 ==> #[trigger] counts@[v] == count_occ(data@, v as u8),
{
    let mut counts: Vec<usize> = Vec::new();
    let mut v: usize = 0;
    while v < 256
        invariant
            v <= 256,
            counts@.len() == v,
            forall|k: int| 0 <= k < v ==> counts@[k] == 0,
        decreases 256 - v,
    {
        counts.push(0);
        v += 1;
    }
    let mut i: usize = 0;
    proof {
        assert(data@.take(0) =~= Seq::<u8>::empty());
    }
    while i < data.len()
        invariant
            i <= data@.len(),
            counts@.len() == 256,
            forall|k: int|
                0 <= k < 256 ==> #[trigger] counts@[k] == count_occ(data@.take(i as int), k as u8),
            forall|k: int| 0 <= k < 256 ==> #[trigger] counts@[k] <= i,
        decreases data@.len() - i,
    {
        let ghost done = data@.take(i as int);
        let ghost next = data@.take(i + 1);
        proof {
            assert(next.drop_last() =~= done);
            assert(next.last() == data@[i as int]);
        }
        let pixel = data[i];
        let c = counts[pixel as usize];
        counts.set(pixel as usize, c + 1);
        i += 1;
    }
    proof {
        assert(data@.take(data@.len() as int) =~= data@);
    }
    counts
}

/// The integer part of the base-2 logarithm; 0 for inputs below 2.
pub open spec fn floor_log2(n: nat) -> nat
    decreases n,
{
    if n <= 1 {
        0
    } else {
        1 + floor_log2(n / 2)
    }
}

/// The top `k` fraction bits of the base-2 logarithm of a mantissa `y`
/// normalized to [2^32, 2^33), computed by repeated squaring in Q32 fixed
/// point, most significant fraction bit first.
pub open spec fn frac_bits(y: nat, k: nat) -> nat
    decreases k,
{
    if k == 0 {
        0
    } else {
        let sq = (y * y) / 0x100000000;
        if sq >= 0x200000000 {
            pow2((k - 1) as nat) + frac_bits(sq / 2, (k - 1) as nat)
        } else {
            frac_bits(sq, (k - 1) as nat)
        }
    }
}

/// The base-2 logarithm in Q32 fixed point (scale 2^32, truncated): the
/// integer part shifted up 32 bits plus 32 fraction bits of the normalized
/// mantissa.
pub open spec fn log2_q32(c: nat) -> nat {
    floor_log2(c) * 0x100000000 + frac_bits(c * 0x100000000 / pow2(floor_log2(c)), 32)
}

/// The fraction bits stay below their scale.
pub proof fn lemma_frac_bits_bound(y: nat, k: nat)
    ensures
        frac_bits(y, k) < pow2(k),
    decreases k,
{
    if k == 0 {
        assert(pow2(0) == 1) by {
            lemma2_to64();
        }
    } else {
        let sq = (y * y) / 0x100000000;
        lemma_pow2_unfold(k);
        if sq >= 0x200000000 {
            lemma_frac_bits_bound(sq / 2, (k - 1) as nat);
        } else {
            lemma_frac_bits_bound(sq, (k - 1) as nat);
        }
    }
}

/// An exactly normalized mantissa of 1.0 has no fraction bits: squaring
/// 2^32 in Q32 gives 2^32 again.
pub proof fn lemma_frac_bits_unit(k: nat)
    ensures
        frac_bits(0x100000000, k) == 0,
    decreases k,
{
    if k > 0 {
        assert((0x100000000nat * 0x100000000nat) / 0x100000000nat == 0x100000000nat);
        lemma_frac_bits_unit((k - 1) as nat);
    }
}

/// The Q32 logarithm of 1 is 0.
pub proof fn lemma_log2_q32_one()
    ensures
        log2_q32(1) == 0,
{
    assert(floor_log2(1) == 0);
    assert(pow2(0) == 1) by {
        lemma2_to64();
    }
    assert(1nat * 0x100000000nat / 1nat == 0x100000000nat);
    lemma_frac_bits_unit(32);
}

/// The Q32 logarithm of 256 is exactly 8 shifted up 32 bits.
pub proof fn lemma_log2_q32_256()
    ensures
        log2_q32(256) == 8 * 0x100000000,
{
    reveal_with_fuel(floor_log2, 10);
    assert(floor_log2(256) == 8);
    assert(pow2(8) == 256) by {
        lemma2_to64();
    }
    assert(256nat * 0x100000000nat / 256nat == 0x100000000nat);
    lemma_frac_bits_unit(32);
}

/// The base-2 logarithm of a 64-bit value in Q32 fixed point, by binary
/// normalization and 32 squaring steps.
pub fn log2_q32_exec(c: u64) -> (r: u64)
    requires
        c >= 1,
    ensures
        r as nat == log2_q32(c as nat),
{
    let mut t: u64 = c;
    let mut e: u64 = 0;
    let mut p: u64 = 1;
    proof {
        lemma2_to64();
    }
    while t > 1
        invariant
            c >= 1,
            t >= 1,
            p >= 1,
            e <= 63,
            p == pow2(e as nat),
            t as nat == c as nat / pow2(e as nat),
            floor_log2(c as nat) == e + floor_log2(t as nat),
            p <= c,
        decreases t,
    {
        proof {
            lemma_fundamental_div_mod(c as int, p as int);
            lemma_mul_inequality(2, t as int, p as int);
            assert(2 * p <= c);
            lemma_pow2_unfold((e + 1) as nat);
            lemma_div_denominator(c as int, p as int, 2);
            if e + 1 >= 64 {
                if e + 1 > 64 {
                    lemma_pow2_strictly_increases(64, (e + 1) as nat);
                }
                lemma2_to64_rest();
                assert(pow2((e + 1) as nat) >= pow2(64));
                assert(false);
            }
        }
        t = t / 2;
        e = e + 1;
        p = p * 2;
    }
    proof {
        assert(floor_log2(1nat) == 0);
        assert(e == floor_log2(c as nat));
        if e >= 64 {
            if e > 64 {
                lemma_pow2_strictly_increases(64, e as nat);
            }
            lemma2_to64_rest();
            assert(pow2(e as nat) >= pow2(64));
            assert(false);
        }
        lemma_fundamental_div_mod(c as int, p as int);
        assert(c < 2 * p);
    }
    // Normalize the mantissa to [2^32, 2^33) in Q32 and square out 32
    // fraction bits.
    let y0: u128 = (c as u128) * 0x100000000u128 / (p as u128);
    proof {
        assert((p as int * 0x100000000) / p as int == 0x100000000) by {
            lemma_div_multiples_vanish(0x100000000, p as int);
        }
        assert(c as int * 0x100000000 >= p as int * 0x100000000) by {
            lemma_mul_inequality(p as int, c as int, 0x100000000);
        }
        lemma_div_is_ordered(p as int * 0x100000000, c as int * 0x100000000, p as int);
        assert(y0 >= 0x100000000);
        assert(c as int * 0x100000000 < (2 * p as int) * 0x100000000) by {
            lemma_mul_inequality(c as int + 1, 2 * p as int, 0x100000000);
        }
        assert((2 * p as int) * 0x100000000 == (p as int) * 0x200000000) by (nonlinear_arith);
        lemma_multiply_divide_lt(c as int * 0x100000000, p as int, 0x200000000);
        assert(y0 < 0x200000000);
    }
    let mut y: u128 = y0;
    let mut acc: u64 = 0;
    let mut k: u64 = 32;
    while k > 0
        invariant
            0x100000000 <= y < 0x200000000,
            k <= 32,
            acc < pow2((32 - k) as nat),
            acc as nat * pow2(k as nat) + frac_bits(y as nat, k as nat) == frac_bits(
                y0 as nat,
                32,
            ),
        decreases k,
    {
        proof {
            assert(y * y >= 0x100000000 * 0x100000000) by (nonlinear_arith)
                requires y >= 0x100000000;
            assert(y * y < 0x200000000 * 0x200000000) by (nonlinear_arith)
                requires y < 0x200000000 && y >= 0;
            lemma_div_is_ordered(0x100000000int * 0x100000000int, (y * y) as int, 0x100000000);
            assert(0x200000000int * 0x200000000int == 0x100000000int * 0x400000000int);
            lemma_multiply_divide_lt((y * y) as int, 0x100000000, 0x400000000);
        }
        let sq: u128 = (y * y) / 0x100000000u128;
        let ghost k0 = k as nat;
        let ghost acc0 = acc as nat;
        let ghost y_old = y as nat;
        proof {
            lemma_pow2_unfold(k0);
            lemma_pow2_unfold((33 - k0) as nat);
            lemma_frac_bits_bound((sq / 2) as nat, (k0 - 1) as nat);
            lemma_frac_bits_bound(sq as nat, (k0 - 1) as nat);
            assert(acc < 0x80000000) by {
                if (32 - k0) < 31 {
                    lemma_pow2_strictly_increases((32 - k0) as nat, 31);
                }
                lemma2_to64();
            }
        }
        if sq >= 0x200000000u128 {
            y = sq / 2;
            acc = acc * 2 + 1;
            proof {
                assert(frac_bits(y_old, k0) == pow2((k0 - 1) as nat) + frac_bits(
                    (sq / 2) as nat,
                    (k0 - 1) as nat,
                ));
                assert((2 * acc0 + 1) * pow2((k0 - 1) as nat) == acc0 * (2 * pow2(
                    (k0 - 1) as nat,
                )) + pow2((k0 - 1) as nat)) by (nonlinear_arith);
            }
        } else {
            y = sq;
            acc = acc * 2;
            proof {
                assert(frac_bits(y_old, k0) == frac_bits(sq as nat, (k0 - 1) as nat));
                assert((2 * acc0) * pow2((k0 - 1) as nat) == acc0 * (2 * pow2((k0 - 1) as nat)))
                    by (nonlinear_arith);
            }
        }
        k = k - 1;
    }
    proof {
        assert(pow2(0) == 1) by {
            lemma2_to64();
        }
        assert(frac_bits(y as nat, 0) == 0);
        assert(acc as nat * pow2(0) + frac_bits(y as nat, 0) == frac_bits(y0 as nat, 32));
        assert(acc as nat == frac_bits(y0 as nat, 32)) by (nonlinear_arith)
            requires
                acc as nat * pow2(0) + frac_bits(y as nat, 0) == frac_bits(y0 as nat, 32),
                frac_bits(y as nat, 0) == 0,
                pow2(0) == 1,
        ;
        lemma_frac_bits_bound(y0 as nat, 32);
        assert(pow2(32) == 0x100000000) by {
            lemma2_to64();
        }
        assert(e <= 63);
    }
    e * 0x100000000u64 + acc
}

/// The Q32-weighted log contribution of all byte values from `v` upward:
/// each value's count times the Q32 logarithm of that count.
pub open spec fn weighted_log_sum(s: Seq<u8>, v: int) -> nat
    decreases 256 - v,
    when 0 <= v <= 256
{
    if v >= 256 {
        0
    } else {
        count_occ(s, v as u8) * log2_q32(count_occ(s, v as u8)) + weighted_log_sum(s, v + 1)
    }
}

/// The Shannon entropy of a buffer's byte distribution in Q32 fixed point:
/// `log2(n) - (1/n) * sum(count_v * log2(count_v))`, computed over the
/// truncating Q32 logarithm, and 0 for an empty buffer. A score of 8 bits
/// per byte is the value `8 * 2^32`.
pub open spec fn shannon_q32(s: Seq<u8>) -> nat {
    if s.len() == 0 {
        0
    } else {
        let total = (s.len() * log2_q32(s.len())) as int;
        let wsum = weighted_log_sum(s, 0) as int;
        if total >= wsum {
            ((total - wsum) / (s.len() as int)) as nat
        } else {
            0
        }
    }
}

/// Every count and every Q32 logarithm of a count of an `n`-byte buffer is
/// small enough that the weighted sum fits comfortably in 128 bits.
pub proof fn lemma_log2_q32_word_bound(c: nat)
    requires
        c <= u64::MAX,
    ensures
        log2_q32(c) < 0x4000000000,
{
    lemma_floor_log2_word(c);
    lemma_frac_bits_bound(c * 0x100000000 / pow2(floor_log2(c)), 32);
    assert(pow2(32) == 0x100000000) by {
        lemma2_to64();
    }
    let a = floor_log2(c) * 0x100000000;
    let b = frac_bits(c * 0x100000000 / pow2(floor_log2(c)), 32);
    assert(a <= 0x3F00000000) by (nonlinear_arith)
        requires
            floor_log2(c) <= 63,
            a == floor_log2(c) * 0x100000000,
    ;
    assert(b < 0x100000000);
    assert(log2_q32(c) == a + b);
    assert(a + b < 0x4000000000) by (nonlinear_arith)
        requires
            a <= 0x3F00000000,
            b < 0x100000000,
    ;
}

/// The integer part of the logarithm of a 64-bit value is at most 63.
proof fn lemma_floor_log2_word(c: nat)
    requires
        c <= u64::MAX,
    ensures
        floor_log2(c) <= 63,
{
    lemma2_to64_rest();
    lemma_floor_log2_le(c, 63);
}

/// Halving at most `b` times reaches 1: `floor_log2(c) <= b` once
/// `c < pow2(b + 1)`.
proof fn lemma_floor_log2_le(c: nat, b: nat)
    requires
        c < pow2(b + 1),
    ensures
        floor_log2(c) <= b,
    decreases c,
{
    if c > 1 {
        if b == 0 {
            assert(pow2(1) == 2) by {
                lemma2_to64();
            }
            assert(false);
        } else {
            lemma_pow2_unfold(b + 1);
            lemma_floor_log2_le(c / 2, (b - 1) as nat);
        }
    } else {
        lemma2_to64();
    }
}

/// Shannon entropy of a byte buffer in Q32 fixed point (the true score in
/// bits per byte times 2^32): builds the byte histogram, sums each observed
/// value's `count * log2(count)`, and subtracts from `n * log2(n)`, all in
/// truncating fixed-point arithmetic. Returns 0 for an empty buffer.
pub fn shannon(data: &[u8]) -> (score: u64)
    ensures
        score as nat == shannon_q32(data@),
{
    let n = data.len();
    if n == 0 {
        return 0;
    }
    let counts = byte_histogram(data);
    let mut wsum: u128 = 0;
    let mut v: usize = 0;
    while v < 256
        invariant
            v <= 256,
            n == data@.len(),
            n >= 1,
            counts@.len() == 256,
            forall|k: int|
                0 <= k < 256 ==> #[trigger] counts@[k] == count_occ(data@, k as u8),
            wsum as nat + weighted_log_sum(data@, v as int) == weighted_log_sum(data@, 0),
            wsum <= (v as nat) * (n as nat) * 0x4000000000,
        decreases 256 - v,
    {
        let c = counts[v];
        proof {
            lemma_count_occ_le_len(data@, v as u8);
            lemma_log2_q32_word_bound(c as nat);
            assert(weighted_log_sum(data@, v as int) == count_occ(data@, v as u8) * log2_q32(
                count_occ(data@, v as u8),
            ) + weighted_log_sum(data@, v as int + 1));
            assert((v as nat) * (n as nat) * 0x4000000000 + (n as nat) * 0x4000000000 == ((
            v + 1) as nat) * (n as nat) * 0x4000000000) by (nonlinear_arith);
            assert((v as nat) * (n as nat) * 0x4000000000 <= 256 * (n as nat) * 0x4000000000)
                by (nonlinear_arith)
                requires v <= 256;
        }
        let ghost wsum0 = wsum as nat;
        if c > 0 {
            let l = log2_q32_exec(c as u64);
            proof {
                assert((c as nat) * (l as nat) <= (n as nat) * 0x4000000000) by (nonlinear_arith)
                    requires c as nat <= n as nat && (l as nat) < 0x4000000000 && c as nat >= 0;
                assert(256 * (n as nat) * 0x4000000000 + (n as nat) * 0x4000000000 <= u128::MAX)
                    by (nonlinear_arith)
                    requires n as nat <= u64::MAX;
            }
            wsum = wsum + (c as u128) * (l as u128);
            proof {
                assert(c as nat == count_occ(data@, v as u8));
                assert(l as nat == log2_q32(count_occ(data@, v as u8)));
                assert(wsum as nat == wsum0 + count_occ(data@, v as u8) * log2_q32(
                    count_occ(data@, v as u8),
                ));
            }
        } else {
            proof {
                lemma_log2_q32_zero();
                assert(c as nat == count_occ(data@, v as u8));
                assert(count_occ(data@, v as u8) == 0);
                assert(count_occ(data@, v as u8) * log2_q32(count_occ(data@, v as u8)) == 0);
            }
        }
        v += 1;
    }
    let ln = log2_q32_exec(n as u64);
    proof {
        lemma_log2_q32_word_bound(n as nat);
        assert((n as u128) * (ln as u128) <= (n as nat) * 0x4000000000) by (nonlinear_arith)
            requires (ln as nat) < 0x4000000000 && n as nat >= 0;
    }
    let total: u128 = (n as u128) * (ln as u128);
    if total >= wsum {
        let diff: u128 = total - wsum;
        proof {
            lemma_div_is_ordered(diff as int, total as int, n as int);
            lemma_div_multiples_vanish(ln as int, n as int);
        }
        (diff / (n as u128)) as u64
    } else {
        0
    }
}

/// The Q32 logarithm of 0 is 0, so an absent byte value contributes nothing
/// to the weighted sum.
proof fn lemma_log2_q32_zero()
    ensures
        log2_q32(0) == 0,
{
    assert(floor_log2(0) == 0);
    assert(pow2(0) == 1) by {
        lemma2_to64();
    }
    assert(0nat * 0x100000000nat / 1nat == 0nat);
    lemma_frac_bits_zero(32);
}

/// An empty buffer scores zero entropy.
pub proof fn lemma_shannon_empty()
    ensures
        shannon_q32(Seq::<u8>::empty()) == 0,
{
}

/// Every byte value whose count in the buffer is 1 contributes nothing to
/// the weighted log sum, since `log2(1) == 0`.
proof fn lemma_weighted_log_sum_ones(s: Seq<u8>, v: int)
    requires
        0 <= v <= 256,
        forall|b: u8| count_occ(s, b) == 1,
    ensures
        weighted_log_sum(s, v) == 0,
    decreases 256 - v,
{
    if v < 256 {
        lemma_weighted_log_sum_ones(s, v + 1);
        lemma_log2_q32_one();
        assert(count_occ(s, v as u8) == 1);
    }
}

/// A buffer holding each of the 256 byte values exactly once scores the
/// maximum entropy of exactly 8 bits per byte: `8 * 2^32` in Q32.
pub proof fn lemma_shannon_all_distinct(s: Seq<u8>)
    requires
        s.len() == 256,
        forall|b: u8| count_occ(s, b) == 1,
    ensures
        shannon_q32(s) == 8 * 0x100000000,
{
    lemma_weighted_log_sum_ones(s, 0);
    lemma_log2_q32_256();
    lemma_div_multiples_vanish(0x800000000, 256);
    assert((256int * 0x800000000int) / 256int == 0x800000000int);
    assert((s.len() * log2_q32(s.len())) as int == 256int * 0x800000000int) by (nonlinear_arith)
        requires
            s.len() == 256,
            log2_q32(s.len()) == 8 * 0x100000000,
    ;
}

/// In a buffer of one repeated byte value, that value's count is the whole
/// length and every other value's count is zero.
pub proof fn lemma_count_occ_uniform(s: Seq<u8>, b: u8, v: u8)
    requires
        forall|i: int| 0 <= i < s.len() ==> s[i] == b,
    ensures
        count_occ(s, v) == if v == b {
            s.len()
        } else {
            0nat
        },
    decreases s.len(),
{
    if s.len() > 0 {
        assert(forall|i: int| 0 <= i < s.drop_last().len() ==> s.drop_last()[i] == b);
        lemma_count_occ_uniform(s.drop_last(), b, v);
        assert(s.last() == b);
    }
}

/// With one value carrying the whole count, the weighted log sum from `v`
/// upward is the whole buffer's `n * log2(n)` when `v` has not yet passed
/// that value, and nothing afterwards.
proof fn lemma_weighted_log_sum_single(s: Seq<u8>, b: u8, v: int)
    requires
        0 <= v <= 256,
        count_occ(s, b) == s.len(),
        forall|w: u8| w != b ==> count_occ(s, w) == 0,
    ensures
        weighted_log_sum(s, v) == if v <= b as int {
            s.len() * log2_q32(s.len())
        } else {
            0nat
        },
    decreases 256 - v,
{
    if v < 256 {
        lemma_weighted_log_sum_single(s, b, v + 1);
        if v == b as int {
            assert(count_occ(s, v as u8) == s.len());
        } else {
            assert(v as u8 != b);
            assert(count_occ(s, v as u8) == 0);
        }
    }
}

/// A non-empty buffer of one repeated byte value scores zero entropy.
pub proof fn lemma_shannon_uniform(s: Seq<u8>, b: u8)
    requires
        s.len() >= 1,
        forall|i: int| 0 <= i < s.len() ==> s[i] == b,
    ensures
        shannon_q32(s) == 0,
{
    assert forall|w: u8| w != b implies count_occ(s, w) == 0 by {
        lemma_count_occ_uniform(s, b, w);
    }
    lemma_count_occ_uniform(s, b, b);
    lemma_weighted_log_sum_single(s, b, 0);
    assert(weighted_log_sum(s, 0) == s.len() * log2_q32(s.len()));
    assert(0int / (s.len() as int) == 0int) by (nonlinear_arith)
        requires s.len() >= 1;
}

/// A zero mantissa has no fraction bits.
proof fn lemma_frac_bits_zero(k: nat)
    ensures
        frac_bits(0, k) == 0,
    decreases k,
{
    if k > 0 {
        assert((0nat * 0nat) / 0x100000000nat == 0nat);
        lemma_frac_bits_zero((k - 1) as nat);
    }
}

} // verus!
