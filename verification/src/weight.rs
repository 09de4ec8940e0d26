//! Quantized TF-IDF weights in pure integer arithmetic.
//!
//! The weight of a term in a document quantizes
//! `raw/token_count * WEIGHT_MULTIPLIER * (1 + log10(total_docs/num_docs))`
//! with a single floor: the integer part of the logarithm is exact, its
//! fraction is computed to 20 binary digits by repeated squaring of a 48-bit
//! fixed-point mantissa, and the scaled idf is carried at 2^20 extra
//! precision into one final division.

use vstd::prelude::*;
use vstd::arithmetic::div_mod::*;
use vstd::arithmetic::mul::lemma_mul_inequality;
use vstd::arithmetic::mul::lemma_mul_strict_inequality;
use crate::constants::WEIGHT_MULTIPLIER;

verus! {

/// 2^48, the fixed-point scale of the mantissa.
pub const FRAC_ONE: u128 = 0x1000000000000;

/// 2^20, the scale of the fractional log digits.
pub const LOG_BITS_ONE: usize = 0x100000;

pub open spec fn spec_pow10(e: nat) -> nat
    decreases e,
{
    if e == 0 {
        1
    } else {
        10 * spec_pow10((e - 1) as nat)
    }
}

/// `floor(log10(num/den))` for `1 <= den <= num`.
pub open spec fn spec_intlog10(num: int, den: int) -> int
    recommends
        1 <= den <= num,
    decreases num - den,
        when 1 <= den <= num
{
    if num < den * 10 {
        0
    } else {
        1 + spec_intlog10(num, den * 10)
    }
}

/// One squaring step of the digit recurrence: square the mantissa, rescale,
/// and emit a binary digit of the base-10 logarithm.
pub open spec fn spec_log_sq(m: int) -> int {
    (m * m) / (FRAC_ONE as int)
}

/// The fractional log accumulator after `b` more binary digits.
pub open spec fn spec_log_acc(m: int, f: int, b: nat) -> int
    decreases b,
{
    if b == 0 {
        f
    } else {
        let sq = spec_log_sq(m);
        if sq >= 10 * (FRAC_ONE as int) {
            spec_log_acc(sq / 10, 2 * f + 1, (b - 1) as nat)
        } else {
            spec_log_acc(sq, 2 * f, (b - 1) as nat)
        }
    }
}

/// The 48-bit fixed-point mantissa of `num/den`, normalized to `[1, 10)`.
pub open spec fn spec_mantissa(num: int, den: int) -> int
    recommends
        1 <= den <= num,
{
    num * (FRAC_ONE as int) / (den * spec_pow10(spec_intlog10(num, den) as nat))
}

/// The quantized scaled inverse document frequency
/// `WEIGHT_MULTIPLIER * (1 + log10(total/nd))`, with the fraction of the
/// logarithm taken to 20 binary digits.
pub open spec fn spec_idf_scaled(total: int, nd: int) -> int
    recommends
        1 <= nd <= total,
{
    WEIGHT_MULTIPLIER + WEIGHT_MULTIPLIER * spec_intlog10(total, nd) + (WEIGHT_MULTIPLIER
        * spec_log_acc(spec_mantissa(total, nd), 0, 20)) / (LOG_BITS_ONE as int)
}

/// The scaled inverse document frequency carried at 2^20 extra precision:
/// `2^20` times `WEIGHT_MULTIPLIER * (1 + log10(total/nd))`, with the
/// logarithm's fraction quantized to 20 binary digits.
pub open spec fn spec_idf_hi(total: int, nd: int) -> int
    recommends
        1 <= nd <= total,
{
    (WEIGHT_MULTIPLIER + WEIGHT_MULTIPLIER * spec_intlog10(total, nd)) * (LOG_BITS_ONE as int)
        + WEIGHT_MULTIPLIER * spec_log_acc(spec_mantissa(total, nd), 0, 20)
}

/// The quantized TF-IDF weight of a term with raw frequency `raw` among
/// `token_count` retained tokens, appearing in `nd` of `total` documents:
/// one floor over the full-precision product.
pub open spec fn spec_weight(raw: int, token_count: int, total: int, nd: int) -> int
    recommends
        1 <= raw <= token_count,
        1 <= nd <= total,
{
    raw * spec_idf_hi(total, nd) / (token_count * (LOG_BITS_ONE as int))
}

/// The integer log is never negative.
pub proof fn lemma_intlog10_nonneg(num: int, den: int)
    requires
        1 <= den <= num,
    ensures
        spec_intlog10(num, den) >= 0,
    decreases num - den,
{
    if !(num < den * 10) {
        lemma_intlog10_nonneg(num, den * 10);
    }
}

/// The coarse idf is the high-precision idf shifted down: truncating the
/// extra 20 bits of `spec_idf_hi` yields `spec_idf_scaled`.
pub proof fn lemma_idf_hi_shift(total: int, nd: int)
    requires
        1 <= nd <= total,
    ensures
        spec_idf_hi(total, nd) / (LOG_BITS_ONE as int) == spec_idf_scaled(total, nd),
        0 <= spec_idf_hi(total, nd),
{
    let k = LOG_BITS_ONE as int;
    let a = WEIGHT_MULTIPLIER + WEIGHT_MULTIPLIER * spec_intlog10(total, nd);
    let f = spec_log_acc(spec_mantissa(total, nd), 0, 20);
    let b = WEIGHT_MULTIPLIER * f;
    lemma_intlog10_nonneg(total, nd);
    assert(a >= 0) by {
        lemma_mul_inequality(0, spec_intlog10(total, nd), WEIGHT_MULTIPLIER as int);
        vstd::arithmetic::mul::lemma_mul_is_commutative(
            WEIGHT_MULTIPLIER as int,
            spec_intlog10(total, nd),
        );
        vstd::arithmetic::mul::lemma_mul_basics_1(WEIGHT_MULTIPLIER as int);
    }
    lemma_log_acc_bound(spec_mantissa(total, nd), 0, 20, 1);
    assert(b >= 0) by {
        lemma_mul_inequality(0, f, WEIGHT_MULTIPLIER as int);
        vstd::arithmetic::mul::lemma_mul_is_commutative(WEIGHT_MULTIPLIER as int, f);
        vstd::arithmetic::mul::lemma_mul_basics_1(WEIGHT_MULTIPLIER as int);
    }
    vstd::arithmetic::div_mod::lemma_fundamental_div_mod(b, k);
    let q = b / k;
    let rem = b % k;
    vstd::arithmetic::div_mod::lemma_mod_bound(b, k);
    assert(a * k + b == k * (a + q) + rem) by {
        vstd::arithmetic::mul::lemma_mul_is_commutative(a, k);
        vstd::arithmetic::mul::lemma_mul_is_distributive_add(k, a, q);
    }
    vstd::arithmetic::div_mod::lemma_div_multiples_vanish_fancy(a + q, rem, k);
    assert((a * k + b) / k == a + q);
}

/// The integer log is bounded by the magnitude of `num`.
proof fn lemma_intlog10_le(num: int, den: int, e: nat)
    requires
        1 <= den <= num,
        num < den * spec_pow10(e),
    ensures
        spec_intlog10(num, den) < e,
    decreases num - den,
{
    if num < den * 10 {
        if e == 0 {
            assert(spec_pow10(0) == 1);
            vstd::arithmetic::mul::lemma_mul_basics_3(den);
            assert(num < den);
        }
    } else {
        assert(e >= 1) by {
            if e == 0 {
                assert(spec_pow10(0) == 1);
                vstd::arithmetic::mul::lemma_mul_basics_3(den);
            }
        }
        assert(den * spec_pow10(e) == (den * 10) * spec_pow10((e - 1) as nat)) by {
            assert(spec_pow10(e) == 10 * spec_pow10((e - 1) as nat));
            vstd::arithmetic::mul::lemma_mul_is_associative(den, 10, spec_pow10((e - 1) as nat) as int);
        }
        lemma_intlog10_le(num, den * 10, (e - 1) as nat);
    }
}

/// The fractional accumulator stays below 2^b when it starts at 0.
proof fn lemma_log_acc_bound(m: int, f: int, b: nat, bound: int)
    requires
        0 <= f < bound,
        bound >= 1,
    ensures
        spec_log_acc(m, f, b) < bound * vstd::arithmetic::power2::pow2(b),
        spec_log_acc(m, f, b) >= 0,
    decreases b,
{
    vstd::arithmetic::power2::lemma_pow2_pos(b);
    if b == 0 {
        vstd::arithmetic::power2::lemma2_to64();
    } else {
        let sq = spec_log_sq(m);
        vstd::arithmetic::power2::lemma_pow2_unfold(b);
        if sq >= 10 * (FRAC_ONE as int) {
            lemma_log_acc_bound(sq / 10, 2 * f + 1, (b - 1) as nat, 2 * bound);
            assert(2 * bound * vstd::arithmetic::power2::pow2((b - 1) as nat) == bound * (2
                * vstd::arithmetic::power2::pow2((b - 1) as nat))) by {
                vstd::arithmetic::mul::lemma_mul_is_associative(
                    2,
                    bound,
                    vstd::arithmetic::power2::pow2((b - 1) as nat) as int,
                );
                vstd::arithmetic::mul::lemma_mul_is_associative(
                    bound,
                    2,
                    vstd::arithmetic::power2::pow2((b - 1) as nat) as int,
                );
            }
        } else {
            lemma_log_acc_bound(sq, 2 * f, (b - 1) as nat, 2 * bound);
            assert(2 * bound * vstd::arithmetic::power2::pow2((b - 1) as nat) == bound * (2
                * vstd::arithmetic::power2::pow2((b - 1) as nat))) by {
                vstd::arithmetic::mul::lemma_mul_is_associative(
                    2,
                    bound,
                    vstd::arithmetic::power2::pow2((b - 1) as nat) as int,
                );
                vstd::arithmetic::mul::lemma_mul_is_associative(
                    bound,
                    2,
                    vstd::arithmetic::power2::pow2((b - 1) as nat) as int,
                );
            }
        }
    }
}

/// When every document holds the term, the scaled idf is exactly the weight
/// multiplier: the logarithm vanishes.
pub proof fn lemma_idf_scaled_all_docs(n: int)
    requires
        n >= 1,
    ensures
        spec_idf_scaled(n, n) == WEIGHT_MULTIPLIER,
{
    assert(spec_intlog10(n, n) == 0);
    assert(spec_pow10(0) == 1);
    assert(n * (FRAC_ONE as int) / (n * 1) == FRAC_ONE as int) by {
        lemma_div_by_multiple(FRAC_ONE as int, n);
        assert(n * (FRAC_ONE as int) == (FRAC_ONE as int) * n);
    }
    assert(spec_mantissa(n, n) == FRAC_ONE as int);
    lemma_log_acc_one(20);
    assert(spec_log_acc(FRAC_ONE as int, 0, 20) == 0);
    assert(WEIGHT_MULTIPLIER * 0 == 0);
    assert(0int / (LOG_BITS_ONE as int) == 0);
}

/// A mantissa of exactly one yields no fractional digits.
proof fn lemma_log_acc_one(b: nat)
    ensures
        spec_log_acc(FRAC_ONE as int, 0, b) == 0,
    decreases b,
{
    if b > 0 {
        assert(spec_log_sq(FRAC_ONE as int) == FRAC_ONE as int) by {
            lemma_div_by_multiple(FRAC_ONE as int, FRAC_ONE as int);
        }
        assert(spec_log_sq(FRAC_ONE as int) < 10 * (FRAC_ONE as int));
        lemma_log_acc_one((b - 1) as nat);
    }
}

/// Computes the two parts of the quantized logarithm of `total/nd`: the
/// exact integer part and the 20-binary-digit fraction accumulator.
fn scaled_log_parts(total: usize, nd: usize) -> (r: (usize, u64))
    requires
        1 <= nd <= total,
    ensures
        r.0 as int == spec_intlog10(total as int, nd as int),
        r.0 < 20,
        r.1 as int == spec_log_acc(spec_mantissa(total as int, nd as int), 0, 20),
        r.1 < 0x100000,
{
    let num: u128 = total as u128;
    // integer part of the log: the largest e with nd * 10^e <= total
    let mut p: u128 = nd as u128;
    let mut e: usize = 0;
    proof {
        assert(spec_pow10(0) == 1);
    }
    while p * 10 <= num
        invariant
            1 <= nd <= total,
            num == total as u128,
            1 <= p,
            p == nd as u128 * spec_pow10(e as nat),
            p <= num,
            e as u128 + 1 <= p,
            spec_intlog10(total as int, nd as int) == e + spec_intlog10(total as int, p as int),
        decreases num - p,
    {
        proof {
            assert(spec_intlog10(total as int, p as int) == 1 + spec_intlog10(
                total as int,
                p as int * 10,
            ));
            assert(nd as u128 * spec_pow10((e + 1) as nat) == p * 10) by {
                assert(spec_pow10((e + 1) as nat) == 10 * spec_pow10(e as nat));
                vstd::arithmetic::mul::lemma_mul_is_associative(
                    nd as int,
                    spec_pow10(e as nat) as int,
                    10,
                );
                vstd::arithmetic::mul::lemma_mul_is_commutative(10, spec_pow10(e as nat) as int);
                vstd::arithmetic::mul::lemma_mul_is_associative(
                    nd as int,
                    10,
                    spec_pow10(e as nat) as int,
                );
            }
        }
        p = p * 10;
        e = e + 1;
    }
    proof {
        assert(spec_intlog10(total as int, p as int) == 0);
        assert(spec_intlog10(total as int, nd as int) == e);
    }
    // 48-bit fixed-point mantissa of total / (nd * 10^e), in [1, 10)
    let m0: u128 = num * FRAC_ONE / p;
    proof {
        assert(num * FRAC_ONE >= p * FRAC_ONE) by {
            lemma_mul_inequality(p as int, num as int, FRAC_ONE as int);
        }
        assert(m0 >= FRAC_ONE) by {
            lemma_div_is_ordered(p as int * FRAC_ONE as int, num as int * FRAC_ONE as int, p as int);
            lemma_div_by_multiple(FRAC_ONE as int, p as int);
            assert(p as int * FRAC_ONE as int == FRAC_ONE as int * p as int);
        }
        assert(m0 < 10 * FRAC_ONE) by {
            assert(num < p * 10);
            assert(num * FRAC_ONE < (p * 10) * FRAC_ONE) by {
                lemma_mul_strict_inequality(num as int, p as int * 10, FRAC_ONE as int);
            }
            assert((p * 10) * FRAC_ONE == (10 * FRAC_ONE) as int * p as int) by {
                vstd::arithmetic::mul::lemma_mul_is_associative(p as int, 10, FRAC_ONE as int);
                vstd::arithmetic::mul::lemma_mul_is_commutative(p as int, 10 * FRAC_ONE as int);
            }
            lemma_div_by_multiple_is_strongly_ordered(
                num as int * FRAC_ONE as int,
                (10 * FRAC_ONE) as int * p as int,
                (10 * FRAC_ONE) as int,
                p as int,
            );
            lemma_div_by_multiple((10 * FRAC_ONE) as int, p as int);
            vstd::arithmetic::mul::lemma_mul_is_commutative((10 * FRAC_ONE) as int, p as int);
        }
        assert(m0 == spec_mantissa(total as int, nd as int));
    }
    // twenty binary digits of the fractional part of the log
    let mut m: u128 = m0;
    let mut f: u64 = 0;
    let mut b: usize = 20;
    proof {
        vstd::arithmetic::power2::lemma2_to64();
    }
    while b > 0
        invariant
            FRAC_ONE <= m < 10 * FRAC_ONE,
            b <= 20,
            f < vstd::arithmetic::power2::pow2((20 - b) as nat),
            spec_log_acc(m0 as int, 0, 20) == spec_log_acc(m as int, f as int, b as nat),
        decreases b,
    {
        proof {
            vstd::arithmetic::power2::lemma2_to64();
            if 20 - b > 0 {
                vstd::arithmetic::power2::lemma_pow2_strictly_increases((20 - b) as nat, 20);
            }
            assert(f < 0x100000);
            assert(m * m < (10 * FRAC_ONE) * (10 * FRAC_ONE)) by {
                lemma_mul_strict_inequality(m as int, 10 * FRAC_ONE as int, m as int);
                lemma_mul_inequality(m as int, 10 * FRAC_ONE as int, 10 * FRAC_ONE as int);
                vstd::arithmetic::mul::lemma_mul_is_commutative(m as int, 10 * FRAC_ONE as int);
                vstd::arithmetic::mul::lemma_mul_is_commutative(10 * FRAC_ONE as int, m as int);
            }
            assert((10 * FRAC_ONE) * (10 * FRAC_ONE) < u128::MAX) by (nonlinear_arith);
            assert(m * m <= u128::MAX);
        }
        let sq = (m * m) / FRAC_ONE;
        proof {
            assert(sq == spec_log_sq(m as int));
            assert(sq >= FRAC_ONE) by {
                assert(m * m >= FRAC_ONE * FRAC_ONE) by {
                    lemma_mul_inequality(FRAC_ONE as int, m as int, FRAC_ONE as int);
                    lemma_mul_inequality(FRAC_ONE as int, m as int, m as int);
                    vstd::arithmetic::mul::lemma_mul_is_commutative(FRAC_ONE as int, m as int);
                }
                lemma_div_is_ordered(
                    FRAC_ONE as int * FRAC_ONE as int,
                    m as int * m as int,
                    FRAC_ONE as int,
                );
                lemma_div_by_multiple(FRAC_ONE as int, FRAC_ONE as int);
            }
            assert(sq < 100 * FRAC_ONE) by {
                assert((10 * FRAC_ONE) * (10 * FRAC_ONE) == (100 * FRAC_ONE) as int * FRAC_ONE as int)
                    by {
                    vstd::arithmetic::mul::lemma_mul_is_associative(
                        10,
                        FRAC_ONE as int,
                        10 * FRAC_ONE as int,
                    );
                    vstd::arithmetic::mul::lemma_mul_is_associative(
                        FRAC_ONE as int,
                        10,
                        FRAC_ONE as int,
                    );
                    vstd::arithmetic::mul::lemma_mul_is_commutative(FRAC_ONE as int, 10 * FRAC_ONE as int);
                }
                lemma_div_by_multiple_is_strongly_ordered(
                    m as int * m as int,
                    (100 * FRAC_ONE) as int * FRAC_ONE as int,
                    (100 * FRAC_ONE) as int,
                    FRAC_ONE as int,
                );
                lemma_div_by_multiple((100 * FRAC_ONE) as int, FRAC_ONE as int);
                vstd::arithmetic::mul::lemma_mul_is_commutative(
                    (100 * FRAC_ONE) as int,
                    FRAC_ONE as int,
                );
            }
        }
        proof {
            vstd::arithmetic::power2::lemma_pow2_unfold((21 - b) as nat);
            assert(vstd::arithmetic::power2::pow2((21 - b) as nat) == 2
                * vstd::arithmetic::power2::pow2((20 - b) as nat));
        }
        if sq >= 10 * FRAC_ONE {
            proof {
                lemma_div_is_ordered(sq as int, (100 * FRAC_ONE - 1) as int, 10);
                assert((100 * FRAC_ONE - 1) as int / 10 < 10 * FRAC_ONE);
            }
            m = sq / 10;
            f = f * 2 + 1;
        } else {
            m = sq;
            f = f * 2;
        }
        b = b - 1;
    }
    proof {
        assert(spec_log_acc(m as int, f as int, 0) == f as int);
        vstd::arithmetic::power2::lemma2_to64();
        assert(f < 0x100000);
        assert(spec_pow10(20) > usize::MAX as int) by {
            reveal_with_fuel(spec_pow10, 21);
        }
        assert(nd as int * spec_pow10(20) >= spec_pow10(20)) by {
            lemma_mul_inequality(1, nd as int, spec_pow10(20) as int);
            vstd::arithmetic::mul::lemma_mul_basics_4(spec_pow10(20) as int);
            vstd::arithmetic::mul::lemma_mul_is_commutative(nd as int, spec_pow10(20) as int);
        }
        lemma_intlog10_le(total as int, nd as int, 20);
        assert(e < 20);
    }
    (e, f)
}

/// Computes the scaled inverse document frequency
/// `WEIGHT_MULTIPLIER * (1 + log10(total/nd))`, quantized.
pub fn idf_scaled(total: usize, nd: usize) -> (r: usize)
    requires
        1 <= nd <= total,
    ensures
        r == spec_idf_scaled(total as int, nd as int),
        r <= 21 * WEIGHT_MULTIPLIER,
{
    let (e, f) = scaled_log_parts(total, nd);
    let frac64: u64 = (WEIGHT_MULTIPLIER as u64 * f) / (LOG_BITS_ONE as u64);
    let frac_part: usize = frac64 as usize;
    proof {
        assert(frac_part <= WEIGHT_MULTIPLIER) by {
            lemma_mul_inequality(f as int, LOG_BITS_ONE as int, WEIGHT_MULTIPLIER as int);
            vstd::arithmetic::mul::lemma_mul_is_commutative(WEIGHT_MULTIPLIER as int, f as int);
            vstd::arithmetic::mul::lemma_mul_is_commutative(WEIGHT_MULTIPLIER as int, LOG_BITS_ONE as int);
            lemma_div_is_ordered(
                WEIGHT_MULTIPLIER as int * f as int,
                WEIGHT_MULTIPLIER as int * LOG_BITS_ONE as int,
                LOG_BITS_ONE as int,
            );
            lemma_div_by_multiple(WEIGHT_MULTIPLIER as int, LOG_BITS_ONE as int);
        }
    }
    WEIGHT_MULTIPLIER + WEIGHT_MULTIPLIER * e + frac_part
}


/// Computes the quantized TF-IDF weight: one floor over
/// `raw/token_count * idf_hi / 2^20`, where `idf_hi` carries the scaled idf
/// at 2^20 extra precision.
pub fn tf_idf_weight(raw: usize, token_count: usize, total: usize, nd: usize) -> (w: usize)
    requires
        1 <= raw <= token_count,
        1 <= nd <= total,
    ensures
        w == spec_weight(raw as int, token_count as int, total as int, nd as int),
        w <= spec_idf_scaled(total as int, nd as int),
{
    let (e, f) = scaled_log_parts(total, nd);
    proof {
        assert(WEIGHT_MULTIPLIER + WEIGHT_MULTIPLIER * e <= 21 * WEIGHT_MULTIPLIER);
        assert(((WEIGHT_MULTIPLIER + WEIGHT_MULTIPLIER * e) as int) * (LOG_BITS_ONE as int)
            <= (21 * WEIGHT_MULTIPLIER) as int * (LOG_BITS_ONE as int)) by {
            lemma_mul_inequality(
                (WEIGHT_MULTIPLIER + WEIGHT_MULTIPLIER * e) as int,
                (21 * WEIGHT_MULTIPLIER) as int,
                LOG_BITS_ONE as int,
            );
        }
        assert((WEIGHT_MULTIPLIER as int) * (f as int) <= (WEIGHT_MULTIPLIER as int)
            * 0x100000) by {
            lemma_mul_inequality(f as int, 0x100000, WEIGHT_MULTIPLIER as int);
            vstd::arithmetic::mul::lemma_mul_is_commutative(WEIGHT_MULTIPLIER as int, f as int);
            vstd::arithmetic::mul::lemma_mul_is_commutative(
                WEIGHT_MULTIPLIER as int,
                0x100000,
            );
        }
    }
    let idf_hi: u64 = ((WEIGHT_MULTIPLIER + WEIGHT_MULTIPLIER * e) as u64) * (LOG_BITS_ONE
        as u64) + (WEIGHT_MULTIPLIER as u64) * f;
    proof {
        assert(idf_hi as int == spec_idf_hi(total as int, nd as int));
        lemma_idf_hi_shift(total as int, nd as int);
        assert(raw as int * idf_hi as int <= 0xFFFFFFFFFFFFFFFF * (idf_hi as int)) by {
            lemma_mul_inequality(raw as int, 0xFFFFFFFFFFFFFFFF, idf_hi as int);
        }
        assert(0xFFFFFFFFFFFFFFFF * (idf_hi as int) <= 0xFFFFFFFFFFFFFFFF * 0x7FFFFFFFFFFF) by {
            lemma_mul_inequality(idf_hi as int, 0x7FFFFFFFFFFF, 0xFFFFFFFFFFFFFFFF);
            vstd::arithmetic::mul::lemma_mul_is_commutative(0xFFFFFFFFFFFFFFFF, idf_hi as int);
            vstd::arithmetic::mul::lemma_mul_is_commutative(0xFFFFFFFFFFFFFFFF, 0x7FFFFFFFFFFF);
        }
    }
    let prod: u128 = (raw as u128) * (idf_hi as u128);
    let denom: u128 = (token_count as u128) * (LOG_BITS_ONE as u128);
    proof {
        assert(denom > 0) by {
            lemma_mul_inequality(1, token_count as int, LOG_BITS_ONE as int);
            vstd::arithmetic::mul::lemma_mul_basics_4(LOG_BITS_ONE as int);
            vstd::arithmetic::mul::lemma_mul_is_commutative(token_count as int, LOG_BITS_ONE as int);
        }
    }
    let w128: u128 = prod / denom;
    proof {
        lemma_weight_le_idf(raw as int, token_count as int, total as int, nd as int);
        assert(w128 as int == spec_weight(raw as int, token_count as int, total as int, nd as int));
    }
    w128 as usize
}

/// The weight never exceeds the coarse scaled idf (the raw frequency is at
/// most the token count), and is never negative.
pub proof fn lemma_weight_le_idf(raw: int, token_count: int, total: int, nd: int)
    requires
        1 <= raw <= token_count,
        1 <= nd <= total,
    ensures
        0 <= spec_weight(raw, token_count, total, nd) <= spec_idf_scaled(total, nd),
{
    let k = LOG_BITS_ONE as int;
    let hi = spec_idf_hi(total, nd);
    lemma_idf_hi_shift(total, nd);
    assert(raw * hi <= token_count * hi) by {
        lemma_mul_inequality(raw, token_count, hi);
    }
    assert(token_count * k > 0) by {
        lemma_mul_inequality(1, token_count, k);
        vstd::arithmetic::mul::lemma_mul_basics_4(k);
        vstd::arithmetic::mul::lemma_mul_is_commutative(token_count, k);
    }
    assert(spec_weight(raw, token_count, total, nd) <= (token_count * hi) / (token_count * k))
        by {
        lemma_div_is_ordered(raw * hi, token_count * hi, token_count * k);
    }
    assert((token_count * hi) / (token_count * k) == hi / k) by {
        vstd::arithmetic::div_mod::lemma_div_denominator(
            token_count * hi,
            token_count,
            k,
        );
        assert((token_count * hi) / token_count == hi) by {
            vstd::arithmetic::div_mod::lemma_div_multiples_vanish(hi, token_count);
        }
    }
    assert(spec_weight(raw, token_count, total, nd) >= 0) by {
        assert(raw * hi >= 0) by {
            lemma_mul_inequality(0, raw, hi);
            vstd::arithmetic::mul::lemma_mul_is_commutative(raw, hi);
            vstd::arithmetic::mul::lemma_mul_basics_1(hi);
        }
        vstd::arithmetic::div_mod::lemma_div_pos_is_pos(raw * hi, token_count * k);
    }
}

/// The coarse scaled idf is bounded: the integer log of any representable
/// ratio is below twenty.
pub proof fn lemma_idf_scaled_bound(total: int, nd: int)
    requires
        1 <= nd <= total <= usize::MAX,
    ensures
        0 <= spec_idf_scaled(total, nd) <= 21 * WEIGHT_MULTIPLIER,
{
    let e = spec_intlog10(total, nd);
    let f = spec_log_acc(spec_mantissa(total, nd), 0, 20);
    lemma_intlog10_nonneg(total, nd);
    assert(e < 20) by {
        assert(spec_pow10(20) > usize::MAX as int) by {
            reveal_with_fuel(spec_pow10, 21);
        }
        assert(nd * spec_pow10(20) >= spec_pow10(20)) by {
            lemma_mul_inequality(1, nd, spec_pow10(20) as int);
            vstd::arithmetic::mul::lemma_mul_basics_4(spec_pow10(20) as int);
            vstd::arithmetic::mul::lemma_mul_is_commutative(nd, spec_pow10(20) as int);
        }
        lemma_intlog10_le(total, nd, 20);
    }
    lemma_log_acc_bound(spec_mantissa(total, nd), 0, 20, 1);
    vstd::arithmetic::power2::lemma2_to64();
    assert(WEIGHT_MULTIPLIER * e <= WEIGHT_MULTIPLIER * 19) by {
        lemma_mul_inequality(e, 19, WEIGHT_MULTIPLIER as int);
        vstd::arithmetic::mul::lemma_mul_is_commutative(WEIGHT_MULTIPLIER as int, e);
        vstd::arithmetic::mul::lemma_mul_is_commutative(WEIGHT_MULTIPLIER as int, 19);
    }
    assert(WEIGHT_MULTIPLIER * e >= 0) by {
        lemma_mul_inequality(0, e, WEIGHT_MULTIPLIER as int);
        vstd::arithmetic::mul::lemma_mul_is_commutative(WEIGHT_MULTIPLIER as int, e);
        vstd::arithmetic::mul::lemma_mul_basics_1(WEIGHT_MULTIPLIER as int);
    }
    assert((WEIGHT_MULTIPLIER * f) / (LOG_BITS_ONE as int) <= WEIGHT_MULTIPLIER) by {
        lemma_mul_inequality(f, LOG_BITS_ONE as int, WEIGHT_MULTIPLIER as int);
        vstd::arithmetic::mul::lemma_mul_is_commutative(WEIGHT_MULTIPLIER as int, f);
        vstd::arithmetic::mul::lemma_mul_is_commutative(
            WEIGHT_MULTIPLIER as int,
            LOG_BITS_ONE as int,
        );
        lemma_div_is_ordered(
            WEIGHT_MULTIPLIER as int * f,
            WEIGHT_MULTIPLIER as int * (LOG_BITS_ONE as int),
            LOG_BITS_ONE as int,
        );
        lemma_div_by_multiple(WEIGHT_MULTIPLIER as int, LOG_BITS_ONE as int);
    }
    assert((WEIGHT_MULTIPLIER * f) / (LOG_BITS_ONE as int) >= 0) by {
        assert(WEIGHT_MULTIPLIER * f >= 0) by {
            lemma_mul_inequality(0, f, WEIGHT_MULTIPLIER as int);
            vstd::arithmetic::mul::lemma_mul_is_commutative(WEIGHT_MULTIPLIER as int, f);
            vstd::arithmetic::mul::lemma_mul_basics_1(WEIGHT_MULTIPLIER as int);
        }
        vstd::arithmetic::div_mod::lemma_div_pos_is_pos(
            WEIGHT_MULTIPLIER * f,
            LOG_BITS_ONE as int,
        );
    }
}

/// When every document holds the term, the weight is exactly
/// `raw * WEIGHT_MULTIPLIER / token_count`: the logarithm vanishes.
pub proof fn lemma_weight_all_docs(raw: int, token_count: int, n: int)
    requires
        1 <= raw <= token_count,
        n >= 1,
    ensures
        spec_weight(raw, token_count, n, n) == raw * WEIGHT_MULTIPLIER / token_count,
{
    let k = LOG_BITS_ONE as int;
    assert(spec_intlog10(n, n) == 0);
    assert(spec_pow10(0) == 1);
    assert(n * (FRAC_ONE as int) / (n * 1) == FRAC_ONE as int) by {
        lemma_div_by_multiple(FRAC_ONE as int, n);
        assert(n * (FRAC_ONE as int) == (FRAC_ONE as int) * n);
    }
    assert(spec_mantissa(n, n) == FRAC_ONE as int);
    lemma_log_acc_one(20);
    assert(WEIGHT_MULTIPLIER * spec_intlog10(n, n) == 0) by {
        vstd::arithmetic::mul::lemma_mul_basics_2(WEIGHT_MULTIPLIER as int);
    }
    assert(WEIGHT_MULTIPLIER * spec_log_acc(FRAC_ONE as int, 0, 20) == 0) by {
        vstd::arithmetic::mul::lemma_mul_basics_2(WEIGHT_MULTIPLIER as int);
    }
    assert(spec_idf_hi(n, n) == WEIGHT_MULTIPLIER * k);
    assert(raw * (WEIGHT_MULTIPLIER * k) == (raw * WEIGHT_MULTIPLIER) * k) by {
        vstd::arithmetic::mul::lemma_mul_is_associative(raw, WEIGHT_MULTIPLIER as int, k);
    }
    assert(((raw * WEIGHT_MULTIPLIER) * k) / (token_count * k) == (raw * WEIGHT_MULTIPLIER)
        / token_count) by {
        assert((raw * WEIGHT_MULTIPLIER) * k == k * (raw * WEIGHT_MULTIPLIER)) by {
            vstd::arithmetic::mul::lemma_mul_is_commutative(
                raw * WEIGHT_MULTIPLIER,
                k,
            );
        }
        assert(token_count * k == k * token_count) by {
            vstd::arithmetic::mul::lemma_mul_is_commutative(token_count, k);
        }
        assert(raw * WEIGHT_MULTIPLIER >= 0) by {
            lemma_mul_inequality(0, raw, WEIGHT_MULTIPLIER as int);
            vstd::arithmetic::mul::lemma_mul_is_commutative(raw, WEIGHT_MULTIPLIER as int);
            vstd::arithmetic::mul::lemma_mul_basics_1(WEIGHT_MULTIPLIER as int);
        }
        vstd::arithmetic::div_mod::lemma_div_denominator(
            k * (raw * WEIGHT_MULTIPLIER),
            k,
            token_count,
        );
        assert((k * (raw * WEIGHT_MULTIPLIER)) / k == raw * WEIGHT_MULTIPLIER) by {
            vstd::arithmetic::div_mod::lemma_div_multiples_vanish(
                raw * WEIGHT_MULTIPLIER,
                k,
            );
        }
    }
}

} // verus!
