//! Fixed-point relevance arithmetic.
//!
//! A score is an integer counted in units of `1/SCALE`. One matched gram
//! contributes `tf * idf / SCALE` where `tf` damps the document's raw
//! occurrence count relative to the most frequent document for that gram
//! (range `[SCALE/2, SCALE]`, the fixed-point image of `[0.5, 1.0]`) and
//! `idf` is a fixed-point natural logarithm of `total_docs / doc_count`,
//! favouring grams that occur in few documents. The logarithm is computed
//! exactly as `ln_ratio_spec` says: a whole number of halvings worth
//! `LN2_SCALED` each, plus a first-order remainder `2*(a-b)/(a+b)`.

use vstd::prelude::*;
use vstd::arithmetic::div_mod::{
    lemma_div_is_ordered, lemma_div_pos_is_pos, lemma_multiply_divide_lt,
};
use vstd::arithmetic::mul::{lemma_mul_inequality, lemma_mul_nonnegative};
use vstd::arithmetic::power2::{lemma_pow2_strictly_increases, lemma2_to64, pow2};

verus! {

/// Fixed-point scale: scores are integers counted in units of `1/SCALE`.
pub const SCALE: u64 = 1048576;

/// `ln(2)` in fixed point, rounded to the nearest unit of `1/SCALE`.
pub const LN2_SCALED: u64 = 726817;

/// How many times `b` can be doubled while staying at or below `a`.
pub open spec fn log2_count(a: int, b: int) -> nat
    decreases a - b,
{
    if b < 1 || a < 2 * b {
        0
    } else {
        (1 + log2_count(a, 2 * b)) as nat
    }
}

/// Fixed-point natural logarithm of `a / b`, for `1 <= b <= a`: the
/// doublings give the integer part in multiples of `ln 2`, the remainder
/// `r` in `[1, 2)` is approximated by `2 * (r - 1) / (r + 1)`.
pub open spec fn ln_ratio_spec(a: int, b: int) -> int {
    let k = log2_count(a, b);
    let b2 = b * pow2(k);
    k * (LN2_SCALED as int) + 2 * (SCALE as int) * (a - b2) / (a + b2)
}

/// Term-frequency factor in fixed point: `0.5 + 0.5 * freq / max(maxf, 1)`.
pub open spec fn tf_spec(freq: int, maxf: int) -> int {
    let m = if maxf >= 1 { maxf } else { 1 };
    (SCALE as int) / 2 + (SCALE as int) * freq / (2 * m)
}

/// Contribution of one gram to one document's score: the term-frequency
/// factor times the signed fixed-point logarithm of
/// `max(total, 1) / max(docs, 1)`.
pub open spec fn term_spec(freq: int, maxf: int, total: int, docs: int) -> int {
    let t = if total >= 1 { total } else { 1 };
    let d = if docs >= 1 { docs } else { 1 };
    if t >= d {
        tf_spec(freq, maxf) * ln_ratio_spec(t, d) / (SCALE as int)
    } else {
        -(tf_spec(freq, maxf) * ln_ratio_spec(d, t) / (SCALE as int))
    }
}

/// Addition on `i64` scores that clamps at the ends of the range, so that
/// accumulated scores stay finite for every input.
pub open spec fn sat_add(a: int, b: int) -> int {
    if a + b > i64::MAX {
        i64::MAX as int
    } else if a + b < i64::MIN {
        i64::MIN as int
    } else {
        a + b
    }
}

pub fn sat_add_i64(a: i64, b: i64) -> (r: i64)
    ensures
        r == sat_add(a as int, b as int),
{
    if b >= 0 {
        if a > i64::MAX - b {
            i64::MAX
        } else {
            a + b
        }
    } else {
        if a < i64::MIN - b {
            i64::MIN
        } else {
            a + b
        }
    }
}

/// The doublings counted by `log2_count` never overshoot `a`.
proof fn lemma_log2_count_le(a: int, b: int)
    requires
        1 <= b <= a,
    ensures
        b * pow2(log2_count(a, b)) <= a,
    decreases a - b,
{
    if a < 2 * b {
        assert(log2_count(a, b) == 0);
        assert(pow2(0) == 1) by {
            lemma2_to64();
        }
        assert(b * 1 == b);
    } else {
        let k1 = log2_count(a, 2 * b);
        lemma_log2_count_le(a, 2 * b);
        assert(log2_count(a, b) == k1 + 1);
        assert(pow2(k1 + 1) == 2 * pow2(k1)) by {
            vstd::arithmetic::power2::lemma_pow2_unfold(k1 + 1);
        }
        assert(b * (2 * pow2(k1)) == (b * 2) * pow2(k1)) by {
            vstd::arithmetic::mul::lemma_mul_is_associative(b, 2, pow2(k1) as int);
        }
        assert(b * pow2(log2_count(a, b)) == (2 * b) * pow2(k1));
    }
}

pub proof fn lemma_ln_ratio_nonneg(a: int, b: int)
    requires
        1 <= b <= a,
    ensures
        ln_ratio_spec(a, b) >= 0,
{
    let k = log2_count(a, b);
    let b2 = b * pow2(k);
    lemma_log2_count_le(a, b);
    assert(pow2(k) >= 1) by {
        vstd::arithmetic::power2::lemma_pow2_pos(k);
    }
    assert(b2 >= 1) by {
        lemma_mul_inequality(1, b, pow2(k) as int);
    }
    assert(2 * (SCALE as int) * (a - b2) >= 0) by {
        lemma_mul_nonnegative(2 * (SCALE as int), a - b2);
    }
    assert(2 * (SCALE as int) * (a - b2) / (a + b2) >= 0) by {
        lemma_div_pos_is_pos(2 * (SCALE as int) * (a - b2), a + b2);
    }
    assert(k * (LN2_SCALED as int) >= 0) by {
        lemma_mul_nonnegative(k as int, LN2_SCALED as int);
    }
}

pub proof fn lemma_ln_ratio_ge_ln2(a: int, b: int)
    requires
        1 <= b,
        2 * b <= a,
    ensures
        ln_ratio_spec(a, b) >= LN2_SCALED,
{
    let k = log2_count(a, b);
    assert(k >= 1);
    let b2 = b * pow2(k);
    lemma_log2_count_le(a, b);
    assert(pow2(k) >= 1) by {
        vstd::arithmetic::power2::lemma_pow2_pos(k);
    }
    assert(b2 >= 1) by {
        lemma_mul_inequality(1, b, pow2(k) as int);
    }
    assert(2 * (SCALE as int) * (a - b2) >= 0) by {
        lemma_mul_nonnegative(2 * (SCALE as int), a - b2);
    }
    assert(2 * (SCALE as int) * (a - b2) / (a + b2) >= 0) by {
        lemma_div_pos_is_pos(2 * (SCALE as int) * (a - b2), a + b2);
    }
    assert(k * (LN2_SCALED as int) >= LN2_SCALED) by {
        lemma_mul_inequality(1, k as int, LN2_SCALED as int);
    }
}

/// A document that alone holds a gram scores at least one unit from it
/// whenever at least one other document is indexed.
pub proof fn lemma_term_pos(freq: int, maxf: int, total: int)
    requires
        1 <= freq <= maxf,
        2 <= total,
    ensures
        term_spec(freq, maxf, total, 1) >= 1,
{
    let s = SCALE as int;
    let tf = tf_spec(freq, maxf);
    assert(s * freq / (2 * maxf) >= 0) by {
        lemma_mul_nonnegative(s, freq);
        lemma_div_pos_is_pos(s * freq, 2 * maxf);
    }
    assert(tf >= s / 2);
    let lr = ln_ratio_spec(total, 1);
    lemma_ln_ratio_ge_ln2(total, 1);
    assert(tf * lr >= (s / 2) * (LN2_SCALED as int)) by {
        lemma_mul_inequality(s / 2, tf, LN2_SCALED as int);
        lemma_mul_inequality(LN2_SCALED as int, lr, tf);
    }
    assert((s / 2) * (LN2_SCALED as int) == 363408 * s + 524288);
    assert(tf * lr / s >= (363408 * s + 524288) / s) by {
        lemma_div_is_ordered(363408 * s + 524288, tf * lr, s);
    }
    assert((363408 * s + 524288) / s == 363408) by {
        vstd::arithmetic::div_mod::lemma_div_multiples_vanish_fancy(363408, 524288, s);
    }
}

/// A gram held by no more documents than the whole field has indexed
/// never contributes a negative term.
pub proof fn lemma_term_nonneg(freq: int, maxf: int, total: int, docs: int)
    requires
        1 <= freq <= maxf,
        docs <= total,
    ensures
        term_spec(freq, maxf, total, docs) >= 0,
{
    let s = SCALE as int;
    let t = if total >= 1 { total } else { 1 };
    let d = if docs >= 1 { docs } else { 1 };
    assert(d <= t);
    let tf = tf_spec(freq, maxf);
    assert(s * freq / (2 * maxf) >= 0) by {
        lemma_mul_nonnegative(s, freq);
        lemma_div_pos_is_pos(s * freq, 2 * maxf);
    }
    lemma_ln_ratio_nonneg(t, d);
    assert(tf * ln_ratio_spec(t, d) >= 0) by {
        lemma_mul_nonnegative(tf, ln_ratio_spec(t, d));
    }
    assert(tf * ln_ratio_spec(t, d) / s >= 0) by {
        lemma_div_pos_is_pos(tf * ln_ratio_spec(t, d), s);
    }
}

/// Fixed-point `ln(a / b)` for `1 <= b <= a`, exactly as `ln_ratio_spec`.
fn ln_ratio(a: u64, b: u64) -> (r: u64)
    requires
        1 <= b <= a,
    ensures
        r == ln_ratio_spec(a as int, b as int),
        r <= 63 * LN2_SCALED + 2 * SCALE,
{
    let mut b2: u64 = b;
    let mut k: u64 = 0;
    proof {
        lemma2_to64();
    }
    while b2 <= a / 2
        invariant
            1 <= b <= b2 <= a,
            b2 == b * pow2(k as nat),
            log2_count(a as int, b as int) == k + log2_count(a as int, b2 as int),
            k <= 63,
        decreases a - b2,
    {
        proof {
            assert(2 * b2 <= a);
            if k >= 63 {
                lemma_pow2_strictly_increases(62, k as nat);
                vstd::arithmetic::power2::lemma2_to64_rest();
                assert(pow2(k as nat) > 0x4000000000000000);
                lemma_mul_inequality(1, b as int, pow2(k as nat) as int);
                assert(false);
            }
            assert(b * pow2((k + 1) as nat) == b2 * 2) by {
                assert(pow2((k + 1) as nat) == pow2(k as nat) * 2) by {
                    vstd::arithmetic::power2::lemma_pow2_unfold((k + 1) as nat);
                }
                assert(b * (pow2(k as nat) * 2) == (b * pow2(k as nat)) * 2) by {
                    vstd::arithmetic::mul::lemma_mul_is_associative(
                        b as int,
                        pow2(k as nat) as int,
                        2,
                    );
                }
            }
            assert(log2_count(a as int, b2 as int) == 1 + log2_count(a as int, 2 * (b2 as int)));
        }
        b2 = b2 * 2;
        k = k + 1;
    }
    proof {
        assert(a < 2 * b2);
        assert(log2_count(a as int, b2 as int) == 0);
        assert(log2_count(a as int, b as int) == k);
    }
    let num: u128 = 2 * (SCALE as u128) * ((a - b2) as u128);
    let den: u128 = (a as u128) + (b2 as u128);
    proof {
        assert(num < den * (2 * (SCALE as u128))) by {
            assert(((a - b2) as int) < ((a + b2) as int));
            lemma_mul_inequality(2 * (SCALE as int), 2 * (SCALE as int), den as int);
        }
        lemma_multiply_divide_lt(num as int, den as int, 2 * (SCALE as int));
        lemma_div_pos_is_pos(num as int, den as int);
    }
    let frac: u64 = (num / den) as u64;
    k * LN2_SCALED + frac
}

/// One gram's score contribution, exactly as `term_spec` says.
pub fn term_fp(freq: u64, maxf: u64, total: u64, docs: u64) -> (r: i64)
    requires
        1 <= freq <= maxf,
    ensures
        r == term_spec(freq as int, maxf as int, total as int, docs as int),
{
    let t: u64 = if total >= 1 {
        total
    } else {
        1
    };
    let d: u64 = if docs >= 1 {
        docs
    } else {
        1
    };
    proof {
        assert((SCALE as int) * (freq as int) <= (SCALE as int) * (u64::MAX as int))
            by (nonlinear_arith)
            requires
                freq <= u64::MAX,
        ;
    }
    let tfq128: u128 = (SCALE as u128) * (freq as u128) / (2 * (maxf as u128));
    proof {
        assert((SCALE as int) * (freq as int) <= (SCALE as int) * (maxf as int))
            by (nonlinear_arith)
            requires
                1 <= freq <= maxf,
        ;
        assert((SCALE as int) * (freq as int) / (2 * (maxf as int)) <= (SCALE as int) * (
        maxf as int) / (2 * (maxf as int))) by {
            lemma_div_is_ordered(
                (SCALE as int) * (freq as int),
                (SCALE as int) * (maxf as int),
                2 * (maxf as int),
            );
        }
        assert((SCALE as int) * (maxf as int) / (2 * (maxf as int)) == (SCALE as int) / 2) by {
            vstd::arithmetic::div_mod::lemma_div_denominator(
                (SCALE as int) * (maxf as int),
                maxf as int,
                2,
            );
            vstd::arithmetic::div_mod::lemma_div_by_multiple(SCALE as int, maxf as int);
        }
        lemma_mul_nonnegative(SCALE as int, freq as int);
        lemma_div_pos_is_pos((SCALE as int) * (freq as int), 2 * (maxf as int));
    }
    let tf: u64 = SCALE / 2 + (tfq128 as u64);
    if t >= d {
        let lr = ln_ratio(t, d);
        proof {
            lemma_term_product_bound(tf as int, lr as int);
        }
        ((tf * lr) / SCALE) as i64
    } else {
        let lr = ln_ratio(d, t);
        proof {
            lemma_term_product_bound(tf as int, lr as int);
        }
        -(((tf * lr) / SCALE) as i64)
    }
}

/// The product of a term-frequency factor and a logarithm stays far inside
/// the 64-bit range, and so does its quotient by the scale.
proof fn lemma_term_product_bound(tf: int, lr: int)
    requires
        0 <= tf <= SCALE,
        0 <= lr <= 63 * LN2_SCALED + 2 * SCALE,
    ensures
        0 <= tf * lr <= 0x1000_0000_0000_0000,
        0 <= tf * lr / (SCALE as int) <= 0x100_0000_0000,
{
    assert(SCALE == 1048576);
    lemma_mul_nonnegative(tf, lr);
    assert(tf * lr <= (SCALE as int) * (63 * LN2_SCALED + 2 * SCALE)) by {
        lemma_mul_inequality(tf, SCALE as int, lr);
        lemma_mul_inequality(lr, 63 * LN2_SCALED + 2 * SCALE, SCALE as int);
    }
    lemma_div_pos_is_pos(tf * lr, SCALE as int);
    assert(tf * lr / (SCALE as int) <= 0x100_0000_0000) by {
        lemma_div_is_ordered(tf * lr, 0x1000_0000_0000_0000, SCALE as int);
        assert(0x1000_0000_0000_0000int == 0x100_0000_0000int * (SCALE as int));
        vstd::arithmetic::div_mod::lemma_div_by_multiple(0x100_0000_0000, SCALE as int);
    }
}

} // verus!
