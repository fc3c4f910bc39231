//! Fixed-point scalar arithmetic.
//!
//! Two scales are used throughout the engine:
//! - `SAMPLE_ONE` is the unit of audio samples and of spectrum magnitudes;
//! - `COEF_ONE` is the unit of transform coefficients (twiddle factors and
//!   window weights), kept finer than the sample unit so that coefficient
//!   rounding contributes almost nothing to the result.
//!
//! Multiplying by a coefficient divides the exact product by `COEF_ONE`,
//! rounding half up. `rounded_div` is the specification of that rounding.

use vstd::prelude::*;
use vstd::arithmetic::div_mod::{
    lemma_div_is_ordered, lemma_fundamental_div_mod, lemma_fundamental_div_mod_converse,
};
use vstd::arithmetic::mul::{
    lemma_mul_basics, lemma_mul_is_commutative, lemma_mul_is_distributive_add_other_way,
    lemma_mul_unary_negation,
};

verus! {

/// Fixed-point unit of audio samples and spectrum magnitudes.
pub const SAMPLE_ONE: i64 = 65536;

/// Fixed-point unit of transform coefficients.
pub const COEF_ONE: i64 = 1073741824;

/// Half of `COEF_ONE`, the bias that makes flooring division round half up.
pub const COEF_HALF: i64 = 536870912;

/// Half of `SAMPLE_ONE`.
pub const SAMPLE_HALF: i64 = 32768;

/// `p` divided by `s`, rounded half up (`s` is assumed positive; `/` on `int`
/// is Euclidean division, which floors for a positive divisor).
pub open spec fn rounded_div(p: int, s: int) -> int {
    (p + s / 2) / s
}

/// The exact value of a fixed-point multiplication by a coefficient.
pub open spec fn coef_mul(a: int, b: int) -> int {
    rounded_div(a * b, COEF_ONE as int)
}

/// Quotient rounding of a nonnegative value at the sample scale, used for
/// squared norms.
pub open spec fn sample_scale_down(p: int) -> int {
    rounded_div(p, SAMPLE_ONE as int)
}

/// Flooring division distributes over addition of an exact multiple:
/// `(q*d + r)/d == q + r/d` for `0 <= r < d`.
pub proof fn lemma_div_of_multiple_plus_small(q: int, d: int, r: int)
    requires
        0 < d,
        0 <= r < d,
    ensures
        (q * d + r) / d == q,
{
    lemma_fundamental_div_mod_converse(q * d + r, d, q, r);
}

/// For a positive divisor, negating a dividend turns floor into ceiling:
/// `(-m)/s == -((m + s - 1)/s)` for `m >= 0`.
proof fn lemma_floor_div_neg(m: int, s: int)
    requires
        0 < s,
        0 <= m,
    ensures
        (-m) / s == -((m + s - 1) / s),
{
    lemma_fundamental_div_mod(m, s);
    let d = m / s;
    let r = m % s;
    assert(s * d == d * s) by {
        lemma_mul_is_commutative(s, d);
    }
    assert((-d) * s == -(d * s) && (-d - 1) * s == -(d * s) - s && (d + 1) * s == d * s + s) by {
        lemma_mul_unary_negation(d, s);
        lemma_mul_unary_negation(1, s);
        lemma_mul_is_distributive_add_other_way(s, -d, -1);
        lemma_mul_is_distributive_add_other_way(s, d, 1);
        lemma_mul_basics(s);
    }
    if r == 0 {
        lemma_div_of_multiple_plus_small(d, s, s - 1);
        assert(m + s - 1 == d * s + (s - 1));
        lemma_div_of_multiple_plus_small(-d, s, 0);
        assert(-m == (-d) * s + 0);
    } else {
        assert(m + s - 1 == (d + 1) * s + (r - 1));
        lemma_div_of_multiple_plus_small(d + 1, s, r - 1);
        assert(-m == (-d - 1) * s + (s - r));
        lemma_div_of_multiple_plus_small(-d - 1, s, s - r);
    }
}

/// Bound on a fixed-point coefficient product: if the coefficient `a` is at
/// most `k` units, the product is at most `k` times the other factor.
pub proof fn lemma_coef_mul_bound(a: int, b: int, k: int)
    requires
        0 <= k,
        -k * (COEF_ONE as int) <= a <= k * (COEF_ONE as int),
    ensures
        -(k * abs_int(b)) <= coef_mul(a, b) <= k * abs_int(b),
{
    let s = COEF_ONE as int;
    let h = s / 2;
    let m = k * abs_int(b);
    assert(-(m * s) <= a * b <= m * s) by (nonlinear_arith)
        requires
            0 <= k,
            -k * s <= a <= k * s,
            m == k * abs_int(b),
            abs_int(b) == if b >= 0 { b } else { -b },
            s == COEF_ONE as int,
    ;
    assert(coef_mul(a, b) <= m) by {
        lemma_div_is_ordered(a * b + h, m * s + h, s);
        lemma_div_of_multiple_plus_small(m, s, h);
    }
    assert(-m <= coef_mul(a, b)) by {
        lemma_div_is_ordered(-(m * s) + h, a * b + h, s);
        assert(-(m * s) + h == (-m) * s + h) by (nonlinear_arith);
        lemma_div_of_multiple_plus_small(-m, s, h);
    }
}

/// A bounded rounded quotient bounds the dividend: if `(p + s/2)/s <= q` then
/// `p <= q*s + s`.
pub proof fn lemma_rounded_div_upper(p: int, s: int, q: int)
    requires
        0 < s,
        rounded_div(p, s) <= q,
    ensures
        p <= q * s + s,
{
    let h = s / 2;
    lemma_fundamental_div_mod(p + h, s);
    let d = (p + h) / s;
    assert(d * s <= q * s) by (nonlinear_arith)
        requires d <= q, 0 < s,
    ;
}

/// The squares in a squared norm are nonnegative and, when the scaled-down
/// norm fits, individually bounded.
proof fn lemma_sq_sum_bound(re: int, im: int)
    requires
        sample_scale_down(re * re + im * im) <= i64::MAX as int,
    ensures
        0 <= re * re,
        0 <= im * im,
        re * re + im * im <= i64::MAX as int * SAMPLE_ONE as int + SAMPLE_ONE as int,
{
    assert(0 <= re * re && 0 <= im * im) by (nonlinear_arith);
    lemma_rounded_div_upper(re * re + im * im, SAMPLE_ONE as int, i64::MAX as int);
}

/// Absolute value on mathematical integers.
pub open spec fn abs_int(x: int) -> int {
    if x >= 0 {
        x
    } else {
        -x
    }
}

/// A squared norm of componentwise-bounded values fits in `i64` once scaled
/// down, provided twice the squared bound does at the sample scale.
pub proof fn lemma_sq_fits(re: int, im: int, f: int)
    requires
        0 <= f,
        -f <= re <= f,
        -f <= im <= f,
        2 * (f * f) + SAMPLE_HALF as int <= i64::MAX as int * SAMPLE_ONE as int,
    ensures
        sample_scale_down(re * re + im * im) <= i64::MAX as int,
{
    let s = SAMPLE_ONE as int;
    assert(0 <= re * re + im * im <= 2 * (f * f)) by (nonlinear_arith)
        requires
            -f <= re <= f,
            -f <= im <= f,
            0 <= f,
    ;
    lemma_div_is_ordered(re * re + im * im + s / 2, i64::MAX as int * s, s);
    lemma_div_of_multiple_plus_small(i64::MAX as int, s, 0);
}

/// Multiply a coefficient `a` (at scale `COEF_ONE`) by an arbitrary
/// fixed-point value `b`, rounding the result half up.
pub fn mul_coef(a: i64, b: i64) -> (r: i64)
    requires
        -(i64::MAX as int) <= coef_mul(a as int, b as int) <= i64::MAX as int,
    ensures
        r as int == coef_mul(a as int, b as int),
{
    let p: i128 = (a as i128) * (b as i128) + (COEF_HALF as i128);
    let s: u128 = COEF_ONE as u128;
    if p >= 0 {
        let q: u128 = (p as u128) / s;
        assert(q == (a as int * b as int + COEF_HALF as int) / (COEF_ONE as int));
        q as i64
    } else {
        let m: u128 = (-p) as u128;
        let q: u128 = (m + (COEF_ONE - 1) as u128) / s;
        proof {
            lemma_floor_div_neg(m as int, s as int);
            assert(p as int == -(m as int));
        }
        assert(-(q as int) == (a as int * b as int + COEF_HALF as int) / (COEF_ONE as int));
        -(q as i64)
    }
}

/// Squared norm of a complex value given by its components, scaled back down
/// to the sample unit: `(re*re + im*im) / SAMPLE_ONE`, rounded half up.
pub fn sq_norm_scaled(re: i64, im: i64) -> (r: i64)
    requires
        sample_scale_down(re as int * re as int + im as int * im as int) <= i64::MAX as int,
    ensures
        r as int == sample_scale_down(re as int * re as int + im as int * im as int),
        r >= 0,
{
    proof {
        lemma_sq_sum_bound(re as int, im as int);
    }
    let pr: i128 = (re as i128) * (re as i128);
    let pi: i128 = (im as i128) * (im as i128);
    let p: u128 = (pr + pi) as u128 + (SAMPLE_HALF as u128);
    let q: u128 = p / (SAMPLE_ONE as u128);
    proof {
        lemma_div_is_ordered(0, p as int, SAMPLE_ONE as int);
    }
    q as i64
}

} // verus!
