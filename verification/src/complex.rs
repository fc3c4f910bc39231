//! Complex arithmetic for the transform.
//!
//! A `Complex` holds two fixed-point components. Twiddle factors carry the
//! `COEF_ONE` scale; the values being transformed carry the sample scale.
//! `mul_add` multiplies by a coefficient-scale factor and adds a term, per
//! component, exactly as the model functions below state.

use vstd::prelude::*;
use crate::fixed::{COEF_ONE, coef_mul, mul_coef, lemma_coef_mul_bound, abs_int};

verus! {

/// One complex number, two fixed-point components.
#[derive(Copy, Clone, PartialEq, Eq, Structural, Debug)]
pub struct Complex {
    pub re: i64,
    pub im: i64,
}

/// Mathematical model of a complex value: unbounded integer components.
pub struct Cpx {
    pub re: int,
    pub im: int,
}

impl View for Complex {
    type V = Cpx;

    open spec fn view(&self) -> Cpx {
        Cpx { re: self.re as int, im: self.im as int }
    }
}

/// Model of complex addition.
pub open spec fn c_add(a: Cpx, b: Cpx) -> Cpx {
    Cpx { re: a.re + b.re, im: a.im + b.im }
}

/// Model of complex subtraction.
pub open spec fn c_sub(a: Cpx, b: Cpx) -> Cpx {
    Cpx { re: a.re - b.re, im: a.im - b.im }
}

/// Model of complex negation.
pub open spec fn c_neg(a: Cpx) -> Cpx {
    Cpx { re: -a.re, im: -a.im }
}

/// Model of the fixed-point fused multiply-add `s*f + t`, where `s` carries
/// the coefficient scale: every product is divided by `COEF_ONE` with
/// round-half-up, separately per product, in the order the code computes.
pub open spec fn c_mul_add(s: Cpx, f: Cpx, t: Cpx) -> Cpx {
    Cpx {
        re: coef_mul(s.re, f.re) + coef_mul(-s.im, f.im) + t.re,
        im: coef_mul(s.re, f.im) + coef_mul(s.im, f.re) + t.im,
    }
}

/// Componentwise bound on a complex value's model.
pub open spec fn c_bounded(c: Cpx, b: int) -> bool {
    -b <= c.re <= b && -b <= c.im <= b
}

/// The fused multiply-add grows bounded values at most threefold when the
/// coefficient is at most one unit: `|s| <= COEF_ONE` componentwise and
/// `|f|, |t| <= b` give `|s*f + t| <= 3*b`.
pub proof fn lemma_mul_add_growth(s: Cpx, f: Cpx, t: Cpx, b: int)
    requires
        0 <= b,
        c_bounded(s, COEF_ONE as int),
        c_bounded(f, b),
        c_bounded(t, b),
    ensures
        c_bounded(c_mul_add(s, f, t), 3 * b),
{
    lemma_coef_mul_bound(s.re, f.re, 1);
    lemma_coef_mul_bound(-s.im, f.im, 1);
    lemma_coef_mul_bound(s.re, f.im, 1);
    lemma_coef_mul_bound(s.im, f.re, 1);
}

impl Complex {
    /// Componentwise addition.
    pub fn add(self, other: Complex) -> (r: Complex)
        requires
            i64::MIN as int <= self.re + other.re <= i64::MAX as int,
            i64::MIN as int <= self.im + other.im <= i64::MAX as int,
        ensures
            r@ == c_add(self@, other@),
    {
        Complex { re: self.re + other.re, im: self.im + other.im }
    }

    /// Componentwise subtraction.
    pub fn sub(self, other: Complex) -> (r: Complex)
        requires
            i64::MIN as int <= self.re - other.re <= i64::MAX as int,
            i64::MIN as int <= self.im - other.im <= i64::MAX as int,
        ensures
            r@ == c_sub(self@, other@),
    {
        Complex { re: self.re - other.re, im: self.im - other.im }
    }

    /// Componentwise negation.
    pub fn neg(self) -> (r: Complex)
        requires
            self.re != i64::MIN,
            self.im != i64::MIN,
        ensures
            r@ == c_neg(self@),
    {
        Complex { re: -self.re, im: -self.im }
    }

    /// Fused multiply-add `self * factor + term`, with `self` at the
    /// coefficient scale. The bound on `self` admits any coefficient up to
    /// two units, which covers twiddle factors and window weights alike.
    pub fn mul_add(self, factor: Complex, term: Complex) -> (r: Complex)
        requires
            c_bounded(self@, 2 * COEF_ONE as int),
            2 * abs_int(factor.re as int) + 2 * abs_int(factor.im as int)
                + abs_int(term.re as int) <= i64::MAX as int,
            2 * abs_int(factor.re as int) + 2 * abs_int(factor.im as int)
                + abs_int(term.im as int) <= i64::MAX as int,
        ensures
            r@ == c_mul_add(self@, factor@, term@),
    {
        proof {
            lemma_coef_mul_bound(self.re as int, factor.re as int, 2);
            lemma_coef_mul_bound(-(self.im as int), factor.im as int, 2);
            lemma_coef_mul_bound(self.re as int, factor.im as int, 2);
            lemma_coef_mul_bound(self.im as int, factor.re as int, 2);
        }
        let neg_im: i64 = -self.im;
        Complex {
            re: mul_coef(self.re, factor.re) + mul_coef(neg_im, factor.im) + term.re,
            im: mul_coef(self.re, factor.im) + mul_coef(self.im, factor.re) + term.im,
        }
    }
}

} // verus!
