//! The analysis window.
//!
//! A `Window` holds the discrete weights of the normalized raised-cosine
//! window, `w(i) = 2*sin^2(pi*i/(n-1))` at the coefficient scale, together
//! with the running table of the window's closed-form integral,
//! `F(t) = t - sin(2*pi*t)/(2*pi)` sampled at `t = i/n`. The sine values
//! themselves are transcendental and must be supplied by the caller; the
//! constructor checks every structural property the engine relies on —
//! lengths, weight range, the integral starting at zero, ending at exactly
//! one unit, and never decreasing — so nothing downstream depends on where
//! the tables came from. A window of length one is rejected: its weight
//! normalization divides by `n - 1`.
//!
//! The integral table is what lets display resampling weight partial
//! window overlaps exactly instead of approximating them numerically: the
//! integral over a span of the window is one subtraction.

use vstd::prelude::*;
use crate::fixed::COEF_ONE;
use crate::dft::{int_seq, weights_bounded};

verus! {

/// Why a window was rejected.
#[derive(Clone, Copy, PartialEq, Eq, Structural, Debug)]
pub enum WindowError {
    /// Fewer than two weights; the normalization `n - 1` needs `n >= 2`.
    TooShort,
    /// A weight outside `[0, 2]` in coefficient units.
    WeightOutOfRange,
    /// The integral table has the wrong length, does not run from zero to
    /// exactly one coefficient unit, or decreases somewhere.
    IntegralMalformed,
}

/// Validity of a window: at least two weights, each within zero and two
/// coefficient units, and a running-integral table with one more entry,
/// starting at zero, ending at exactly one coefficient unit, nondecreasing.
pub open spec fn window_valid(weights: Seq<int>, integral: Seq<int>) -> bool {
    &&& weights.len() >= 2
    &&& weights_bounded(weights)
    &&& integral.len() == weights.len() + 1
    &&& integral[0] == 0
    &&& integral[weights.len() as int] == COEF_ONE as int
    &&& forall|i: int| 0 <= i < weights.len() ==> #[trigger] integral[i] <= integral[i + 1]
}

/// The analysis window: weights and running integral, both fixed-point.
pub struct Window {
    pub weights: Vec<i64>,
    pub integral: Vec<i64>,
}

/// The integral of the window over the span `[a, b]` of its length-`n`
/// domain, in coefficient units: a difference of the running table.
pub open spec fn integral_between(integral: Seq<int>, a: int, b: int) -> int {
    integral[b] - integral[a]
}

/// A nondecreasing running table is ordered across any span, not just
/// between neighbours.
pub proof fn lemma_integral_monotone(integral: Seq<int>, n: int, a: int, b: int)
    requires
        0 <= a <= b <= n,
        n + 1 == integral.len(),
        forall|i: int| 0 <= i < n ==> #[trigger] integral[i] <= integral[i + 1],
    ensures
        integral[a] <= integral[b],
    decreases b - a,
{
    if a < b {
        lemma_integral_monotone(integral, n, a, b - 1);
        assert(integral[b - 1] <= integral[b]);
    }
}

impl Window {
    /// Structural validity, the precondition of every use of a window.
    pub open spec fn wf(&self) -> bool {
        window_valid(int_seq(self.weights@), int_seq(self.integral@))
    }

    /// The window length, the number of weights.
    pub open spec fn spec_len(&self) -> nat {
        self.weights@.len()
    }

    /// Check the supplied tables and build a window from them. Returns the
    /// window exactly when the tables are valid, and otherwise the first
    /// reason they are not, in the order of the `WindowError` variants.
    #[verifier::loop_isolation(false)]
    pub fn new(weights: Vec<i64>, integral: Vec<i64>) -> (r: Result<Window, WindowError>)
        ensures
            r is Ok <==> window_valid(int_seq(weights@), int_seq(integral@)),
            r matches Ok(w) ==> w.weights@ == weights@ && w.integral@ == integral@,
            r matches Err(e) ==> {
                &&& (e == WindowError::TooShort <==> weights@.len() < 2)
                &&& e == WindowError::WeightOutOfRange ==> weights@.len() >= 2 && !weights_bounded(
                    int_seq(weights@),
                )
                &&& e == WindowError::IntegralMalformed ==> weights@.len() >= 2
                    && weights_bounded(int_seq(weights@))
            },
    {
        let n = weights.len();
        if n < 2 {
            return Err(WindowError::TooShort);
        }
        let mut i: usize = 0;
        while i < n
            invariant
                i <= n,
                n == weights@.len(),
                forall|j: int|
                    0 <= j < i ==> 0 <= #[trigger] weights@[j] as int <= 2 * COEF_ONE as int,
            decreases n - i,
        {
            let w = weights[i];
            if w < 0 || w > 2 * COEF_ONE {
                proof {
                    assert(!(0 <= int_seq(weights@)[i as int] <= 2 * COEF_ONE as int));
                }
                return Err(WindowError::WeightOutOfRange);
            }
            i = i + 1;
        }
        proof {
            assert forall|j: int|
                0 <= j < n implies 0 <= #[trigger] int_seq(weights@)[j] <= 2 * COEF_ONE as int by {
                assert(int_seq(weights@)[j] == weights@[j] as int);
            }
        }
        if integral.len() < 1 || integral.len() - 1 != n {
            return Err(WindowError::IntegralMalformed);
        }
        if integral[0] != 0 || integral[n] != COEF_ONE {
            return Err(WindowError::IntegralMalformed);
        }
        let mut k: usize = 0;
        while k < n
            invariant
                k <= n,
                n == weights@.len(),
                integral@.len() == n + 1,
                forall|j: int|
                    0 <= j < k ==> #[trigger] integral@[j] as int <= integral@[j + 1] as int,
            decreases n - k,
        {
            if integral[k] > integral[k + 1] {
                proof {
                    assert(int_seq(integral@)[k as int] == integral@[k as int] as int);
                    assert(int_seq(integral@)[k as int + 1] == integral@[k as int + 1] as int);
                }
                return Err(WindowError::IntegralMalformed);
            }
            k = k + 1;
        }
        proof {
            assert forall|j: int|
                0 <= j < n implies #[trigger] int_seq(integral@)[j] <= int_seq(integral@)[j
                + 1] by {
                assert(int_seq(integral@)[j] == integral@[j] as int);
            }
        }
        Ok(Window { weights, integral })
    }

    /// The window length.
    pub fn len(&self) -> (r: usize)
        ensures
            r == self.spec_len(),
    {
        self.weights.len()
    }

    /// The weight at position `i`, in coefficient units.
    pub fn weight(&self, i: usize) -> (r: i64)
        requires
            self.wf(),
            i < self.spec_len(),
        ensures
            r as int == int_seq(self.weights@)[i as int],
            0 <= r <= 2 * COEF_ONE,
    {
        proof {
            assert(int_seq(self.weights@)[i as int] == self.weights@[i as int] as int);
        }
        self.weights[i]
    }

    /// The integral of the window over the span `[a, b]` of its domain, in
    /// coefficient units. Exact at the boundaries by construction: the full
    /// span gives exactly one unit.
    pub fn span_integral(&self, a: usize, b: usize) -> (r: i64)
        requires
            self.wf(),
            a <= b <= self.spec_len(),
        ensures
            r as int == integral_between(int_seq(self.integral@), a as int, b as int),
            0 <= r <= COEF_ONE,
    {
        proof {
            let im = int_seq(self.integral@);
            let n = self.spec_len() as int;
            lemma_integral_monotone(im, n, a as int, b as int);
            lemma_integral_monotone(im, n, 0, a as int);
            lemma_integral_monotone(im, n, b as int, n);
        }
        self.integral[b] - self.integral[a]
    }
}

/// The window integral is additive: over two adjacent spans it sums to the
/// integral over their union, exactly, whatever the sine table holds.
pub proof fn lemma_integral_additive(w: &Window, a: int, b: int, c: int)
    requires
        w.wf(),
        0 <= a <= b <= c <= w.spec_len(),
    ensures
        integral_between(int_seq(w.integral@), a, b) + integral_between(int_seq(w.integral@), b, c)
            == integral_between(int_seq(w.integral@), a, c),
{
}

/// The integral of the window over its whole domain is exactly one
/// coefficient unit: the normalized window has mean weight one.
pub proof fn lemma_full_integral_is_one(w: &Window)
    requires
        w.wf(),
    ensures
        integral_between(int_seq(w.integral@), 0, w.spec_len() as int) == COEF_ONE as int,
{
}

} // verus!
