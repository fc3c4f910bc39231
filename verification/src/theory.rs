//! The transform's defining laws, in exact arithmetic.
//!
//! The fixed-point transform rounds each coefficient product, so no exact
//! equation relates its output values directly to the textbook definition.
//! The algorithm itself, though — the recursive decimation in time with the
//! even/odd split and the butterfly combine, exactly the recursion shape of
//! `fft_fix` — obeys the textbook laws once the products are exact. This
//! module states the recursion over exact complex integer arithmetic
//! (`cx_mul` in place of the rounded `c_mul_add` products) and proves:
//!
//! - the fast recursive evaluation equals the direct quadratic-time
//!   evaluation of the definition, bin for bin, whenever the twiddle table
//!   consists of the powers of one root `w` whose half-table power is `-1`
//!   (`lemma_fast_transform_matches_direct`);
//! - on real input the transform is conjugate-symmetric, so the upper half
//!   of the bins carries no information beyond the lower half and its
//!   squared norms mirror them (`lemma_real_input_symmetry`).
//!
//! The hypotheses are satisfiable: for a table of length four, `w` with
//! real part zero and imaginary part minus one — the exact quarter turn —
//! is such a root, as `lemma_quarter_turn_satisfies_hypotheses` shows. At
//! that length the bridge is exact in both directions: the quarter turn's
//! components are whole coefficient units, every rounded product is exact,
//! and the fixed-point transform coincides with the exact one
//! (`lemma_length_four_transform_is_exact`). At greater lengths the
//! twiddle factors are irrational and the executable transform's rounding
//! is checked against the direct evaluation by measurement instead.

use vstd::prelude::*;
use vstd::arithmetic::div_mod::{
    lemma_mod_multiples_basic, lemma_add_mod_noop, lemma_mod_sub_multiples_vanish,
    lemma_small_mod, lemma_fundamental_div_mod,
};
use crate::complex::{Cpx, c_add, c_neg, c_mul_add};
use crate::fixed::{coef_mul, COEF_ONE, lemma_div_of_multiple_plus_small};
use crate::dft::{evens, odds, is_pow2};

verus! {

/// Exact complex multiplication.
pub open spec fn cx_mul(a: Cpx, b: Cpx) -> Cpx {
    Cpx { re: a.re * b.re - a.im * b.im, im: a.re * b.im + a.im * b.re }
}

/// Complex one.
pub open spec fn cx_one() -> Cpx {
    Cpx { re: 1, im: 0 }
}

/// Complex zero.
pub open spec fn cx_zero() -> Cpx {
    Cpx { re: 0, im: 0 }
}

/// Complex conjugate.
pub open spec fn cx_conj(a: Cpx) -> Cpx {
    Cpx { re: a.re, im: -a.im }
}

/// The `k`-th power of `w`.
pub open spec fn cx_pow(w: Cpx, k: nat) -> Cpx
    decreases k,
{
    if k == 0 {
        cx_one()
    } else {
        cx_mul(cx_pow(w, (k - 1) as nat), w)
    }
}

/// Multiplication is commutative.
proof fn lemma_cx_mul_comm(a: Cpx, b: Cpx)
    ensures
        cx_mul(a, b) == cx_mul(b, a),
{
    assert(a.re * b.re - a.im * b.im == b.re * a.re - b.im * a.im) by (nonlinear_arith);
    assert(a.re * b.im + a.im * b.re == b.re * a.im + b.im * a.re) by (nonlinear_arith);
}

/// Multiplication is associative.
#[verifier::rlimit(100)]
proof fn lemma_cx_mul_assoc(a: Cpx, b: Cpx, c: Cpx)
    ensures
        cx_mul(cx_mul(a, b), c) == cx_mul(a, cx_mul(b, c)),
{
    broadcast use vstd::arithmetic::mul::group_mul_properties;

    assert((a.re * b.re - a.im * b.im) * c.re - (a.re * b.im + a.im * b.re) * c.im == a.re * (b.re
        * c.re - b.im * c.im) - a.im * (b.re * c.im + b.im * c.re));
    assert((a.re * b.re - a.im * b.im) * c.im + (a.re * b.im + a.im * b.re) * c.re == a.re * (b.re
        * c.im + b.im * c.re) + a.im * (b.re * c.re - b.im * c.im));
}

/// One is the multiplicative unit.
proof fn lemma_cx_mul_one(a: Cpx)
    ensures
        cx_mul(a, cx_one()) == a,
        cx_mul(cx_one(), a) == a,
{
    assert(a.re * 1 == a.re && a.im * 1 == a.im && a.re * 0 == 0 && a.im * 0 == 0 && 1 * a.re
        == a.re && 1 * a.im == a.im && 0 * a.re == 0 && 0 * a.im == 0) by (nonlinear_arith);
}

/// Zero absorbs multiplication.
proof fn lemma_cx_mul_zero(a: Cpx)
    ensures
        cx_mul(a, cx_zero()) == cx_zero(),
{
    assert(a.re * 0 == 0 && a.im * 0 == 0) by (nonlinear_arith);
}

/// Multiplication distributes over addition.
proof fn lemma_cx_mul_distrib(a: Cpx, b: Cpx, c: Cpx)
    ensures
        cx_mul(a, c_add(b, c)) == c_add(cx_mul(a, b), cx_mul(a, c)),
{
    assert(a.re * (b.re + c.re) - a.im * (b.im + c.im) == (a.re * b.re - a.im * b.im) + (a.re
        * c.re - a.im * c.im)) by (nonlinear_arith);
    assert(a.re * (b.im + c.im) + a.im * (b.re + c.re) == (a.re * b.im + a.im * b.re) + (a.re
        * c.im + a.im * c.re)) by (nonlinear_arith);
}

/// Negating one factor negates the product.
proof fn lemma_cx_mul_neg(a: Cpx, b: Cpx)
    ensures
        cx_mul(a, c_neg(b)) == c_neg(cx_mul(a, b)),
        cx_mul(c_neg(a), b) == c_neg(cx_mul(a, b)),
{
    assert(a.re * (-b.re) - a.im * (-b.im) == -(a.re * b.re - a.im * b.im)) by (nonlinear_arith);
    assert(a.re * (-b.im) + a.im * (-b.re) == -(a.re * b.im + a.im * b.re)) by (nonlinear_arith);
    assert((-a.re) * b.re - (-a.im) * b.im == -(a.re * b.re - a.im * b.im)) by (nonlinear_arith);
    assert((-a.re) * b.im + (-a.im) * b.re == -(a.re * b.im + a.im * b.re)) by (nonlinear_arith);
}

/// The conjugate of a product is the product of the conjugates.
proof fn lemma_cx_conj_mul(a: Cpx, b: Cpx)
    ensures
        cx_conj(cx_mul(a, b)) == cx_mul(cx_conj(a), cx_conj(b)),
{
    assert(a.re * b.re - (-a.im) * (-b.im) == a.re * b.re - a.im * b.im) by (nonlinear_arith);
    assert(a.re * (-b.im) + (-a.im) * b.re == -(a.re * b.im + a.im * b.re)) by (nonlinear_arith);
}

/// Powers add: `w^(a+b) == w^a * w^b`.
proof fn lemma_cx_pow_add(w: Cpx, a: nat, b: nat)
    ensures
        cx_pow(w, a + b) == cx_mul(cx_pow(w, a), cx_pow(w, b)),
    decreases b,
{
    if b == 0 {
        lemma_cx_mul_one(cx_pow(w, a));
    } else {
        lemma_cx_pow_add(w, a, (b - 1) as nat);
        lemma_cx_mul_assoc(cx_pow(w, a), cx_pow(w, (b - 1) as nat), w);
        assert(a + b == (a + b - 1) + 1);
    }
}

/// Once `w^n == 1`, exponents only matter modulo `n`.
proof fn lemma_cx_pow_mod(w: Cpx, n: nat, a: nat)
    requires
        1 <= n,
        cx_pow(w, n) == cx_one(),
    ensures
        cx_pow(w, a) == cx_pow(w, (a as int % n as int) as nat),
    decreases a,
{
    if a < n {
        lemma_small_mod(a, n);
    } else {
        lemma_cx_pow_add(w, (a - n) as nat, n);
        lemma_cx_mul_one(cx_pow(w, (a - n) as nat));
        lemma_cx_pow_mod(w, n, (a - n) as nat);
        lemma_mod_sub_multiples_vanish(a as int, n as int);
    }
}

/// The exact-arithmetic mirror of the fixed-point transform's recursion:
/// identical decimation, identical combine shape, exact products.
pub open spec fn fft_exact(xs: Seq<Cpx>, tw: Seq<Cpx>, stride: nat) -> Seq<Cpx>
    decreases xs.len(),
{
    if xs.len() < 2 || xs.len() % 2 != 0 {
        xs
    } else {
        let h = xs.len() as int / 2;
        let e = fft_exact(evens(xs), tw, stride * 2);
        let o = fft_exact(odds(xs), tw, stride * 2);
        Seq::new(
            xs.len(),
            |i: int|
                if i < h {
                    c_add(e[i], cx_mul(tw[i * stride], o[i]))
                } else {
                    c_add(e[i - h], cx_mul(tw[(i - h) * stride], c_neg(o[i - h])))
                },
        )
    }
}

/// The direct evaluation of bin `k` over the first `m` elements, reading
/// every `stride`-th table entry: the sum of `tw[(j*k*stride) mod n] * xs[j]`.
pub open spec fn sum_strided(xs: Seq<Cpx>, tw: Seq<Cpx>, stride: nat, k: int, m: nat) -> Cpx
    decreases m,
{
    if m == 0 {
        cx_zero()
    } else {
        c_add(
            sum_strided(xs, tw, stride, k, (m - 1) as nat),
            cx_mul(tw[((m - 1) * k * stride as int) % (tw.len() as int)], xs[m - 1]),
        )
    }
}

/// The direct quadratic-time transform: every bin by definition.
pub open spec fn dft_exact(xs: Seq<Cpx>, tw: Seq<Cpx>) -> Seq<Cpx> {
    Seq::new(xs.len(), |k: int| sum_strided(xs, tw, 1, k, xs.len()))
}

/// The twiddle table consists of the powers of the root `w`, and half a
/// turn through the table negates: the hypotheses of the transform laws.
pub open spec fn root_table(tw: Seq<Cpx>, w: Cpx) -> bool {
    &&& 1 <= tw.len()
    &&& forall|j: int| 0 <= j < tw.len() ==> #[trigger] tw[j] == cx_pow(w, j as nat)
    &&& (tw.len() >= 2 ==> tw.len() % 2 == 0 && cx_pow(w, (tw.len() / 2) as nat) == c_neg(
        cx_one(),
    ))
    &&& (tw.len() == 1 ==> w == cx_one())
}

/// A full turn through the table is the identity.
proof fn lemma_root_full_turn(tw: Seq<Cpx>, w: Cpx)
    requires
        root_table(tw, w),
    ensures
        cx_pow(w, tw.len()) == cx_one(),
{
    let n = tw.len();
    if n == 1 {
        lemma_cx_mul_one(cx_pow(w, 0));
    } else {
        let h = (n / 2) as nat;
        lemma_cx_pow_add(w, h, h);
        assert(h + h == n);
        assert(cx_mul(c_neg(cx_one()), c_neg(cx_one())) == cx_one()) by {
            assert((-1) * (-1) == 1 && (-1) * 0 == 0 && 0 * (-1) == 0 && 0 * 0 == 0)
                by (nonlinear_arith);
        }
    }
}


/// The direct sum splits by parity: the even-position and odd-position
/// elements each contribute their own direct sum at twice the stride, the
/// odd one rotated by `w^(k*stride)`.
proof fn lemma_split_parity(xs: Seq<Cpx>, tw: Seq<Cpx>, stride: nat, k: int, w: Cpx, u: nat)
    requires
        root_table(tw, w),
        0 <= k,
        1 <= stride,
        2 * u <= xs.len(),
    ensures
        sum_strided(xs, tw, stride, k, 2 * u) == c_add(
            sum_strided(evens(xs), tw, 2 * stride, k, u),
            cx_mul(
                cx_pow(w, (k * stride) as nat),
                sum_strided(odds(xs), tw, 2 * stride, k, u),
            ),
        ),
    decreases u,
{
    let n = tw.len() as int;
    let c = cx_pow(w, (k * stride) as nat);
    lemma_root_full_turn(tw, w);
    if u == 0 {
        lemma_cx_mul_zero(c);
    } else {
        lemma_split_parity(xs, tw, stride, k, w, (u - 1) as nat);
        let eprev = sum_strided(evens(xs), tw, 2 * stride, k, (u - 1) as nat);
        let oprev = sum_strided(odds(xs), tw, 2 * stride, k, (u - 1) as nat);
        let ei = ((u - 1) * k * (2 * stride)) % n;
        let eterm = cx_mul(tw[ei], evens(xs)[u - 1]);
        let oterm = cx_mul(tw[ei], odds(xs)[u - 1]);
        // The whole-sequence term at even position 2u-2 is the evens' term.
        assert((2 * u - 2) * k * stride as int == (u - 1) * k * (2 * stride as int))
            by (nonlinear_arith);
        assert(evens(xs)[u - 1] == xs[2 * (u - 1)]);
        assert(odds(xs)[u - 1] == xs[2 * (u - 1) + 1]);
        assert(sum_strided(xs, tw, stride, k, 2 * u) == c_add(
            sum_strided(xs, tw, stride, k, (2 * u - 1) as nat),
            cx_mul(tw[((2 * u - 1) * k * stride as int) % n], xs[2 * u - 1]),
        ));
        assert(sum_strided(xs, tw, stride, k, (2 * u - 1) as nat) == c_add(
            sum_strided(xs, tw, stride, k, (2 * u - 2) as nat),
            cx_mul(tw[((2 * u - 2) * k * stride as int) % n], xs[2 * u - 2]),
        ));
        assert(sum_strided(xs, tw, stride, k, (2 * u - 2) as nat) == sum_strided(
            xs,
            tw,
            stride,
            k,
            2 * ((u - 1) as nat),
        ));
        // The whole-sequence term at odd position 2u-1 is the odds' term,
        // rotated by one extra factor of w^(k*stride).
        let oi = ((2 * u - 1) * k * stride as int) % n;
        assert(0 <= ei < n && 0 <= oi < n && 0 <= (u - 1) * k * (2 * stride as int))
            by (nonlinear_arith)
            requires
                n >= 1,
                ei == ((u - 1) * k * (2 * stride as int)) % n,
                oi == ((2 * u - 1) * k * stride as int) % n,
                0 <= k,
                1 <= stride,
                1 <= u,
        ;
        assert(tw[ei] == cx_pow(w, ei as nat));
        assert(tw[oi] == cx_pow(w, oi as nat));
        assert((2 * u - 1) * k * stride as int == k * stride as int + (u - 1) * k * (2 * stride
            as int)) by (nonlinear_arith);
        let full: nat = ((2 * u - 1) * k * stride as int) as nat;
        lemma_cx_pow_mod(w, tw.len(), full);
        lemma_cx_pow_mod(w, tw.len(), ((u - 1) * k * (2 * stride as int)) as nat);
        lemma_cx_pow_add(w, (k * stride) as nat, ((u - 1) * k * (2 * stride as int)) as nat);
        assert(cx_pow(w, oi as nat) == cx_mul(c, cx_pow(w, ei as nat)));
        lemma_cx_mul_assoc(c, cx_pow(w, ei as nat), xs[2 * u - 1]);
        assert(cx_mul(tw[oi], xs[2 * u - 1]) == cx_mul(c, oterm));
        // Fold the two new terms into the two split sums.
        lemma_cx_mul_distrib(c, oprev, oterm);
        assert(sum_strided(evens(xs), tw, 2 * stride, k, u) == c_add(eprev, eterm));
        assert(sum_strided(odds(xs), tw, 2 * stride, k, u) == c_add(oprev, oterm));
    }
}

/// Shifting the bin by `h` with `stride*h == n` leaves the strided sum
/// unchanged: the table is periodic at that step.
proof fn lemma_sum_shift(xs: Seq<Cpx>, tw: Seq<Cpx>, stride: nat, k: int, h: int, m: nat)
    requires
        0 <= k,
        0 <= h,
        1 <= tw.len(),
        stride as int * h == tw.len() as int,
    ensures
        sum_strided(xs, tw, stride, k + h, m) == sum_strided(xs, tw, stride, k, m),
    decreases m,
{
    if m > 0 {
        lemma_sum_shift(xs, tw, stride, k, h, (m - 1) as nat);
        let n = tw.len() as int;
        let j = m as int - 1;
        assert(j * (k + h) * stride as int == n * j + j * k * stride as int) by (nonlinear_arith)
            requires
                stride as int * h == n,
                j == m as int - 1,
                0 <= j,
        ;
        vstd::arithmetic::div_mod::lemma_mod_multiples_vanish(j, j * k * stride as int, n);
    }
}

/// The fast recursive evaluation equals the direct evaluation, bin for
/// bin — the correctness of the decimation-in-time recursion against the
/// transform's definition, in exact arithmetic, at any level of the
/// recursion (`stride` entries apart in the table).
pub proof fn lemma_fft_exact_is_dft_strided(xs: Seq<Cpx>, tw: Seq<Cpx>, stride: nat, w: Cpx)
    requires
        is_pow2(xs.len()),
        1 <= stride,
        xs.len() * stride == tw.len(),
        root_table(tw, w),
    ensures
        fft_exact(xs, tw, stride) == Seq::new(
            xs.len(),
            |k: int| sum_strided(xs, tw, stride, k, xs.len()),
        ),
    decreases xs.len(),
{
    let n = tw.len() as int;
    let m = xs.len() as int;
    lemma_root_full_turn(tw, w);
    if m < 2 {
        assert(m == 1);
        assert(fft_exact(xs, tw, stride) == xs);
        assert forall|k: int| 0 <= k < 1 implies sum_strided(xs, tw, stride, k, 1) == xs[0] by {
            assert(0 * k * (stride as int) == 0) by (nonlinear_arith);
            assert((1 - 1) * k * (stride as int) == 0) by (nonlinear_arith);
            lemma_small_mod(0, tw.len());
            assert((0int) % (tw.len() as int) == 0);
            assert(sum_strided(xs, tw, stride, k, 0) == cx_zero());
            assert(sum_strided(xs, tw, stride, k, 1) == c_add(
                cx_zero(),
                cx_mul(tw[0], xs[0]),
            ));
            assert(tw[0] == cx_pow(w, 0));
            lemma_cx_mul_one(xs[0]);
            assert(c_add(cx_zero(), xs[0]) == xs[0]);
        }
        assert(fft_exact(xs, tw, stride) =~= Seq::new(
            m as nat,
            |k: int| sum_strided(xs, tw, stride, k, xs.len()),
        ));
    } else {
        let h = m / 2;
        assert(m % 2 == 0 && is_pow2((m / 2) as nat));
        assert(tw.len() >= 2) by (nonlinear_arith)
            requires
                xs.len() * stride == tw.len(),
                xs.len() >= 2,
                stride >= 1,
        ;
        assert(2 * h == m);
        assert(evens(xs).len() == h && odds(xs).len() == h);
        assert(h * (2 * stride as int) == n && 2 * stride as int >= 1) by (nonlinear_arith)
            requires
                m * stride as int == n,
                2 * h == m,
                stride >= 1,
        ;
        lemma_fft_exact_is_dft_strided(evens(xs), tw, stride * 2, w);
        lemma_fft_exact_is_dft_strided(odds(xs), tw, stride * 2, w);
        let e = fft_exact(evens(xs), tw, stride * 2);
        let o = fft_exact(odds(xs), tw, stride * 2);
        assert forall|k: int|
            0 <= k < m implies fft_exact(xs, tw, stride)[k] == sum_strided(
            xs,
            tw,
            stride,
            k,
            xs.len(),
        ) by {
            lemma_split_parity(xs, tw, stride, k, w, h as nat);
            let rot = cx_pow(w, (k * stride) as nat);
            if k < h {
                assert(e[k] == sum_strided(evens(xs), tw, 2 * stride, k, h as nat));
                assert(o[k] == sum_strided(odds(xs), tw, 2 * stride, k, h as nat));
                assert(0 <= k * (stride as int) && k * (stride as int) < n) by (nonlinear_arith)
                    requires
                        0 <= k < h,
                        2 * h == m,
                        m * stride as int == n,
                        stride >= 1,
                ;
                assert(tw[k * stride as int] == cx_pow(w, (k * stride as int) as nat));
                assert(fft_exact(xs, tw, stride)[k] == c_add(
                    e[k],
                    cx_mul(tw[k * stride as int], o[k]),
                ));
            } else {
                let k2 = k - h;
                assert(e[k2] == sum_strided(evens(xs), tw, 2 * stride, k2, h as nat));
                assert(o[k2] == sum_strided(odds(xs), tw, 2 * stride, k2, h as nat));
                // Shift the split sums from bin k2 up to bin k.
                lemma_sum_shift(evens(xs), tw, 2 * stride, k2, h, h as nat);
                lemma_sum_shift(odds(xs), tw, 2 * stride, k2, h, h as nat);
                assert(sum_strided(evens(xs), tw, 2 * stride, k, h as nat) == e[k2]);
                assert(sum_strided(odds(xs), tw, 2 * stride, k, h as nat) == o[k2]);
                // The rotation at bin k is minus the rotation at bin k2.
                assert(k * stride as int == k2 * stride as int + h * stride as int)
                    by (nonlinear_arith)
                    requires
                        k == k2 + h,
                ;
                assert(h * stride as int == n / 2) by (nonlinear_arith)
                    requires
                        2 * h == m,
                        m * stride as int == n,
                ;
                lemma_cx_pow_add(w, (k2 * stride as int) as nat, (h * stride as int) as nat);
                assert((n / 2) as nat == tw.len() / 2);
                assert(cx_pow(w, (n / 2) as nat) == c_neg(cx_one()));
                let rot2 = cx_pow(w, (k2 * stride as int) as nat);
                lemma_cx_mul_comm(rot2, c_neg(cx_one()));
                lemma_cx_mul_neg(cx_one(), rot2);
                lemma_cx_mul_one(rot2);
                assert(rot == c_neg(rot2));
                assert(0 <= k2 * (stride as int) && k2 * (stride as int) < n) by (nonlinear_arith)
                    requires
                        0 <= k2 < h,
                        2 * h == m,
                        m * stride as int == n,
                        stride >= 1,
                ;
                assert(tw[k2 * stride as int] == rot2);
                lemma_cx_mul_neg(rot2, o[k2]);
                assert(cx_mul(rot, o[k2]) == c_neg(cx_mul(rot2, o[k2]))) by {
                    lemma_cx_mul_neg(rot2, o[k2]);
                    assert(cx_mul(c_neg(rot2), o[k2]) == c_neg(cx_mul(rot2, o[k2]))) by {
                        lemma_cx_mul_neg(rot2, o[k2]);
                    }
                }
                assert(cx_mul(tw[k2 * stride as int], c_neg(o[k2])) == c_neg(
                    cx_mul(rot2, o[k2]),
                )) by {
                    lemma_cx_mul_neg(rot2, o[k2]);
                }
                assert(fft_exact(xs, tw, stride)[k] == c_add(
                    e[k2],
                    cx_mul(tw[k2 * stride as int], c_neg(o[k2])),
                ));
            }
        }
        assert(fft_exact(xs, tw, stride) =~= Seq::new(
            m as nat,
            |k: int| sum_strided(xs, tw, stride, k, xs.len()),
        ));
    }
}

/// Law: for any power-of-two-length input and any twiddle table of powers
/// of a root whose half-table power is minus one, the fast recursive
/// transform equals the direct quadratic-time evaluation of the
/// definition at every bin, in exact arithmetic.
pub proof fn lemma_fast_transform_matches_direct(xs: Seq<Cpx>, tw: Seq<Cpx>, w: Cpx)
    requires
        is_pow2(xs.len()),
        xs.len() == tw.len(),
        root_table(tw, w),
    ensures
        fft_exact(xs, tw, 1) == dft_exact(xs, tw),
{
    lemma_fft_exact_is_dft_strided(xs, tw, 1, w);
}


/// The squared norm of a complex value, in exact arithmetic.
pub open spec fn cx_sqnorm(c: Cpx) -> int {
    c.re * c.re + c.im * c.im
}

/// Every element has a zero imaginary part: the shape of audio input.
pub open spec fn all_real(xs: Seq<Cpx>) -> bool {
    forall|i: int| 0 <= i < xs.len() ==> (#[trigger] xs[i]).im == 0
}

/// A root of unit norm keeps unit norm at every power.
proof fn lemma_cx_pow_conj(w: Cpx, a: nat)
    requires
        cx_mul(w, cx_conj(w)) == cx_one(),
    ensures
        cx_mul(cx_pow(w, a), cx_conj(cx_pow(w, a))) == cx_one(),
    decreases a,
{
    if a == 0 {
        lemma_cx_mul_one(cx_one());
    } else {
        lemma_cx_pow_conj(w, (a - 1) as nat);
        let x = cx_pow(w, (a - 1) as nat);
        let cx = cx_conj(x);
        let cy = cx_conj(w);
        lemma_cx_conj_mul(x, w);
        // (x*w)*(cx*cy) == (x*cx)*(w*cy) == one*one == one
        lemma_cx_mul_assoc(cx_mul(x, w), cx, cy);
        lemma_cx_mul_assoc(x, w, cx);
        lemma_cx_mul_comm(w, cx);
        lemma_cx_mul_assoc(x, cx, w);
        lemma_cx_mul_assoc(cx_mul(x, cx), w, cy);
        lemma_cx_mul_one(w);
        lemma_cx_mul_one(cx_mul(w, cy));
    }
}

/// Two right inverses of the same value agree.
proof fn lemma_cx_inverse_unique(z: Cpx, a: Cpx, b: Cpx)
    requires
        cx_mul(z, a) == cx_one(),
        cx_mul(z, b) == cx_one(),
    ensures
        a == b,
{
    // a == a*(z*b) == (a*z)*b == one*b == b
    lemma_cx_mul_one(a);
    lemma_cx_mul_assoc(a, z, b);
    lemma_cx_mul_comm(a, z);
    lemma_cx_mul_one(b);
}

/// Mirrored bins read conjugate table entries: `tw[(j*(n-k)) mod n]` is the
/// conjugate of `tw[(j*k) mod n]`.
proof fn lemma_table_conj(tw: Seq<Cpx>, w: Cpx, k: int, j: int)
    requires
        root_table(tw, w),
        cx_mul(w, cx_conj(w)) == cx_one(),
        1 <= k < tw.len(),
        0 <= j,
    ensures
        tw[(j * (tw.len() as int - k)) % (tw.len() as int)] == cx_conj(
            tw[(j * k) % (tw.len() as int)],
        ),
{
    let n = tw.len() as int;
    lemma_root_full_turn(tw, w);
    assert(0 <= j * (n - k) && 0 <= j * k && j * (n - k) + j * k == j * n) by (nonlinear_arith)
        requires
            0 <= j,
            1 <= k < n,
    ;
    let r1 = (j * (n - k)) % n;
    let r2 = (j * k) % n;
    assert(0 <= r1 < n && 0 <= r2 < n);
    lemma_add_mod_noop(j * (n - k), j * k, n);
    lemma_mod_multiples_basic(j, n);
    assert((r1 + r2) % n == 0);
    lemma_fundamental_div_mod(r1 + r2, n);
    let q = (r1 + r2) / n;
    assert(q == 0 || q == 1) by (nonlinear_arith)
        requires
            r1 + r2 == n * q + 0,
            0 <= r1 + r2 < 2 * n,
            1 <= n,
    ;
    assert(tw[r1] == cx_pow(w, r1 as nat));
    assert(tw[r2] == cx_pow(w, r2 as nat));
    lemma_cx_pow_conj(w, r2 as nat);
    if q == 0 {
        assert(r1 == 0 && r2 == 0);
    } else {
        assert(r1 + r2 == n);
        lemma_cx_pow_add(w, r1 as nat, r2 as nat);
        // w^r2 has two right inverses: w^r1 and conj(w^r2).
        lemma_cx_mul_comm(cx_pow(w, r1 as nat), cx_pow(w, r2 as nat));
        lemma_cx_inverse_unique(cx_pow(w, r2 as nat), cx_pow(w, r1 as nat), cx_conj(cx_pow(w, r2 as nat)));
    }
}

/// For real input, mirrored bins of the direct sum are conjugates.
proof fn lemma_sum_conj_symmetry(xs: Seq<Cpx>, tw: Seq<Cpx>, w: Cpx, k: int, m: nat)
    requires
        root_table(tw, w),
        cx_mul(w, cx_conj(w)) == cx_one(),
        all_real(xs),
        m <= xs.len(),
        1 <= k < tw.len(),
    ensures
        sum_strided(xs, tw, 1, tw.len() as int - k, m) == cx_conj(
            sum_strided(xs, tw, 1, k, m),
        ),
    decreases m,
{
    let n = tw.len() as int;
    if m == 0 {
    } else {
        lemma_sum_conj_symmetry(xs, tw, w, k, (m - 1) as nat);
        let j = m as int - 1;
        assert(j * (n - k) * (1 as int) == j * (n - k) && j * k * (1 as int) == j * k)
            by (nonlinear_arith);
        lemma_table_conj(tw, w, k, j);
        lemma_cx_conj_mul(tw[(j * k) % n], xs[j]);
        assert(cx_conj(xs[j]) == xs[j]);
    }
}

/// Law: for real input the transform is conjugate-symmetric. In exact
/// arithmetic, bin `n - k` of the full-length fast transform is the
/// conjugate of bin `k`, and its squared norm equals bin `k`'s: the upper
/// half of the bins repeats the lower half's magnitudes, so discarding it
/// loses nothing.
pub proof fn lemma_real_input_symmetry(xs: Seq<Cpx>, tw: Seq<Cpx>, w: Cpx, k: int)
    requires
        is_pow2(xs.len()),
        xs.len() == tw.len(),
        root_table(tw, w),
        cx_mul(w, cx_conj(w)) == cx_one(),
        all_real(xs),
        1 <= k < xs.len(),
    ensures
        fft_exact(xs, tw, 1)[xs.len() - k] == cx_conj(fft_exact(xs, tw, 1)[k]),
        cx_sqnorm(fft_exact(xs, tw, 1)[xs.len() - k]) == cx_sqnorm(fft_exact(xs, tw, 1)[k]),
{
    lemma_fft_exact_is_dft_strided(xs, tw, 1, w);
    lemma_sum_conj_symmetry(xs, tw, w, k, xs.len());
    let z = fft_exact(xs, tw, 1)[k];
    assert(cx_sqnorm(cx_conj(z)) == cx_sqnorm(z)) by {
        assert((-z.im) * (-z.im) == z.im * z.im) by (nonlinear_arith);
    }
}

/// The exact quarter turn: the fourth root of one with a minus sign on its
/// imaginary part, matching the forward transform's sign convention.
pub open spec fn quarter_turn() -> Cpx {
    Cpx { re: 0, im: -1 }
}

/// The table of the quarter turn's powers.
pub open spec fn quarter_table() -> Seq<Cpx> {
    seq![
        Cpx { re: 1, im: 0 },
        Cpx { re: 0, im: -1 },
        Cpx { re: -1, im: 0 },
        Cpx { re: 0, im: 1 },
    ]
}

/// The transform laws' hypotheses are satisfiable: the quarter turn
/// generates a valid four-entry twiddle table and has unit norm.
pub proof fn lemma_quarter_turn_satisfies_hypotheses()
    ensures
        root_table(quarter_table(), quarter_turn()),
        cx_mul(quarter_turn(), cx_conj(quarter_turn())) == cx_one(),
{
    let w = quarter_turn();
    let tw = quarter_table();
    reveal_with_fuel(cx_pow, 5);
    assert(cx_pow(w, 1) == cx_mul(cx_one(), w));
    assert(tw[0] == cx_pow(w, 0));
    assert(tw[1] == cx_pow(w, 1));
    assert(tw[2] == cx_pow(w, 2));
    assert(tw[3] == cx_pow(w, 3));
    assert(cx_pow(w, (tw.len() / 2) as nat) == c_neg(cx_one()));
    assert forall|j: int| 0 <= j < tw.len() implies #[trigger] tw[j] == cx_pow(w, j as nat) by {
        assert(tw[0] == cx_pow(w, 0));
        assert(tw[1] == cx_pow(w, 1));
        assert(tw[2] == cx_pow(w, 2));
        assert(tw[3] == cx_pow(w, 3));
    }
}


/// The quarter-turn table at the coefficient scale, as the executable
/// transform consumes it: components are exactly one unit, minus one unit
/// or zero.
pub open spec fn quarter_table_fix() -> Seq<Cpx> {
    seq![
        Cpx { re: COEF_ONE as int, im: 0 },
        Cpx { re: 0, im: -(COEF_ONE as int) },
        Cpx { re: -(COEF_ONE as int), im: 0 },
        Cpx { re: 0, im: COEF_ONE as int },
    ]
}

/// Multiplying by a whole coefficient unit, its negation, or zero rounds
/// nothing away.
proof fn lemma_coef_mul_unit(x: int)
    ensures
        coef_mul(COEF_ONE as int, x) == x,
        coef_mul(-(COEF_ONE as int), x) == -x,
        coef_mul(0, x) == 0,
{
    let c = COEF_ONE as int;
    let h = c / 2;
    assert(c * x == x * c && (-c) * x == (-x) * c && 0 * x == 0) by (nonlinear_arith);
    lemma_div_of_multiple_plus_small(x, c, h);
    lemma_div_of_multiple_plus_small(-x, c, h);
    lemma_div_of_multiple_plus_small(0, c, h);
}

/// The rounded butterfly with a scaled quarter-table entry equals the
/// exact butterfly with the corresponding unit entry.
proof fn lemma_quarter_butterfly(j: int, f: Cpx, e: Cpx)
    requires
        0 <= j < 4,
    ensures
        c_mul_add(quarter_table_fix()[j], f, e) == c_add(e, cx_mul(quarter_table()[j], f)),
        c_mul_add(quarter_table_fix()[j], c_neg(f), e) == c_add(
            e,
            cx_mul(quarter_table()[j], c_neg(f)),
        ),
{
    lemma_coef_mul_unit(f.re);
    lemma_coef_mul_unit(f.im);
    lemma_coef_mul_unit(-f.re);
    lemma_coef_mul_unit(-f.im);
    assert(0 * f.re == 0 && 0 * f.im == 0 && 1 * f.re == f.re && 1 * f.im == f.im && (-1) * f.re
        == -f.re && (-1) * f.im == -f.im && 0 * (-f.re) == 0 && 0 * (-f.im) == 0 && 1 * (-f.re)
        == -f.re && 1 * (-f.im) == -f.im && (-1) * (-f.re) == f.re && (-1) * (-f.im) == f.im)
        by (nonlinear_arith);
}

/// With the quarter-turn table nothing is rounded: the fixed-point
/// transform of a length-four sequence is the exact-arithmetic transform,
/// so `lemma_fast_transform_matches_direct` speaks of exactly what the
/// executable transform computes at this length.
pub proof fn lemma_length_four_transform_is_exact(xs: Seq<Cpx>)
    requires
        xs.len() == 4,
    ensures
        crate::dft::fft_fix(xs, quarter_table_fix(), 1) == fft_exact(xs, quarter_table(), 1),
{
    let tf = quarter_table_fix();
    let te = quarter_table();
    let ev = evens(xs);
    let od = odds(xs);
    assert(ev.len() == 2 && od.len() == 2);
    assert(ev[0] == xs[0] && ev[1] == xs[2] && od[0] == xs[1] && od[1] == xs[3]);
    // The two-point sub-transforms, fixed and exact, coincide: they only
    // use table entry zero.
    assert(evens(ev) =~= seq![xs[0]] && odds(ev) =~= seq![xs[2]]);
    assert(evens(od) =~= seq![xs[1]] && odds(od) =~= seq![xs[3]]);
    let f_ev = crate::dft::fft_fix(ev, tf, 2);
    let f_od = crate::dft::fft_fix(od, tf, 2);
    let e_ev = fft_exact(ev, te, 2);
    let e_od = fft_exact(od, te, 2);
    lemma_quarter_butterfly(0, xs[2], xs[0]);
    lemma_quarter_butterfly(0, xs[3], xs[1]);
    assert(crate::dft::fft_fix(seq![xs[0]], tf, 4) == seq![xs[0]]);
    assert(crate::dft::fft_fix(seq![xs[2]], tf, 4) == seq![xs[2]]);
    assert(crate::dft::fft_fix(seq![xs[1]], tf, 4) == seq![xs[1]]);
    assert(crate::dft::fft_fix(seq![xs[3]], tf, 4) == seq![xs[3]]);
    assert(fft_exact(seq![xs[0]], te, 4) == seq![xs[0]]);
    assert(fft_exact(seq![xs[2]], te, 4) == seq![xs[2]]);
    assert(fft_exact(seq![xs[1]], te, 4) == seq![xs[1]]);
    assert(fft_exact(seq![xs[3]], te, 4) == seq![xs[3]]);
    assert(f_ev =~= e_ev);
    assert(f_od =~= e_od);
    // The top-level butterflies use entries zero and one.
    lemma_quarter_butterfly(0, e_od[0], e_ev[0]);
    lemma_quarter_butterfly(1, e_od[1], e_ev[1]);
    assert(crate::dft::fft_fix(xs, tf, 1) =~= fft_exact(xs, te, 1));
}

} // verus!
