//! The discrete Fourier transform, radix-2 decimation in time.
//!
//! `fft_fix` is the functional model: a clean recursive definition of what
//! the transform computes in fixed-point arithmetic, given a table of
//! twiddle factors. `cooley_tukey` is the implementation: in place over one
//! span of a vector, reusing a single caller-provided scratch buffer across
//! all recursion levels. Its contract says the span afterwards holds exactly
//! `fft_fix` of what it held before.
//!
//! The twiddle table holds one entry per input index: entry `j` stands for
//! `exp(-2*pi*i*j/n)` at the coefficient scale, which the table's producer
//! chooses; the contracts here only need every entry to fit in one
//! coefficient unit. A sub-transform of length `m` uses every `(n/m)`-th
//! entry, which the `stride` argument tracks.

use vstd::prelude::*;
use vstd::pervasive::VecAdditionalExecFns;
use crate::complex::{Complex, Cpx, c_mul_add, c_neg, c_bounded, lemma_mul_add_growth};
use crate::fixed::{
    COEF_ONE, SAMPLE_ONE, SAMPLE_HALF, coef_mul, mul_coef, sq_norm_scaled, sample_scale_down,
    lemma_coef_mul_bound, lemma_sq_fits,
};
use vstd::arithmetic::mul::lemma_mul_upper_bound;

verus! {

/// A positive power of two.
pub open spec fn is_pow2(n: nat) -> bool
    decreases n,
{
    if n == 0 {
        false
    } else if n == 1 {
        true
    } else {
        n % 2 == 0 && is_pow2(n / 2)
    }
}

/// The models of a sequence of complex values.
pub open spec fn cpx_seq(s: Seq<Complex>) -> Seq<Cpx> {
    s.map_values(|c: Complex| c@)
}

/// The mathematical values of a sequence of fixed-point scalars.
pub open spec fn int_seq(s: Seq<i64>) -> Seq<int> {
    s.map_values(|v: i64| v as int)
}

/// The elements at even positions.
pub open spec fn evens(xs: Seq<Cpx>) -> Seq<Cpx> {
    Seq::new(xs.len() / 2, |i: int| xs[2 * i])
}

/// The elements at odd positions.
pub open spec fn odds(xs: Seq<Cpx>) -> Seq<Cpx> {
    Seq::new(xs.len() / 2, |i: int| xs[2 * i + 1])
}

/// Every element within `b` componentwise.
pub open spec fn all_bounded(s: Seq<Cpx>, b: int) -> bool {
    forall|i: int| 0 <= i < s.len() ==> c_bounded(#[trigger] s[i], b)
}

/// Every twiddle factor within one coefficient unit componentwise.
pub open spec fn twiddles_bounded(tw: Seq<Cpx>) -> bool {
    all_bounded(tw, COEF_ONE as int)
}

/// The functional model of the radix-2 decimation-in-time transform in
/// fixed-point arithmetic. A sequence shorter than two elements (or one of
/// odd length, which no caller produces) is returned unchanged. Otherwise
/// the even- and odd-position elements are transformed recursively and
/// combined: entry `i` of the result is `tw[i*stride] * odd[i] + even[i]`,
/// and entry `i + len/2` is `tw[i*stride] * (-odd[i]) + even[i]`, with the
/// products rounded exactly as `c_mul_add` states.
pub open spec fn fft_fix(xs: Seq<Cpx>, tw: Seq<Cpx>, stride: nat) -> Seq<Cpx>
    decreases xs.len(),
{
    if xs.len() < 2 || xs.len() % 2 != 0 {
        xs
    } else {
        let h = xs.len() as int / 2;
        let e = fft_fix(evens(xs), tw, stride * 2);
        let o = fft_fix(odds(xs), tw, stride * 2);
        Seq::new(
            xs.len(),
            |i: int|
                if i < h {
                    c_mul_add(tw[i * stride], o[i], e[i])
                } else {
                    c_mul_add(tw[(i - h) * stride], c_neg(o[i - h]), e[i - h])
                },
        )
    }
}

/// Worst-case componentwise growth of the transform: each combine level can
/// at most triple the bound (one bounded coefficient product per odd
/// component, plus the even term).
pub open spec fn fft_bound(n: nat, b: int) -> int
    decreases n,
{
    if n < 2 {
        b
    } else {
        3 * fft_bound(n / 2, b)
    }
}

/// The growth bound never drops below the input bound.
pub proof fn lemma_fft_bound_nonneg(n: nat, b: int)
    requires
        0 <= b,
    ensures
        b <= fft_bound(n, b),
    decreases n,
{
    if n >= 2 {
        lemma_fft_bound_nonneg(n / 2, b);
    }
}

/// The growth bound is monotone in the length.
pub proof fn lemma_fft_bound_monotone(n: nat, m: nat, b: int)
    requires
        0 <= b,
        n <= m,
    ensures
        fft_bound(n, b) <= fft_bound(m, b),
    decreases m,
{
    if n < 2 {
        lemma_fft_bound_nonneg(m, b);
    } else {
        lemma_fft_bound_monotone(n / 2, m / 2, b);
    }
}

/// Every window length up to 8192 satisfies both overflow conditions.
pub proof fn lemma_fft_fits_small(n: nat)
    requires
        1 <= n <= 8192,
    ensures
        fft_fits(n),
{
    let b = 2 * SAMPLE_ONE as int;
    lemma_fft_bound_monotone(n, 8192, b);
    lemma_fft_bound_nonneg(n, b);
    assert(fft_bound(8192, 2 * SAMPLE_ONE as int) <= 0x4000000000) by {
        reveal_with_fuel(fft_bound, 15);
    }
    let f = fft_bound(n, b);
    assert(2 * (f * f) + SAMPLE_HALF as int <= i64::MAX as int * SAMPLE_ONE as int)
        by (nonlinear_arith)
        requires
            0 <= f <= 0x4000000000,
    ;
}

/// Reorder the span `[lo, hi)` of `xs` so that the elements formerly at
/// even positions occupy its first half, in order, and the elements
/// formerly at odd positions occupy its second half, in order. The odd
/// elements pass through the scratch buffer `tmp`, whose contents are
/// otherwise irrelevant.
fn decimate(xs: &mut Vec<Complex>, lo: usize, hi: usize, tmp: &mut Vec<Complex>)
    requires
        lo <= hi <= old(xs).len(),
        (hi - lo) % 2 == 0,
        old(tmp).len() >= (hi - lo) / 2,
    ensures
        final(xs).len() == old(xs).len(),
        final(tmp).len() == old(tmp).len(),
        forall|j: int|
            lo <= j < lo + (hi - lo) / 2 ==> #[trigger] final(xs)@[j] == old(xs)@[lo + 2 * (j
                - lo)],
        forall|j: int|
            lo + (hi - lo) / 2 <= j < hi ==> #[trigger] final(xs)@[j] == old(xs)@[lo + 2 * (j - lo
                - (hi - lo) / 2) + 1],
        forall|j: int|
            0 <= j < lo || hi <= j < final(xs)@.len() ==> #[trigger] final(xs)@[j] == old(xs)@[j],
{
    let h = (hi - lo) / 2;
    assert(2 * h == hi - lo);
    let mut i: usize = 0;
    while i < h
        invariant
            lo <= hi <= xs.len(),
            h == (hi - lo) / 2,
            2 * h == hi - lo,
            xs.len() == old(xs).len(),
            tmp.len() == old(tmp).len(),
            tmp.len() >= h,
            i <= h,
            forall|j: int|
                lo <= j < lo + i ==> #[trigger] xs@[j] == old(xs)@[lo + 2 * (j - lo)],
            forall|j: int| 0 <= j < i ==> #[trigger] tmp@[j] == old(xs)@[lo + 2 * j + 1],
            forall|j: int|
                0 <= j < lo || lo + i <= j < xs@.len() ==> #[trigger] xs@[j] == old(xs)@[j],
        decreases h - i,
    {
        let v_odd = xs[lo + 2 * i + 1];
        let v_even = xs[lo + 2 * i];
        tmp.set(i, v_odd);
        xs.set(lo + i, v_even);
        i = i + 1;
    }
    let mut k: usize = 0;
    while k < h
        invariant
            lo <= hi <= xs.len(),
            h == (hi - lo) / 2,
            2 * h == hi - lo,
            xs.len() == old(xs).len(),
            tmp.len() == old(tmp).len(),
            tmp.len() >= h,
            k <= h,
            forall|j: int|
                lo <= j < lo + h ==> #[trigger] xs@[j] == old(xs)@[lo + 2 * (j - lo)],
            forall|j: int| 0 <= j < h ==> #[trigger] tmp@[j] == old(xs)@[lo + 2 * j + 1],
            forall|j: int|
                lo + h <= j < lo + h + k ==> #[trigger] xs@[j] == old(xs)@[lo + 2 * (j - lo - h)
                    + 1],
            forall|j: int|
                0 <= j < lo || lo + h + k <= j < xs@.len() ==> #[trigger] xs@[j] == old(xs)@[j],
        decreases h - k,
    {
        let v = tmp[k];
        xs.set(lo + h + k, v);
        k = k + 1;
    }
}


/// In-place radix-2 transform of the span `[lo, hi)` of `xs`, which holds
/// exactly `fft_fix` of the span's previous contents afterwards. The rest
/// of `xs` is untouched. `tmp` is scratch space shared by every recursion
/// level; only its length survives. `bound` is a componentwise bound on the
/// span's contents, from which freedom from overflow is established.
#[verifier::loop_isolation(false)]
#[verifier::rlimit(100)]
pub fn cooley_tukey(
    xs: &mut Vec<Complex>,
    lo: usize,
    hi: usize,
    tmp: &mut Vec<Complex>,
    tw: &Vec<Complex>,
    stride: usize,
    bound: Ghost<int>,
)
    requires
        lo <= hi <= old(xs).len(),
        is_pow2((hi - lo) as nat),
        old(tmp).len() >= (hi - lo) / 2,
        stride >= 1,
        (hi - lo) * stride == tw.len(),
        twiddles_bounded(cpx_seq(tw@)),
        0 <= bound@,
        all_bounded(cpx_seq(old(xs)@.subrange(lo as int, hi as int)), bound@),
        2 * fft_bound((hi - lo) as nat, bound@) <= i64::MAX as int,
    ensures
        final(xs).len() == old(xs).len(),
        final(tmp).len() == old(tmp).len(),
        cpx_seq(final(xs)@.subrange(lo as int, hi as int)) == fft_fix(
            cpx_seq(old(xs)@.subrange(lo as int, hi as int)),
            cpx_seq(tw@),
            stride as nat,
        ),
        all_bounded(
            cpx_seq(final(xs)@.subrange(lo as int, hi as int)),
            fft_bound((hi - lo) as nat, bound@),
        ),
        forall|j: int|
            0 <= j < lo || hi <= j < final(xs)@.len() ==> #[trigger] final(xs)@[j] == old(xs)@[j],
    decreases hi - lo,
{
    let n = hi - lo;
    if n < 2 {
        return;
    }
    let h = n / 2;
    proof {
        assert(n % 2 == 0 && is_pow2((n / 2) as nat));
        assert(2 * h == n);
    }
    let ghost pre = xs@;
    let ghost tws = cpx_seq(tw@);
    let ghost seg0 = cpx_seq(pre.subrange(lo as int, hi as int));
    decimate(xs, lo, hi, tmp);
    proof {
        assert(seg0.len() == n);
        assert forall|j: int|
            0 <= j < h implies cpx_seq(xs@.subrange(lo as int, (lo + h) as int))[j] == evens(
            seg0,
        )[j] by {
            assert(xs@[lo + j] == pre[lo + 2 * j]);
            assert(evens(seg0)[j] == seg0[2 * j]);
        }
        assert(cpx_seq(xs@.subrange(lo as int, (lo + h) as int)) =~= evens(seg0));
        assert forall|j: int|
            0 <= j < h implies cpx_seq(xs@.subrange((lo + h) as int, hi as int))[j] == odds(
            seg0,
        )[j] by {
            assert(xs@[lo + h + j] == pre[lo + 2 * j + 1]);
            assert(odds(seg0)[j] == seg0[2 * j + 1]);
        }
        assert(cpx_seq(xs@.subrange((lo + h) as int, hi as int)) =~= odds(seg0));
        assert forall|i: int| 0 <= i < h implies c_bounded(#[trigger] evens(seg0)[i], bound@) by {
            assert(evens(seg0)[i] == seg0[2 * i]);
        }
        assert forall|i: int| 0 <= i < h implies c_bounded(#[trigger] odds(seg0)[i], bound@) by {
            assert(odds(seg0)[i] == seg0[2 * i + 1]);
        }
        assert(h * (stride * 2) == tw.len() && stride * 2 <= tw.len()) by (nonlinear_arith)
            requires
                n * stride == tw.len(),
                2 * h == n,
                stride >= 1,
                h >= 1,
        ;
        assert(fft_bound(n as nat, bound@) == 3 * fft_bound((n / 2) as nat, bound@));
        lemma_fft_bound_nonneg(h as nat, bound@);
    }
    let stride2 = stride * 2;
    let ghost xs_dec = xs@;
    cooley_tukey(xs, lo, lo + h, tmp, tw, stride2, bound);
    let ghost xs_r1 = xs@;
    proof {
        assert(xs@.subrange((lo + h) as int, hi as int) =~= xs_dec.subrange(
            (lo + h) as int,
            hi as int,
        ));
    }
    cooley_tukey(xs, lo + h, hi, tmp, tw, stride2, bound);
    let ghost e = fft_fix(evens(seg0), tws, (stride2 as nat));
    let ghost o = fft_fix(odds(seg0), tws, (stride2 as nat));
    let ghost bh = fft_bound(h as nat, bound@);
    proof {
        assert(xs@.subrange(lo as int, (lo + h) as int) =~= xs_r1.subrange(
            lo as int,
            (lo + h) as int,
        ));
        assert(cpx_seq(xs@.subrange(lo as int, (lo + h) as int)) == e);
        assert(cpx_seq(xs@.subrange((lo + h) as int, hi as int)) == o);
        assert(e.len() == h && o.len() == h);
        assert(all_bounded(e, bh) && all_bounded(o, bh));
        assert forall|j: int| lo <= j < lo + h implies (#[trigger] xs@[j])@ == e[j - lo] by {
            assert(cpx_seq(xs@.subrange(lo as int, (lo + h) as int))[j - lo] == e[j - lo]);
        }
        assert forall|j: int| lo + h <= j < hi implies (#[trigger] xs@[j])@ == o[j - lo - h] by {
            assert(cpx_seq(xs@.subrange((lo + h) as int, hi as int))[j - lo - h] == o[j - lo - h]);
        }
    }
    let mut i: usize = 0;
    while i < h
        invariant
            i <= h,
            xs.len() == pre.len(),
            forall|j: int|
                lo <= j < lo + i ==> (#[trigger] xs@[j])@ == c_mul_add(
                    tws[(j - lo) * stride],
                    o[j - lo],
                    e[j - lo],
                ) && c_bounded((xs@[j])@, 3 * bh),
            forall|j: int|
                lo + h <= j < lo + h + i ==> (#[trigger] xs@[j])@ == c_mul_add(
                    tws[(j - lo - h) * stride],
                    c_neg(o[j - lo - h]),
                    e[j - lo - h],
                ) && c_bounded((xs@[j])@, 3 * bh),
            forall|j: int| lo + i <= j < lo + h ==> (#[trigger] xs@[j])@ == e[j - lo],
            forall|j: int| lo + h + i <= j < hi ==> (#[trigger] xs@[j])@ == o[j - lo - h],
            forall|j: int|
                0 <= j < lo || hi <= j < xs@.len() ==> #[trigger] xs@[j] == pre[j],
        decreases h - i,
    {
        proof {
            assert(i * stride < tw.len() && (i * stride) * 1 <= tw.len()) by (nonlinear_arith)
                requires
                    n * stride == tw.len(),
                    2 * h == n,
                    stride >= 1,
                    0 <= i < h,
            ;
            assert(c_bounded(tws[i as int * stride as int], COEF_ONE as int));
        }
        let cexp = tw[i * stride];
        let even = xs[lo + i];
        let odd = xs[lo + h + i];
        proof {
            assert(even@ == e[i as int] && odd@ == o[i as int]);
            assert(c_bounded(even@, bh) && c_bounded(odd@, bh));
        }
        let out1 = cexp.mul_add(odd, even);
        let odd_neg = odd.neg();
        let out2 = cexp.mul_add(odd_neg, even);
        proof {
            lemma_mul_add_growth(cexp@, odd@, even@, bh);
            lemma_mul_add_growth(cexp@, odd_neg@, even@, bh);
        }
        xs.set(lo + i, out1);
        xs.set(lo + h + i, out2);
        i = i + 1;
    }
    proof {
        let res = fft_fix(seg0, tws, stride as nat);
        assert((stride2 as nat) == (stride as nat) * 2);
        assert(res == Seq::new(
            seg0.len(),
            |i: int|
                if i < h {
                    c_mul_add(tws[i * (stride as int)], o[i], e[i])
                } else {
                    c_mul_add(tws[(i - h) * (stride as int)], c_neg(o[i - h]), e[i - h])
                },
        ));
        assert forall|i: int|
            0 <= i < n implies cpx_seq(xs@.subrange(lo as int, hi as int))[i] == res[i] by {
            if i < h {
                assert((xs@[lo + i])@ == c_mul_add(tws[i * stride], o[i], e[i]));
            } else {
                assert((xs@[lo + i])@ == c_mul_add(
                    tws[(i - h) * stride],
                    c_neg(o[i - h]),
                    e[i - h],
                ));
            }
        }
        assert(cpx_seq(xs@.subrange(lo as int, hi as int)) =~= res);
        assert forall|i: int|
            0 <= i < n implies c_bounded(
            #[trigger] cpx_seq(xs@.subrange(lo as int, hi as int))[i],
            fft_bound(n as nat, bound@),
        ) by {
            assert(cpx_seq(xs@.subrange(lo as int, hi as int))[i] == (xs@[lo + i])@);
        }
    }
}


/// Squared norm of a model value, scaled back down to the sample unit.
pub open spec fn sq_of(c: Cpx) -> int {
    sample_scale_down(c.re * c.re + c.im * c.im)
}

/// A squared norm is never negative.
pub proof fn lemma_sq_of_nonneg(c: Cpx)
    ensures
        sq_of(c) >= 0,
{
    assert(0 <= c.re * c.re + c.im * c.im) by (nonlinear_arith);
    vstd::arithmetic::div_mod::lemma_div_pos_is_pos(
        c.re * c.re + c.im * c.im + SAMPLE_ONE as int / 2,
        SAMPLE_ONE as int,
    );
}

/// Every entry of a spectrum is nonnegative, and a spectrum has one entry
/// per retained bin.
pub proof fn lemma_spectrum_of_nonneg(xs: Seq<int>, w: Seq<int>, tw: Seq<Cpx>)
    ensures
        spectrum_of(xs, w, tw).len() == xs.len() / 2 + 1,
        forall|k: int|
            0 <= k < spectrum_of(xs, w, tw).len() ==> 0 <= #[trigger] spectrum_of(xs, w, tw)[k],
{
    let windowed = Seq::new(xs.len(), |i: int| Cpx { re: coef_mul(w[i], xs[i]), im: 0 });
    let f = fft_fix(windowed, tw, 1);
    assert forall|k: int|
        0 <= k < spectrum_of(xs, w, tw).len() implies 0 <= #[trigger] spectrum_of(xs, w, tw)[k] by {
        lemma_sq_of_nonneg(f[k]);
    }
}

/// Samples within one sample unit, the form of normalized audio.
pub open spec fn samples_bounded(s: Seq<int>) -> bool {
    forall|i: int| 0 <= i < s.len() ==> -(SAMPLE_ONE as int) <= #[trigger] s[i] <= SAMPLE_ONE as int
}

/// Window weights within zero and two coefficient units.
pub open spec fn weights_bounded(w: Seq<int>) -> bool {
    forall|i: int| 0 <= i < w.len() ==> 0 <= #[trigger] w[i] <= 2 * COEF_ONE as int
}

/// The model of one spectrum: weight each sample by the window, transform,
/// and keep the squared norms of the lower half of the bins plus the
/// Nyquist bin, `len/2 + 1` values in all.
pub open spec fn spectrum_of(xs: Seq<int>, w: Seq<int>, tw: Seq<Cpx>) -> Seq<int> {
    let f = fft_fix(windowed_of(xs, w), tw, 1);
    Seq::new(xs.len() / 2 + 1, |k: int| sq_of(f[k]))
}

/// Both overflow conditions of the fast transform at window length `n`:
/// the worst-case growth bound must leave room for the butterfly sums and
/// for the squared norms. Holds for every power of two up to 8192.
pub open spec fn fft_fits(n: nat) -> bool {
    let f = fft_bound(n, 2 * SAMPLE_ONE as int);
    &&& 2 * f <= i64::MAX as int
    &&& 2 * (f * f) + SAMPLE_HALF as int <= i64::MAX as int * SAMPLE_ONE as int
}

/// The model of a windowed block: each sample scaled by its window weight,
/// as a complex value with zero imaginary part.
pub open spec fn windowed_of(xs: Seq<int>, w: Seq<int>) -> Seq<Cpx> {
    Seq::new(xs.len(), |i: int| Cpx { re: coef_mul(w[i], xs[i]), im: 0 })
}

/// The full complex transform of a windowed block: every bin, before any
/// magnitude reduction. The spectrum extraction keeps only the lower half
/// of these (plus the Nyquist bin); `lemma_real_input_symmetry` is what
/// justifies discarding the rest.
#[verifier::loop_isolation(false)]
pub fn dft_full(xs: &Vec<i64>, window: &Vec<i64>, tw: &Vec<Complex>) -> (r: Vec<Complex>)
    requires
        xs.len() >= 2,
        is_pow2(xs.len() as nat),
        window.len() == xs.len(),
        tw.len() == xs.len(),
        samples_bounded(int_seq(xs@)),
        weights_bounded(int_seq(window@)),
        twiddles_bounded(cpx_seq(tw@)),
        fft_fits(xs.len() as nat),
    ensures
        r.len() == xs.len(),
        cpx_seq(r@) == fft_fix(windowed_of(int_seq(xs@), int_seq(window@)), cpx_seq(tw@), 1),
        all_bounded(cpx_seq(r@), fft_bound(xs.len() as nat, 2 * SAMPLE_ONE as int)),
{
    let n = xs.len();
    let h = n / 2;
    let ghost b_in: int = 2 * SAMPLE_ONE as int;
    let ghost xsm = int_seq(xs@);
    let ghost wm = int_seq(window@);
    let ghost tws = cpx_seq(tw@);
    let ghost windowed = windowed_of(xsm, wm);

    let mut buf: Vec<Complex> = Vec::new();
    let mut i: usize = 0;
    while i < n
        invariant
            i <= n,
            buf.len() == i,
            forall|j: int|
                0 <= j < i ==> (#[trigger] buf@[j])@ == windowed[j] && c_bounded(
                    (buf@[j])@,
                    b_in,
                ),
        decreases n - i,
    {
        proof {
            lemma_coef_mul_bound(wm[i as int], xsm[i as int], 2);
        }
        let re = mul_coef(window[i], xs[i]);
        buf.push(Complex { re, im: 0 });
        i = i + 1;
    }
    let mut tmp: Vec<Complex> = Vec::new();
    let mut k0: usize = 0;
    while k0 < h
        invariant
            tmp.len() == k0,
            k0 <= h,
            buf.len() == n,
            forall|j: int|
                0 <= j < n ==> (#[trigger] buf@[j])@ == windowed[j] && c_bounded(
                    (buf@[j])@,
                    b_in,
                ),
        decreases h - k0,
    {
        tmp.push(Complex { re: 0, im: 0 });
        k0 = k0 + 1;
    }
    proof {
        assert(cpx_seq(buf@) =~= windowed);
        assert forall|j: int| 0 <= j < n implies c_bounded(#[trigger] cpx_seq(buf@)[j], b_in) by {
            assert(cpx_seq(buf@)[j] == (buf@[j])@);
        }
        assert(buf@.subrange(0, n as int) =~= buf@);
    }
    cooley_tukey(&mut buf, 0, n, &mut tmp, tw, 1, Ghost(b_in));
    proof {
        assert(buf@.subrange(0, n as int) =~= buf@);
    }
    buf
}

/// One spectrum of a block of samples: apply the window, run the in-place
/// transform with a freshly allocated scratch buffer, and return the
/// squared norms of the retained bins. The result is exactly `spectrum_of`
/// of the inputs' models.
#[verifier::loop_isolation(false)]
pub fn dft_fast(xs: &Vec<i64>, window: &Vec<i64>, tw: &Vec<Complex>) -> (r: Vec<i64>)
    requires
        xs.len() >= 2,
        is_pow2(xs.len() as nat),
        window.len() == xs.len(),
        tw.len() == xs.len(),
        samples_bounded(int_seq(xs@)),
        weights_bounded(int_seq(window@)),
        twiddles_bounded(cpx_seq(tw@)),
        fft_fits(xs.len() as nat),
    ensures
        r.len() == xs.len() / 2 + 1,
        int_seq(r@) == spectrum_of(int_seq(xs@), int_seq(window@), cpx_seq(tw@)),
{
    let n = xs.len();
    let h = n / 2;
    let ghost b_in: int = 2 * SAMPLE_ONE as int;
    let ghost xsm = int_seq(xs@);
    let ghost wm = int_seq(window@);
    let ghost tws = cpx_seq(tw@);
    let buf = dft_full(xs, window, tw);
    let ghost f = fft_fix(windowed_of(xsm, wm), tws, 1);
    let ghost fb = fft_bound(n as nat, b_in);
    let mut r: Vec<i64> = Vec::new();
    let mut k: usize = 0;
    while k < h + 1
        invariant
            k <= h + 1,
            r.len() == k,
            buf.len() == n,
            forall|j: int| 0 <= j < k ==> #[trigger] r@[j] as int == sq_of(f[j]),
        decreases h + 1 - k,
    {
        let c = buf[k];
        proof {
            assert(c@ == cpx_seq(buf@)[k as int]);
            assert(c_bounded(c@, fb));
            lemma_fft_bound_nonneg(n as nat, b_in);
            lemma_sq_fits(c.re as int, c.im as int, fb);
        }
        let v = sq_norm_scaled(c.re, c.im);
        r.push(v);
        k = k + 1;
    }
    proof {
        assert(int_seq(r@) =~= spectrum_of(xsm, wm, tws));
    }
    r
}

/// The direct evaluation of bin `k` over the first `m` samples/// The direct evaluation of bin `k` over the first `m` samples: the sum of
/// `tw[(j*k) mod len] * xs[j]`, each product rounded at the coefficient
/// scale, accumulated exactly.
pub open spec fn dft_point(xs: Seq<int>, tw: Seq<Cpx>, k: int, m: nat) -> Cpx
    decreases m,
{
    if m == 0 {
        Cpx { re: 0, im: 0 }
    } else {
        let p = dft_point(xs, tw, k, (m - 1) as nat);
        let t = tw[((m - 1) * k) % (tw.len() as int)];
        Cpx { re: p.re + coef_mul(t.re, xs[m - 1]), im: p.im + coef_mul(t.im, xs[m - 1]) }
    }
}

/// The naive spectrum: direct evaluation of every retained bin.
pub open spec fn naive_spectrum_of(xs: Seq<int>, tw: Seq<Cpx>) -> Seq<int> {
    Seq::new(xs.len() / 2 + 1, |k: int| sq_of(dft_point(xs, tw, k, xs.len())))
}

/// The partial sums of a bin grow by at most one sample unit per sample.
pub proof fn lemma_dft_point_bound(xs: Seq<int>, tw: Seq<Cpx>, k: int, m: nat)
    requires
        m <= xs.len(),
        samples_bounded(xs),
        twiddles_bounded(tw),
        tw.len() > 0,
    ensures
        c_bounded(dft_point(xs, tw, k, m), m * SAMPLE_ONE as int),
    decreases m,
{
    if m > 0 {
        lemma_dft_point_bound(xs, tw, k, (m - 1) as nat);
        let t = tw[((m - 1) * k) % (tw.len() as int)];
        assert(0 <= ((m - 1) * k) % (tw.len() as int) < tw.len());
        lemma_coef_mul_bound(t.re, xs[m - 1], 1);
        lemma_coef_mul_bound(t.im, xs[m - 1], 1);
        assert((m - 1) * SAMPLE_ONE as int + SAMPLE_ONE as int == m * SAMPLE_ONE as int)
            by (nonlinear_arith);
    }
}

/// The reference transform: evaluate every retained bin directly from the
/// definition, in quadratic time. The result is exactly
/// `naive_spectrum_of` of the inputs' models.
#[verifier::loop_isolation(false)]
pub fn dft_naive(xs: &Vec<i64>, tw: &Vec<Complex>) -> (r: Vec<i64>)
    requires
        xs.len() >= 2,
        xs.len() % 2 == 0,
        tw.len() == xs.len(),
        samples_bounded(int_seq(xs@)),
        twiddles_bounded(cpx_seq(tw@)),
        xs.len() * SAMPLE_ONE as int <= i64::MAX as int,
        2 * ((xs.len() * SAMPLE_ONE as int) * (xs.len() * SAMPLE_ONE as int))
            + SAMPLE_HALF as int <= i64::MAX as int * SAMPLE_ONE as int,
    ensures
        r.len() == xs.len() / 2 + 1,
        int_seq(r@) == naive_spectrum_of(int_seq(xs@), cpx_seq(tw@)),
{
    let n = xs.len();
    let h = n / 2;
    let ghost xsm = int_seq(xs@);
    let ghost tws = cpx_seq(tw@);
    let mut r: Vec<i64> = Vec::new();
    let mut k: usize = 0;
    while k < h + 1
        invariant
            k <= h + 1,
            r.len() == k,
            forall|j: int| 0 <= j < k ==> #[trigger] r@[j] as int == sq_of(
                dft_point(xsm, tws, j, n as nat),
            ),
        decreases h + 1 - k,
    {
        let mut acc_re: i64 = 0;
        let mut acc_im: i64 = 0;
        let mut i: usize = 0;
        while i < n
            invariant
                i <= n,
                k <= h,
                (Cpx { re: acc_re as int, im: acc_im as int }) == dft_point(
                    xsm,
                    tws,
                    k as int,
                    i as nat,
                ),
            decreases n - i,
        {
            proof {
                lemma_dft_point_bound(xsm, tws, k as int, i as nat);
                lemma_mul_upper_bound(i as int, u64::MAX as int, k as int, u64::MAX as int);
                vstd::arithmetic::mul::lemma_mul_nonnegative(i as int, k as int);
                lemma_dft_point_bound(xsm, tws, k as int, (i + 1) as nat);
                assert(i * SAMPLE_ONE as int <= n * SAMPLE_ONE as int) by (nonlinear_arith)
                    requires 0 <= i <= n;
            }
            let idx: usize = (((i as u128) * (k as u128)) % (n as u128)) as usize;
            let t = tw[idx];
            proof {
                assert(c_bounded(t@, COEF_ONE as int));
                lemma_coef_mul_bound(t.re as int, xsm[i as int], 1);
                lemma_coef_mul_bound(t.im as int, xsm[i as int], 1);
            }
            let term_re = mul_coef(t.re, xs[i]);
            let term_im = mul_coef(t.im, xs[i]);
            acc_re = acc_re + term_re;
            acc_im = acc_im + term_im;
            i = i + 1;
        }
        proof {
            lemma_dft_point_bound(xsm, tws, k as int, n as nat);
            lemma_sq_fits(acc_re as int, acc_im as int, n as int * SAMPLE_ONE as int);
        }
        let v = sq_norm_scaled(acc_re, acc_im);
        r.push(v);
        k = k + 1;
    }
    proof {
        assert(int_seq(r@) =~= naive_spectrum_of(xsm, tws));
    }
    r
}

} // verus!
