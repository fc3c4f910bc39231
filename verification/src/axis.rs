//! Display resampling: from pixel coordinates to a spectrogram value.
//!
//! A pixel column covers a span of sample time. Every analysis window that
//! meets that span contributes, weighted by the integral of the window over
//! the met part — the exact overlap-add weighting, with no numerical
//! integration, no double counting and no gaps. Within each contributing
//! spectrum, the value is interpolated linearly between the two bins
//! nearest the requested bin coordinate. The weighted mean of the
//! contributions is the pixel's raw value.
//!
//! The bin coordinate arrives as a fixed-point number at the coefficient
//! scale. Choosing it — the blend of logarithmic and linear frequency
//! mappings — involves transcendentals and belongs to the drawing layer,
//! as does the logarithmic compression of the returned raw value into a
//! display intensity.

use vstd::prelude::*;
use vstd::arithmetic::div_mod::{
    lemma_div_is_ordered, lemma_div_pos_is_pos, lemma_fundamental_div_mod,
};
use vstd::arithmetic::mul::{lemma_mul_inequality, lemma_mul_upper_bound, lemma_mul_nonnegative};
use crate::analyzer::Analyzer;
use crate::fixed::{COEF_ONE, rounded_div, lemma_div_of_multiple_plus_small};
use crate::window::{integral_between, lemma_integral_monotone, Window};
use crate::dft::int_seq;

verus! {

/// The sample-time span `[t_min, t_max)` of pixel column `x` out of
/// `width` columns, over a stream of `duration` samples.
pub fn pixel_time_range(x: u64, width: u64, duration: u64) -> (r: (u64, u64))
    requires
        x < width,
    ensures
        r.0 as int == x as int * duration as int / width as int,
        r.1 as int == (x as int + 1) * duration as int / width as int,
        r.0 <= r.1 <= duration,
{
    proof {
        let xi = x as int;
        let d = duration as int;
        let w = width as int;
        lemma_mul_upper_bound(xi + 1, u64::MAX as int, d, u64::MAX as int);
        lemma_mul_nonnegative(xi, d);
        assert((xi + 1) * d == xi * d + d) by (nonlinear_arith);
        lemma_div_is_ordered(xi * d, (xi + 1) * d, w);
        lemma_mul_inequality(xi + 1, w, d);
        assert(w * d == d * w) by (nonlinear_arith);
        lemma_div_is_ordered((xi + 1) * d, d * w, w);
        lemma_div_of_multiple_plus_small(d, w, 0);
        lemma_div_pos_is_pos(xi * d, w);
    }
    let t_min = (((x as u128) * (duration as u128)) / (width as u128)) as u64;
    let t_max = ((((x as u128) + 1) * (duration as u128)) / (width as u128)) as u64;
    (t_min, t_max)
}

/// Window `i` covers sample times `[i*hop, i*hop + len)`; whether it meets
/// the half-open span `[t_min, t_max)`.
pub open spec fn window_meets(i: int, hop: int, len: int, t_min: int, t_max: int) -> bool {
    i * hop < t_max && t_min < i * hop + len
}

/// Below `first`, windows end too early to meet a span starting at `t_min`.
proof fn lemma_first_window(t_min: int, len: int, hop: int, first: int)
    requires
        hop >= 1,
        len >= 1,
        0 <= t_min,
        first == if t_min < len {
            0int
        } else {
            (t_min - len) / hop + 1
        },
    ensures
        forall|i: int| i >= 0 ==> ((#[trigger] (i * hop)) + len > t_min <==> i >= first),
{
    if t_min < len {
        assert forall|i: int| i >= 0 implies ((#[trigger] (i * hop)) + len > t_min <==> i >= first) by {
            lemma_mul_nonnegative(i, hop);
        }
    } else {
        let m = t_min - len;
        let q = m / hop;
        lemma_fundamental_div_mod(m, hop);
        assert(hop * q == q * hop) by (nonlinear_arith);
        assert forall|i: int| i >= 0 implies ((#[trigger] (i * hop)) + len > t_min <==> i >= first) by {
            if i >= q + 1 {
                lemma_mul_inequality(q + 1, i, hop);
                assert((q + 1) * hop == q * hop + hop) by (nonlinear_arith);
            } else {
                lemma_mul_inequality(i, q, hop);
            }
        }
    }
}

/// Above `last`, windows start too late to meet a span ending at `t_max`.
proof fn lemma_last_window(t_max: int, hop: int, last: int)
    requires
        hop >= 1,
        t_max >= 1,
        last == (t_max - 1) / hop,
    ensures
        forall|i: int| i >= 0 ==> ((#[trigger] (i * hop)) < t_max <==> i <= last),
{
    let q = (t_max - 1) / hop;
    lemma_fundamental_div_mod(t_max - 1, hop);
    assert(hop * q == q * hop) by (nonlinear_arith);
    assert forall|i: int| i >= 0 implies ((#[trigger] (i * hop)) < t_max <==> i <= last) by {
        if i <= q {
            lemma_mul_inequality(i, q, hop);
        } else {
            lemma_mul_inequality(q + 1, i, hop);
            assert((q + 1) * hop == q * hop + hop) by (nonlinear_arith);
        }
    }
}

/// The range of spectra whose windows meet the span `[t_min, t_max)`, among
/// the `count` that exist: `Some((a, b))` with `a <= b` exactly when some
/// window meets the span, and then a window meets it exactly when its index
/// lies in `[a, b]`.
pub fn overlapping_windows(t_min: u64, t_max: u64, len: usize, hop: usize, count: usize) -> (r:
    Option<(usize, usize)>)
    requires
        hop >= 1,
        len >= 1,
        t_min <= t_max,
    ensures
        match r {
            Some(p) => p.0 <= p.1 < count && forall|i: int|
                0 <= i < count ==> (window_meets(
                    i,
                    hop as int,
                    len as int,
                    t_min as int,
                    t_max as int,
                ) <==> p.0 <= i <= p.1),
            None => forall|i: int|
                0 <= i < count ==> !window_meets(
                    i,
                    hop as int,
                    len as int,
                    t_min as int,
                    t_max as int,
                ),
        },
{
    if count == 0 {
        return None;
    }
    if t_max == 0 {
        proof {
            assert forall|i: int|
                0 <= i < count implies !window_meets(
                i,
                hop as int,
                len as int,
                t_min as int,
                t_max as int,
            ) by {
                lemma_mul_nonnegative(i, hop as int);
            }
        }
        return None;
    }
    let first: u64 = if t_min < len as u64 {
        0
    } else {
        (t_min - len as u64) / (hop as u64) + 1
    };
    let last_raw: u64 = (t_max - 1) / (hop as u64);
    proof {
        lemma_first_window(t_min as int, len as int, hop as int, first as int);
        lemma_last_window(t_max as int, hop as int, last_raw as int);
    }
    if first > last_raw {
        return None;
    }
    if first >= count as u64 {
        return None;
    }
    let last: usize = if last_raw < count as u64 - 1 {
        last_raw as usize
    } else {
        count - 1
    };
    Some((first as usize, last))
}

/// The met part of window `i`'s domain, as offsets into the window: where
/// the span `[t_min, t_max)` enters ...
pub open spec fn overlap_lo(wstart: int, t_min: int) -> int {
    if t_min > wstart {
        t_min - wstart
    } else {
        0
    }
}

/// ... and where it leaves.
pub open spec fn overlap_hi(wstart: int, len: int, t_max: int) -> int {
    if t_max < wstart + len {
        t_max - wstart
    } else {
        len
    }
}

/// The weight of window `i`'s contribution to the span `[t_min, t_max)`:
/// the integral of the window over the met part of its domain.
pub fn overlap_weight(w: &Window, i: usize, hop: usize, t_min: u64, t_max: u64) -> (r: i64)
    requires
        w.wf(),
        hop >= 1,
        t_min <= t_max,
        window_meets(i as int, hop as int, w.spec_len() as int, t_min as int, t_max as int),
        i * hop <= u64::MAX as int,
    ensures
        r as int == integral_between(
            int_seq(w.integral@),
            overlap_lo(i as int * hop as int, t_min as int),
            overlap_hi(i as int * hop as int, w.spec_len() as int, t_max as int),
        ),
        0 <= r <= COEF_ONE,
{
    proof {
        lemma_mul_nonnegative(i as int, hop as int);
    }
    let wstart: u64 = (i as u64) * (hop as u64);
    let len = w.len();
    let lo64: u64 = if t_min > wstart {
        t_min - wstart
    } else {
        0
    };
    let d: u64 = t_max - wstart;
    let hi64: u64 = if d < len as u64 {
        d
    } else {
        len as u64
    };
    w.span_integral(lo64 as usize, hi64 as usize)
}

/// Linear interpolation between the two bins of `s` nearest the fixed-point
/// coordinate `pos` (at the coefficient scale): bin `pos/COEF_ONE` and the
/// next, both clamped to the last bin, mixed by the fractional part,
/// rounded half up.
pub open spec fn lerp_of(s: Seq<int>, pos: int) -> int {
    let j = pos / (COEF_ONE as int);
    let frac = pos % (COEF_ONE as int);
    let top = s.len() as int - 1;
    let j0 = if j < top {
        j
    } else {
        top
    };
    let j1 = if j + 1 < top {
        j + 1
    } else {
        top
    };
    rounded_div(frac * s[j1] + ((COEF_ONE as int) - frac) * s[j0], COEF_ONE as int)
}

/// A mix of values from `[0, m]` stays in `[0, m]`.
proof fn lemma_lerp_of_range(s: Seq<int>, pos: int, m: int)
    requires
        s.len() >= 1,
        0 <= pos,
        0 <= m,
        forall|t: int| 0 <= t < s.len() ==> 0 <= #[trigger] s[t] <= m,
    ensures
        0 <= lerp_of(s, pos) <= m,
{
    let c = COEF_ONE as int;
    let h = c / 2;
    let j = pos / c;
    let frac = pos % c;
    lemma_div_pos_is_pos(pos, c);
    let top = s.len() as int - 1;
    let j0 = if j < top {
        j
    } else {
        top
    };
    let j1 = if j + 1 < top {
        j + 1
    } else {
        top
    };
    let num = frac * s[j1] + (c - frac) * s[j0];
    assert(0 <= num <= c * m) by (nonlinear_arith)
        requires
            0 <= frac < c,
            0 <= s[j0] <= m,
            0 <= s[j1] <= m,
            num == frac * s[j1] + (c - frac) * s[j0],
            c == COEF_ONE as int,
    ;
    lemma_div_pos_is_pos(num + h, c);
    assert(m * c == c * m) by (nonlinear_arith);
    lemma_div_is_ordered(num + h, m * c + h, c);
    lemma_div_of_multiple_plus_small(m, c, h);
}

/// Interpolate between the two bins of `s` nearest `pos`.
pub fn lerp_bins(s: &Vec<i64>, pos: i64) -> (r: i64)
    requires
        s@.len() >= 1,
        0 <= pos,
        forall|t: int| 0 <= t < s@.len() ==> 0 <= #[trigger] s@[t],
    ensures
        r as int == lerp_of(int_seq(s@), pos as int),
        0 <= r,
{
    proof {
        assert forall|t: int| 0 <= t < s@.len() implies 0 <= #[trigger] int_seq(s@)[t]
            <= i64::MAX as int by {
            assert(int_seq(s@)[t] == s@[t] as int);
        }
        lemma_lerp_of_range(int_seq(s@), pos as int, i64::MAX as int);
    }
    let posu = pos as u64;
    let c = COEF_ONE as u64;
    let j64 = posu / c;
    let frac = (posu % c) as u128;
    let top = s.len() - 1;
    let j0: usize = if j64 < top as u64 {
        j64 as usize
    } else {
        top
    };
    let j1: usize = if j64 + 1 < top as u64 {
        (j64 + 1) as usize
    } else {
        top
    };
    let s0 = s[j0] as u128;
    let s1 = s[j1] as u128;
    let num: u128 = frac * s1 + ((c as u128) - frac) * s0;
    let r = (num + (c as u128) / 2) / (c as u128);
    proof {
        assert(int_seq(s@)[j0 as int] == s@[j0 as int] as int);
        assert(int_seq(s@)[j1 as int] == s@[j1 as int] as int);
    }
    r as i64
}

/// The models of the emitted spectra.
pub open spec fn spectra_models(spectra: Seq<Vec<i64>>) -> Seq<Seq<int>> {
    spectra.map_values(|v: Vec<i64>| int_seq(v@))
}

/// The accumulated (value, weight) over the first `m` windows: each window
/// that meets the span contributes its overlap integral as weight and its
/// weighted interpolated bin value, at the coefficient scale.
pub open spec fn pixel_sums(
    spectra: Seq<Seq<int>>,
    integral: Seq<int>,
    len: int,
    hop: int,
    t_min: int,
    t_max: int,
    pos: int,
    m: nat,
) -> (int, int)
    decreases m,
{
    if m == 0 {
        (0, 0)
    } else {
        let p = pixel_sums(spectra, integral, len, hop, t_min, t_max, pos, (m - 1) as nat);
        let i = m - 1;
        if window_meets(i, hop, len, t_min, t_max) {
            let w = integral_between(
                integral,
                overlap_lo(i * hop, t_min),
                overlap_hi(i * hop, len, t_max),
            );
            (p.0 + w * lerp_of(spectra[i], pos), p.1 + w)
        } else {
            p
        }
    }
}

/// One contribution is nonnegative and at most the weight times the bound
/// on the interpolated values.
proof fn lemma_contribution_bounds(w: int, l: int, m: int)
    requires
        0 <= w,
        0 <= l <= m,
    ensures
        0 <= w * l <= w * m,
{
    lemma_mul_nonnegative(w, l);
    lemma_mul_inequality(l, m, w);
    assert(l * w == w * l && m * w == w * m) by (nonlinear_arith);
}

/// Windows in `[m1, m2)` that miss the span leave the sums unchanged.
proof fn lemma_pixel_sums_const(
    spectra: Seq<Seq<int>>,
    integral: Seq<int>,
    len: int,
    hop: int,
    t_min: int,
    t_max: int,
    pos: int,
    m1: nat,
    m2: nat,
)
    requires
        m1 <= m2,
        forall|i: int| m1 <= i < m2 ==> !window_meets(i, hop, len, t_min, t_max),
    ensures
        pixel_sums(spectra, integral, len, hop, t_min, t_max, pos, m2) == pixel_sums(
            spectra,
            integral,
            len,
            hop,
            t_min,
            t_max,
            pos,
            m1,
        ),
    decreases m2,
{
    if m1 < m2 {
        lemma_pixel_sums_const(spectra, integral, len, hop, t_min, t_max, pos, m1, (m2 - 1) as nat);
    }
}

impl Analyzer {
    /// The raw value the axis mapping assigns to pixel column `x` of
    /// `width` and bin coordinate `pos`, over a stream of `duration`
    /// samples: the weighted mean over the windows meeting the pixel's
    /// time span, zero where none carries weight.
    pub open spec fn spec_intensity(&self, x: int, width: int, duration: int, pos: int) -> int {
        let t_min = x * duration / width;
        let t_max = (x + 1) * duration / width;
        let p = pixel_sums(
            spectra_models(self.spectra@),
            int_seq(self.window.integral@),
            self.spec_len() as int,
            self.hop as int,
            t_min,
            t_max,
            pos,
            self.spectra@.len(),
        );
        if p.1 == 0 {
            0
        } else {
            p.0 / p.1
        }
    }

    /// Sample the spectrogram for one output pixel. Pure: the result is a
    /// function of the spectrogram and the four coordinates alone.
    #[verifier::loop_isolation(false)]
    #[verifier::rlimit(100)]
    pub fn sample_intensity(&self, x: u64, width: u64, duration: u64, pos: i64) -> (r: i64)
        requires
            self.wf(),
            x < width,
            0 <= pos,
            self.spectra@.len() <= 0x1_0000_0000,
        ensures
            r as int == self.spec_intensity(x as int, width as int, duration as int, pos as int),
            r >= 0,
    {
        let ghost models = spectra_models(self.spectra@);
        let ghost integral = int_seq(self.window.integral@);
        let ghost leni = self.spec_len() as int;
        let ghost hopi = self.hop as int;
        let ghost posi = pos as int;
        let ghost m_bound = i64::MAX as int;
        proof {
            assert forall|i: int|
                0 <= i < models.len() implies (#[trigger] models[i]).len() >= 1 && forall|t: int|
                0 <= t < models[i].len() ==> 0 <= #[trigger] models[i][t] by {
                assert(models[i] == int_seq((self.spectra@[i])@));
                assert(int_seq((self.spectra@[i])@) == spectrum_of_window(self, i));
                let seg = self.fed@.subrange(
                    i * (self.hop as int),
                    i * (self.hop as int) + self.spec_len() as int,
                );
                crate::dft::lemma_spectrum_of_nonneg(
                    seg,
                    int_seq(self.window.weights@),
                    crate::dft::cpx_seq(self.twiddles@),
                );
            }
        }
        let (t_min, t_max) = pixel_time_range(x, width, duration);
        let ghost tmin_i = t_min as int;
        let ghost tmax_i = t_max as int;
        let count = self.spectra.len();
        let range = overlapping_windows(t_min, t_max, self.window.len(), self.hop, count);
        match range {
            None => {
                proof {
                    lemma_pixel_sums_const(
                        models,
                        integral,
                        leni,
                        hopi,
                        tmin_i,
                        tmax_i,
                        posi,
                        0,
                        count as nat,
                    );
                }
                0
            },
            Some((a, b)) => {
                proof {
                    lemma_pixel_sums_const(
                        models,
                        integral,
                        leni,
                        hopi,
                        tmin_i,
                        tmax_i,
                        posi,
                        0,
                        a as nat,
                    );
                }
                let mut acc_v: u128 = 0;
                let mut acc_w: u128 = 0;
                let mut i: usize = a;
                while i <= b
                    invariant
                        a <= i <= b + 1,
                        acc_v as int == pixel_sums(
                            models,
                            integral,
                            leni,
                            hopi,
                            tmin_i,
                            tmax_i,
                            posi,
                            i as nat,
                        ).0,
                        acc_w as int == pixel_sums(
                            models,
                            integral,
                            leni,
                            hopi,
                            tmin_i,
                            tmax_i,
                            posi,
                            i as nat,
                        ).1,
                        acc_w as int <= i as int * (COEF_ONE as int),
                        acc_v as int <= acc_w as int * m_bound,
                    decreases b + 1 - i,
                {
                    proof {
                        assert(window_meets(i as int, hopi, leni, tmin_i, tmax_i));
                        lemma_mul_nonnegative(i as int, hopi);
                    }
                    let w = overlap_weight(&self.window, i, self.hop, t_min, t_max);
                    let spectrum = &self.spectra[i];
                    proof {
                        assert(int_seq(spectrum@) == models[i as int]);
                        assert forall|t: int| 0 <= t < spectrum@.len() implies 0
                            <= #[trigger] spectrum@[t] by {
                            assert(int_seq(spectrum@)[t] == spectrum@[t] as int);
                            assert(0 <= models[i as int][t]);
                        }
                    }
                    let l = lerp_bins(spectrum, pos);
                    proof {
                        lemma_contribution_bounds(w as int, l as int, m_bound);
                        lemma_mul_upper_bound(w as int, COEF_ONE as int, l as int, i64::MAX as int);
                        lemma_mul_inequality(i as int, 0x1_0000_0000, COEF_ONE as int);
                        lemma_mul_inequality(acc_w as int, 0x40000000_00000000, m_bound);
                    }
                    let part: u128 = (w as u128) * (l as u128);
                    proof {
                        assert(part as int == w as int * l as int);
                        assert((i as int + 1) * (COEF_ONE as int) == i as int * (COEF_ONE as int)
                            + COEF_ONE as int) by (nonlinear_arith);
                        assert((acc_w as int + w as int) * m_bound == acc_w as int * m_bound
                            + w as int * m_bound) by (nonlinear_arith);
                    }
                    acc_v = acc_v + part;
                    acc_w = acc_w + (w as u128);
                    i = i + 1;
                }
                proof {
                    lemma_pixel_sums_const(
                        models,
                        integral,
                        leni,
                        hopi,
                        tmin_i,
                        tmax_i,
                        posi,
                        (b + 1) as nat,
                        count as nat,
                    );
                }
                if acc_w == 0 {
                    0
                } else {
                    let r = acc_v / acc_w;
                    proof {
                        let p = pixel_sums(
                            models,
                            integral,
                            leni,
                            hopi,
                            tmin_i,
                            tmax_i,
                            posi,
                            count as nat,
                        );
                        lemma_div_pos_is_pos(p.0, p.1);
                        assert(p.1 * m_bound == m_bound * p.1) by (nonlinear_arith);
                        lemma_div_is_ordered(p.0, m_bound * p.1, p.1);
                        lemma_div_of_multiple_plus_small(m_bound, p.1, 0);
                    }
                    r as i64
                }
            },
        }
    }
}

/// What spectrum `i`'s model must equal under the analyzer's validity.
pub open spec fn spectrum_of_window(a: &Analyzer, i: int) -> Seq<int> {
    crate::dft::spectrum_of(
        a.fed@.subrange(i * (a.hop as int), i * (a.hop as int) + a.spec_len() as int),
        int_seq(a.window.weights@),
        crate::dft::cpx_seq(a.twiddles@),
    )
}

/// Law: resampling is idempotent. The pixel value is a pure function of
/// the spectrogram contents and the pixel coordinates: two queries with
/// equal coordinates against an unchanged spectrogram give identical
/// values, bit for bit.
pub proof fn lemma_sample_intensity_deterministic(
    a: &Analyzer,
    x: int,
    width: int,
    duration: int,
    pos: int,
    r1: int,
    r2: int,
)
    requires
        r1 == a.spec_intensity(x, width, duration, pos),
        r2 == a.spec_intensity(x, width, duration, pos),
    ensures
        r1 == r2,
{
}

} // verus!
