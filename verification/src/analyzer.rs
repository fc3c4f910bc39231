//! The windowed sample buffer manager and the spectrogram it grows.
//!
//! An `Analyzer` accumulates decoded samples, and as soon as a full window
//! of them is available it emits that window's spectrum and drops `hop`
//! leading samples — `hop` is smaller than the window length, so
//! consecutive windows overlap. The spectrogram is append-only: a spectrum,
//! once emitted, never changes, and spectrum `i` is always the spectrum of
//! the window starting at sample offset `i * hop` of everything ever fed.
//!
//! A stream rarely ends on a window boundary. `finish` pads the stream
//! with the least number of zero-valued samples that completes one final
//! window covering every real sample (at most `hop` zeros when at least
//! one spectrum was already emitted). An entirely empty stream is left
//! empty: no spectra are invented for it. Trailing audio is therefore
//! never silently dropped, but only once `finish` is called.

use vstd::prelude::*;
use vstd::arithmetic::div_mod::lemma_fundamental_div_mod_converse;
use crate::complex::{Complex, Cpx, c_bounded};
use crate::dft::{
    cpx_seq, int_seq, is_pow2, twiddles_bounded, samples_bounded, spectrum_of, dft_fast,
};
use crate::fixed::{COEF_ONE, SAMPLE_ONE};
use crate::window::Window;

verus! {

/// Why an analyzer configuration was rejected.
#[derive(Clone, Copy, PartialEq, Eq, Structural, Debug)]
pub enum AnalyzerError {
    /// The window length is not a power of two, or exceeds the largest
    /// length whose arithmetic is known overflow-free.
    LengthUnsupported,
    /// The twiddle table does not have one entry per window position, or
    /// an entry exceeds one coefficient unit.
    TwiddleTableBad,
    /// The hop is zero, or not smaller than the window length.
    HopOutOfRange,
}

/// The largest supported window length.
pub const MAX_WINDOW_LEN: usize = 8192;

/// Number of spectra owed once `total` samples have been fed, at window
/// length `len` and hop `hop`: none before the first full window, then one
/// per further `hop` samples.
pub open spec fn expected_count(total: int, len: int, hop: int) -> int {
    if total < len {
        0
    } else {
        (total - len) / hop + 1
    }
}

/// A count sandwiched by the emission loop's bounds is the expected count.
proof fn lemma_expected_count_exact(total: int, len: int, hop: int, c: int)
    requires
        0 < hop,
        0 < len,
        0 <= c,
        c * hop <= total,
        total - c * hop < len,
        c == 0 || (c - 1) * hop + len <= total,
    ensures
        c == expected_count(total, len, hop),
{
    if c == 0 {
    } else {
        assert((c - 1) * hop == c * hop - hop) by (nonlinear_arith);
        let r = total - len - (c - 1) * hop;
        assert(0 <= r < hop);
        lemma_fundamental_div_mod_converse(total - len, hop, c - 1, r);
    }
}

/// The configuration a valid analyzer needs: power-of-two window length in
/// the supported range, one bounded twiddle per window position, and a
/// positive hop shorter than the window.
pub open spec fn good_config(len: nat, tws: Seq<Cpx>, hop: nat) -> bool {
    &&& is_pow2(len)
    &&& len <= MAX_WINDOW_LEN
    &&& tws.len() == len
    &&& twiddles_bounded(tws)
    &&& 0 < hop < len
}

/// The windowed sample buffer manager and its growing spectrogram.
pub struct Analyzer {
    /// The analysis window.
    pub window: Window,
    /// The twiddle table for the window length.
    pub twiddles: Vec<Complex>,
    /// Samples advanced between consecutive windows.
    pub hop: usize,
    /// Samples fed but not yet consumed by a window's leading edge.
    pub samples: Vec<i64>,
    /// The spectra emitted so far, one per window, in window order.
    pub spectra: Vec<Vec<i64>>,
    /// Every sample ever fed, padding included: the stream's model.
    pub fed: Ghost<Seq<int>>,
}

impl Analyzer {
    /// The window length.
    pub open spec fn spec_len(&self) -> nat {
        self.window.spec_len()
    }

    /// The configuration part of validity.
    pub open spec fn config_wf(&self) -> bool {
        &&& self.window.wf()
        &&& good_config(self.spec_len(), cpx_seq(self.twiddles@), self.hop as nat)
    }

    /// Every emitted spectrum is the spectrum of its window of the stream:
    /// spectrum `i` covers samples `[i*hop, i*hop + len)` of `fed`.
    pub open spec fn spectra_ok(&self) -> bool {
        forall|i: int|
            0 <= i < self.spectra@.len() ==> int_seq((#[trigger] self.spectra@[i])@)
                == spectrum_of(
                self.fed@.subrange(
                    i * (self.hop as int),
                    i * (self.hop as int) + self.spec_len() as int,
                ),
                int_seq(self.window.weights@),
                cpx_seq(self.twiddles@),
            )
    }

    /// Validity between emissions: the buffer holds exactly the stream's
    /// tail past the emitted windows' hops, and every emitted spectrum is
    /// accounted for. The buffer may still hold a full window.
    pub open spec fn loose_wf(&self) -> bool {
        &&& self.config_wf()
        &&& samples_bounded(self.fed@)
        &&& (self.spectra@.len() as int) * (self.hop as int) <= self.fed@.len()
        &&& self.spectra@.len() == 0 || (self.spectra@.len() - 1) * (self.hop as int)
            + self.spec_len() <= self.fed@.len()
        &&& int_seq(self.samples@) == self.fed@.skip(
            (self.spectra@.len() as int) * (self.hop as int),
        )
        &&& self.spectra_ok()
    }

    /// Full validity, the state between public operations: additionally,
    /// fewer samples than one window remain, and exactly the owed number
    /// of spectra has been emitted.
    pub open spec fn wf(&self) -> bool {
        &&& self.loose_wf()
        &&& self.samples@.len() < self.spec_len()
        &&& self.spectra@.len() == expected_count(
            self.fed@.len() as int,
            self.spec_len() as int,
            self.hop as int,
        )
    }

    /// Check a configuration and build an empty analyzer from it. Returns
    /// the analyzer exactly when the configuration is good, and otherwise
    /// the first reason it is not, in the order of the `AnalyzerError`
    /// variants.
    #[verifier::loop_isolation(false)]
    pub fn new(window: Window, twiddles: Vec<Complex>, hop: usize) -> (r: Result<
        Analyzer,
        AnalyzerError,
    >)
        requires
            window.wf(),
        ensures
            r is Ok <==> good_config(window.spec_len(), cpx_seq(twiddles@), hop as nat),
            r matches Ok(a) ==> {
                &&& a.wf()
                &&& a.window == window
                &&& a.twiddles == twiddles
                &&& a.hop == hop
                &&& a.fed@.len() == 0
                &&& a.spectra@.len() == 0
            },
            r matches Err(e) ==> {
                &&& (e == AnalyzerError::LengthUnsupported <==> !(is_pow2(window.spec_len())
                    && window.spec_len() <= MAX_WINDOW_LEN))
                &&& e == AnalyzerError::TwiddleTableBad ==> !(twiddles@.len()
                    == window.spec_len() && twiddles_bounded(cpx_seq(twiddles@)))
                &&& e == AnalyzerError::HopOutOfRange ==> !(0 < hop < window.spec_len())
            },
    {
        let wl = window.len();
        if wl > MAX_WINDOW_LEN {
            return Err(AnalyzerError::LengthUnsupported);
        }
        let mut m: usize = wl;
        while m > 1
            invariant
                m >= 1,
                is_pow2(wl as nat) <==> is_pow2(m as nat),
            decreases m,
        {
            if m % 2 == 1 {
                return Err(AnalyzerError::LengthUnsupported);
            }
            m = m / 2;
        }
        if twiddles.len() != wl {
            return Err(AnalyzerError::TwiddleTableBad);
        }
        let mut i: usize = 0;
        while i < wl
            invariant
                i <= wl,
                twiddles@.len() == wl,
                forall|j: int|
                    0 <= j < i ==> c_bounded((#[trigger] twiddles@[j])@, COEF_ONE as int),
            decreases wl - i,
        {
            let t = twiddles[i];
            if t.re < -COEF_ONE || t.re > COEF_ONE || t.im < -COEF_ONE || t.im > COEF_ONE {
                proof {
                    assert(cpx_seq(twiddles@)[i as int] == (twiddles@[i as int])@);
                }
                return Err(AnalyzerError::TwiddleTableBad);
            }
            i = i + 1;
        }
        proof {
            assert forall|j: int|
                0 <= j < wl implies c_bounded(#[trigger] cpx_seq(twiddles@)[j], COEF_ONE as int) by {
                assert(cpx_seq(twiddles@)[j] == (twiddles@[j])@);
            }
        }
        if hop == 0 || hop >= wl {
            return Err(AnalyzerError::HopOutOfRange);
        }
        let a = Analyzer {
            window,
            twiddles,
            hop,
            samples: Vec::new(),
            spectra: Vec::new(),
            fed: Ghost(Seq::empty()),
        };
        proof {
            assert(int_seq(a.samples@) =~= a.fed@.skip(0));
        }
        Ok(a)
    }

    /// Emit a spectrum for every full window in the buffer, dropping `hop`
    /// samples after each, until fewer than one window remains.
    #[verifier::loop_isolation(false)]
    fn process_ready(&mut self)
        requires
            old(self).loose_wf(),
        ensures
            final(self).wf(),
            final(self).fed@ == old(self).fed@,
            final(self).window == old(self).window,
            final(self).twiddles == old(self).twiddles,
            final(self).hop == old(self).hop,
    {
        let wl = self.window.len();
        let ghost fed = self.fed@;
        let ghost hopi = self.hop as int;
        while self.samples.len() >= wl
            invariant
                self.loose_wf(),
                self.fed@ == fed,
                self.window == old(self).window,
                self.twiddles == old(self).twiddles,
                self.hop == old(self).hop,
                wl == self.spec_len(),
            decreases self.samples@.len(),
        {
            let ghost c = self.spectra@.len() as int;
            proof {
                assert(int_seq(self.samples@).len() == self.samples@.len());
                assert(c * hopi + wl as int <= fed.len());
            }
            // Copy the leading window out of the buffer.
            let mut block: Vec<i64> = Vec::new();
            let mut j: usize = 0;
            while j < wl
                invariant
                    j <= wl <= self.samples@.len(),
                    block@.len() == j,
                    forall|t: int| 0 <= t < j ==> #[trigger] block@[t] == self.samples@[t],
                decreases wl - j,
            {
                block.push(self.samples[j]);
                j = j + 1;
            }
            proof {
                assert forall|t: int|
                    0 <= t < wl implies int_seq(block@)[t] == fed.subrange(
                    c * hopi,
                    c * hopi + wl as int,
                )[t] by {
                    assert(block@[t] == self.samples@[t]);
                    assert(int_seq(self.samples@)[t] == fed.skip(c * hopi)[t]);
                    assert(fed.skip(c * hopi)[t] == fed[c * hopi + t]);
                }
                assert(int_seq(block@) =~= fed.subrange(c * hopi, c * hopi + wl as int));
                assert forall|t: int|
                    0 <= t < block@.len() implies -(SAMPLE_ONE as int) <= #[trigger] int_seq(
                    block@,
                )[t] <= SAMPLE_ONE as int by {
                    assert(int_seq(block@)[t] == fed[c * hopi + t]);
                }
                crate::dft::lemma_fft_fits_small(wl as nat);
            }
            let spectrum = dft_fast(&block, &self.window.weights, &self.twiddles);
            self.spectra.push(spectrum);
            // Advance by one hop: the next window overlaps this one.
            let ghost samples_pre = self.samples@;
            let tail = self.samples.split_off(self.hop);
            self.samples = tail;
            proof {
                assert((c + 1) * hopi == c * hopi + hopi) by (nonlinear_arith);
                assert(self.samples@ == samples_pre.subrange(
                    hopi,
                    samples_pre.len() as int,
                ));
                assert forall|t: int|
                    0 <= t < self.samples@.len() implies int_seq(self.samples@)[t] == fed.skip(
                    (c + 1) * hopi,
                )[t] by {
                    assert(self.samples@[t] == samples_pre[hopi + t]);
                    assert(int_seq(samples_pre)[hopi + t] == fed.skip(c * hopi)[hopi + t]);
                    assert(fed.skip(c * hopi)[hopi + t] == fed[c * hopi + hopi + t]);
                    assert(fed.skip((c + 1) * hopi)[t] == fed[(c + 1) * hopi + t]);
                }
                assert(int_seq(self.samples@) =~= fed.skip((c + 1) * hopi));
                assert forall|i: int|
                    0 <= i < self.spectra@.len() implies int_seq((#[trigger] self.spectra@[i])@)
                    == spectrum_of(
                    fed.subrange(i * hopi, i * hopi + wl as int),
                    int_seq(self.window.weights@),
                    cpx_seq(self.twiddles@),
                ) by {
                    if i < c {
                        assert(int_seq((self.spectra@[i])@) == spectrum_of(
                            fed.subrange(i * hopi, i * hopi + wl as int),
                            int_seq(self.window.weights@),
                            cpx_seq(self.twiddles@),
                        ));
                    } else {
                        assert(self.spectra@[i] == spectrum);
                    }
                }
            }
        }
        proof {
            assert(int_seq(self.samples@).len() == self.samples@.len());
            let c = self.spectra@.len() as int;
            assert(fed.skip(c * hopi).len() == fed.len() - c * hopi);
            lemma_expected_count_exact(
                self.fed@.len() as int,
                wl as int,
                self.hop as int,
                c,
            );
        }
    }

    /// Accept a chunk of decoded samples, each within one sample unit, and
    /// emit every spectrum that becomes available. Afterwards the stream
    /// model has grown by exactly the chunk, and validity says how many
    /// spectra exist and what each holds.
    #[verifier::loop_isolation(false)]
    pub fn feed(&mut self, chunk: &Vec<i64>)
        requires
            old(self).wf(),
            samples_bounded(int_seq(chunk@)),
        ensures
            final(self).wf(),
            final(self).fed@ == old(self).fed@ + int_seq(chunk@),
            final(self).window == old(self).window,
            final(self).twiddles == old(self).twiddles,
            final(self).hop == old(self).hop,
    {
        let ghost fed0 = self.fed@;
        let ghost samples0 = self.samples@;
        let mut i: usize = 0;
        while i < chunk.len()
            invariant
                i <= chunk@.len(),
                self.samples@ == samples0 + chunk@.subrange(0, i as int),
                self.fed@ == fed0,
                self.spectra@ == old(self).spectra@,
                self.window == old(self).window,
                self.twiddles == old(self).twiddles,
                self.hop == old(self).hop,
            decreases chunk@.len() - i,
        {
            let v = chunk[i];
            self.samples.push(v);
            i = i + 1;
            proof {
                assert(self.samples@ =~= samples0 + chunk@.subrange(0, i as int));
            }
        }
        proof {
            assert(self.samples@ =~= samples0 + chunk@);
            self.fed@ = fed0 + int_seq(chunk@);
        }
        proof {
            let c = self.spectra@.len() as int;
            let hopi = self.hop as int;
            let wli = self.spec_len() as int;
            assert forall|t: int|
                0 <= t < self.fed@.len() implies -(SAMPLE_ONE as int) <= #[trigger] self.fed@[t]
                <= SAMPLE_ONE as int by {
                if t < fed0.len() {
                    assert(self.fed@[t] == fed0[t]);
                } else {
                    assert(self.fed@[t] == int_seq(chunk@)[t - fed0.len()]);
                }
            }
            assert(int_seq(samples0).len() == samples0.len());
            assert forall|t: int|
                0 <= t < self.samples@.len() implies int_seq(self.samples@)[t] == self.fed@.skip(
                c * hopi,
            )[t] by {
                assert(self.fed@.skip(c * hopi)[t] == self.fed@[c * hopi + t]);
                if t < samples0.len() {
                    assert(self.samples@[t] == samples0[t]);
                    assert(int_seq(samples0)[t] == fed0.skip(c * hopi)[t]);
                    assert(fed0.skip(c * hopi)[t] == fed0[c * hopi + t]);
                    assert(self.fed@[c * hopi + t] == fed0[c * hopi + t]);
                } else {
                    assert(self.samples@[t] == chunk@[t - samples0.len()]);
                    assert(fed0.len() == c * hopi + samples0.len()) by {
                        assert(fed0.skip(c * hopi).len() == fed0.len() - c * hopi);
                    }
                    assert(self.fed@[c * hopi + t] == int_seq(chunk@)[t - samples0.len()]);
                }
            }
            assert(int_seq(self.samples@) =~= self.fed@.skip(c * hopi));
            assert forall|k: int|
                0 <= k < self.spectra@.len() implies int_seq((#[trigger] self.spectra@[k])@)
                == spectrum_of(
                self.fed@.subrange(k * hopi, k * hopi + wli),
                int_seq(self.window.weights@),
                cpx_seq(self.twiddles@),
            ) by {
                assert(k * hopi + wli <= fed0.len()) by (nonlinear_arith)
                    requires
                        0 <= k < c,
                        (c - 1) * hopi + wli <= fed0.len(),
                        hopi > 0,
                ;
                assert(self.fed@.subrange(k * hopi, k * hopi + wli) =~= fed0.subrange(
                    k * hopi,
                    k * hopi + wli,
                ));
            }
        }
        self.process_ready();
    }

    /// Declare the stream ended: pad it with the least number of
    /// zero-valued samples that completes one final window covering every
    /// real sample, and emit that window's spectrum. An empty stream is
    /// left untouched; otherwise exactly one spectrum is added, after at
    /// most a window's worth of padding (at most `hop`, once any spectrum
    /// exists).
    #[verifier::loop_isolation(false)]
    pub fn finish(&mut self)
        requires
            old(self).wf(),
        ensures
            final(self).wf(),
            final(self).window == old(self).window,
            final(self).twiddles == old(self).twiddles,
            final(self).hop == old(self).hop,
            old(self).fed@.len() == 0 ==> final(self).fed@ == old(self).fed@
                && final(self).spectra@ == old(self).spectra@,
            old(self).fed@.len() > 0 ==> {
                let c = old(self).spectra@.len() as int;
                let pad = c * (old(self).hop as int) + old(self).spec_len() - old(self).fed@.len();
                &&& final(self).fed@ == old(self).fed@ + Seq::new(pad as nat, |i: int| 0)
                &&& final(self).spectra@.len() == c + 1
            },
    {
        let ghost hopi = self.hop as int;
        let ghost c0 = self.spectra@.len() as int;
        if self.samples.len() == 0 && self.spectra.len() == 0 {
            proof {
                assert((self.spectra@.len() as int) * (self.hop as int) == 0)
                    by (nonlinear_arith)
                    requires
                        self.spectra@.len() == 0,
                ;
                assert(int_seq(self.samples@).len() == self.samples@.len());
                assert(self.fed@.skip(0).len() == self.fed@.len());
                assert(self.fed@.len() == 0);
            }
            return;
        }
        proof {
            if self.fed@.len() == 0 {
                assert(c0 * hopi <= 0);
                assert(c0 == 0) by (nonlinear_arith)
                    requires
                        c0 * hopi <= 0,
                        hopi >= 1,
                        c0 >= 0,
                ;
                assert(int_seq(self.samples@).len() == self.samples@.len());
                assert(self.fed@.skip(0).len() == 0);
                assert(false);
            }
        }
        let ghost fed0 = self.fed@;
        let ghost samples0 = self.samples@;
        let wl = self.window.len();
        proof {
            assert(int_seq(samples0).len() == samples0.len());
            assert(fed0.skip(c0 * hopi).len() == fed0.len() - c0 * hopi);
        }
        let pad = wl - self.samples.len();
        let mut i: usize = 0;
        while i < pad
            invariant
                i <= pad,
                pad == wl - samples0.len(),
                self.samples@ == samples0 + Seq::new(i as nat, |t: int| 0i64),
                self.fed@ == fed0,
                self.spectra@ == old(self).spectra@,
                self.window == old(self).window,
                self.twiddles == old(self).twiddles,
                self.hop == old(self).hop,
            decreases pad - i,
        {
            self.samples.push(0);
            i = i + 1;
            proof {
                assert(self.samples@ =~= samples0 + Seq::new(i as nat, |t: int| 0i64));
            }
        }
        proof {
            self.fed@ = fed0 + Seq::new(pad as nat, |t: int| 0);
        }
        proof {
            let wli = wl as int;
            assert forall|t: int|
                0 <= t < self.fed@.len() implies -(SAMPLE_ONE as int) <= #[trigger] self.fed@[t]
                <= SAMPLE_ONE as int by {
                if t < fed0.len() {
                    assert(self.fed@[t] == fed0[t]);
                } else {
                    assert(self.fed@[t] == 0);
                }
            }
            assert forall|t: int|
                0 <= t < self.samples@.len() implies int_seq(self.samples@)[t] == self.fed@.skip(
                c0 * hopi,
            )[t] by {
                assert(self.fed@.skip(c0 * hopi)[t] == self.fed@[c0 * hopi + t]);
                if t < samples0.len() {
                    assert(self.samples@[t] == samples0[t]);
                    assert(int_seq(samples0)[t] == fed0.skip(c0 * hopi)[t]);
                    assert(fed0.skip(c0 * hopi)[t] == fed0[c0 * hopi + t]);
                    assert(self.fed@[c0 * hopi + t] == fed0[c0 * hopi + t]);
                } else {
                    assert(self.samples@[t] == 0i64);
                    assert(self.fed@[c0 * hopi + t] == 0);
                }
            }
            assert(int_seq(self.samples@) =~= self.fed@.skip(c0 * hopi));
            assert forall|k: int|
                0 <= k < self.spectra@.len() implies int_seq((#[trigger] self.spectra@[k])@)
                == spectrum_of(
                self.fed@.subrange(k * hopi, k * hopi + wli),
                int_seq(self.window.weights@),
                cpx_seq(self.twiddles@),
            ) by {
                assert(k * hopi + wli <= fed0.len()) by (nonlinear_arith)
                    requires
                        0 <= k < c0,
                        (c0 - 1) * hopi + wli <= fed0.len(),
                        hopi > 0,
                ;
                assert(self.fed@.subrange(k * hopi, k * hopi + wli) =~= fed0.subrange(
                    k * hopi,
                    k * hopi + wli,
                ));
            }
            assert(self.fed@.len() == c0 * hopi + wl as int);
        }
        self.process_ready();
        proof {
            // Exactly one window fit: the new count is the old count plus one.
            lemma_fundamental_div_mod_converse(c0 * hopi, hopi, c0, 0);
            assert(expected_count(c0 * hopi + wl as int, wl as int, hopi) == c0 + 1);
        }
    }

    /// Forget the stream and every spectrum: the state of a fresh analyzer
    /// with the same configuration. This is the only way the spectrogram
    /// ever shrinks; short of it, spectra are append-only.
    pub fn reset(&mut self)
        requires
            old(self).wf(),
        ensures
            final(self).wf(),
            final(self).fed@.len() == 0,
            final(self).spectra@.len() == 0,
            final(self).window == old(self).window,
            final(self).twiddles == old(self).twiddles,
            final(self).hop == old(self).hop,
    {
        self.samples.clear();
        self.spectra.clear();
        proof {
            self.fed@ = Seq::empty();
        }
        proof {
            assert((self.spectra@.len() as int) * (self.hop as int) == 0) by (nonlinear_arith)
                requires
                    self.spectra@.len() == 0,
            ;
            assert(int_seq(self.samples@) =~= self.fed@.skip(0));
        }
    }

    /// How many spectra exist. Safe to call at any time; the count only
    /// ever grows.
    pub fn spectrum_count(&self) -> (r: usize)
        ensures
            r == self.spectra@.len(),
    {
        self.spectra.len()
    }

    /// The spectrum at `index`, or `None` exactly when `index` is not
    /// below `spectrum_count()`: an out-of-range request fails explicitly
    /// rather than returning stale or zeroed data.
    pub fn get_spectrum(&self, index: usize) -> (r: Option<&Vec<i64>>)
        requires
            self.wf(),
        ensures
            r is Some <==> index < self.spectra@.len(),
            r matches Some(s) ==> s@ == self.spectra@[index as int]@ && int_seq(s@)
                == spectrum_of(
                self.fed@.subrange(
                    index * (self.hop as int),
                    index * (self.hop as int) + self.spec_len() as int,
                ),
                int_seq(self.window.weights@),
                cpx_seq(self.twiddles@),
            ),
    {
        if index < self.spectra.len() {
            Some(&self.spectra[index])
        } else {
            None
        }
    }
}

/// Law: once at least one full window has been fed, the number of emitted
/// spectra is exactly `(total - len)/hop + 1`, and spectrum `i` is the
/// spectrum of the window starting at sample offset `i * hop` — windows
/// overlap by `len - hop` samples and none is emitted twice.
pub proof fn lemma_hop_overlap_invariant(a: &Analyzer)
    requires
        a.wf(),
        a.fed@.len() >= a.spec_len(),
    ensures
        a.spectra@.len() == (a.fed@.len() - a.spec_len()) / (a.hop as int) + 1,
        forall|i: int|
            0 <= i < a.spectra@.len() ==> int_seq((#[trigger] a.spectra@[i])@) == spectrum_of(
                a.fed@.subrange(
                    i * (a.hop as int),
                    i * (a.hop as int) + a.spec_len() as int,
                ),
                int_seq(a.window.weights@),
                cpx_seq(a.twiddles@),
            ),
{
}


/// Law: the spectrogram is append-only. Whenever the stream one valid
/// analyzer has seen extends the stream another has seen, under the same
/// configuration, every spectrum the shorter stream produced exists
/// unchanged in the longer one's spectrogram: spectra are never mutated or
/// removed, only appended — which is what makes reading a snapshot of the
/// emitted prefix safe while more audio arrives.
pub proof fn lemma_spectrogram_append_only(before: &Analyzer, after: &Analyzer)
    requires
        before.wf(),
        after.wf(),
        after.window == before.window,
        after.twiddles == before.twiddles,
        after.hop == before.hop,
        before.fed@.len() <= after.fed@.len(),
        after.fed@.subrange(0, before.fed@.len() as int) == before.fed@,
    ensures
        before.spectra@.len() <= after.spectra@.len(),
        forall|i: int|
            0 <= i < before.spectra@.len() ==> int_seq((#[trigger] after.spectra@[i])@)
                == int_seq((before.spectra@[i])@),
{
    let l = before.spec_len() as int;
    let hopi = before.hop as int;
    let t0 = before.fed@.len() as int;
    let t1 = after.fed@.len() as int;
    let c0 = before.spectra@.len() as int;
    if t0 >= l {
        vstd::arithmetic::div_mod::lemma_div_is_ordered(t0 - l, t1 - l, hopi);
    }
    assert forall|i: int|
        0 <= i < before.spectra@.len() implies int_seq((#[trigger] after.spectra@[i])@)
        == int_seq((before.spectra@[i])@) by {
        assert(i * hopi + l <= t0) by (nonlinear_arith)
            requires
                0 <= i <= c0 - 1,
                (c0 - 1) * hopi + l <= t0,
                hopi >= 1,
        ;
        assert(i * hopi >= 0) by (nonlinear_arith)
            requires
                0 <= i,
                hopi >= 1,
        ;
        assert forall|j: int|
            i * hopi <= j < i * hopi + l implies #[trigger] after.fed@[j] == before.fed@[j] by {
            assert(after.fed@.subrange(0, t0)[j] == after.fed@[j]);
        }
        assert(after.fed@.subrange(i * hopi, i * hopi + l) =~= before.fed@.subrange(
            i * hopi,
            i * hopi + l,
        ));
    }
}

} // verus!
