//! Buffer manager tests: the hop/overlap emission count, window offsets,
//! the end-of-stream padding, the out-of-range query, and every rejection
//! reason.

use audiograter::analyzer::{Analyzer, AnalyzerError};
use audiograter::complex::Complex;
use audiograter::dft::dft_fast;
use audiograter::fixed::{COEF_ONE, SAMPLE_ONE};
use audiograter::window::Window;

fn make_twiddles(n: usize) -> Vec<Complex> {
    let c = COEF_ONE as f64;
    (0..n)
        .map(|j| {
            let arg = 2.0 * std::f64::consts::PI * (j as f64) / (n as f64);
            Complex {
                re: ((arg.cos() * c).round() as i64).clamp(-COEF_ONE, COEF_ONE),
                im: ((-arg.sin() * c).round() as i64).clamp(-COEF_ONE, COEF_ONE),
            }
        })
        .collect()
}

/// A rectangular window of length `n` with its (linear) integral table.
fn rect_window(n: usize) -> Window {
    let weights = vec![COEF_ONE; n];
    let integral: Vec<i64> = (0..=n)
        .map(|i| if i == n { COEF_ONE } else { i as i64 * (COEF_ONE / n as i64) })
        .collect();
    Window::new(weights, integral).unwrap()
}

/// A fresh analyzer with window length 8 and hop 4.
fn small_analyzer() -> Analyzer {
    Analyzer::new(rect_window(8), make_twiddles(8), 4).unwrap()
}

/// A deterministic pseudo-random sample within one unit.
fn sample_at(i: usize) -> i64 {
    (((i as i64) * 2654435761 % 131071) - 65535) % SAMPLE_ONE
}

#[test]
fn hop_overlap_emission_count() {
    // Feeding k windows' worth of samples at window length 8 and hop 4
    // emits floor((total - 8)/4) + 1 spectra.
    let mut a = small_analyzer();
    assert_eq!(a.spectrum_count(), 0);
    a.feed(&(0..7).map(sample_at).collect());
    assert_eq!(a.spectrum_count(), 0); // not yet one full window
    a.feed(&vec![sample_at(7)]);
    assert_eq!(a.spectrum_count(), 1); // exactly one window
    a.feed(&(8..29).map(sample_at).collect());
    // total 29 samples: floor((29 - 8)/4) + 1 = 6
    assert_eq!(a.spectrum_count(), 6);
}

#[test]
fn spectrum_window_starts_at_hop_times_index() {
    let mut a = small_analyzer();
    let samples: Vec<i64> = (0..20).map(sample_at).collect();
    a.feed(&samples);
    assert_eq!(a.spectrum_count(), 4);
    // Spectrum i must be the spectrum of samples[i*4 .. i*4 + 8].
    for i in 0..4usize {
        let block: Vec<i64> = samples[i * 4..i * 4 + 8].to_vec();
        let expected = dft_fast(&block, &vec![COEF_ONE; 8], &make_twiddles(8));
        assert_eq!(a.get_spectrum(i).unwrap(), &expected);
    }
}

#[test]
fn out_of_range_spectrum_is_refused() {
    let mut a = small_analyzer();
    a.feed(&(0..20).map(sample_at).collect());
    let count = a.spectrum_count();
    assert!(count > 0);
    assert!(a.get_spectrum(count - 1).is_some());
    assert!(a.get_spectrum(count).is_none());
    assert!(a.get_spectrum(count + 17).is_none());
}

#[test]
fn finish_pads_the_last_window_with_silence() {
    let mut a = small_analyzer();
    a.feed(&(0..10).map(sample_at).collect());
    // 10 samples: floor((10 - 8)/4) + 1 = 1 spectrum so far.
    assert_eq!(a.spectrum_count(), 1);
    a.finish();
    // The remainder is padded to one more full window: exactly one more
    // spectrum, covering samples 4..12 with samples 10 and 11 zero.
    assert_eq!(a.spectrum_count(), 2);
    let mut tail: Vec<i64> = (4..10).map(sample_at).collect();
    tail.push(0);
    tail.push(0);
    let expected = dft_fast(&tail, &vec![COEF_ONE; 8], &make_twiddles(8));
    assert_eq!(a.get_spectrum(1).unwrap(), &expected);
}

#[test]
fn finish_on_empty_stream_emits_nothing() {
    let mut a = small_analyzer();
    a.finish();
    assert_eq!(a.spectrum_count(), 0);
}

#[test]
fn short_stream_is_padded_to_one_window() {
    let mut a = small_analyzer();
    a.feed(&vec![SAMPLE_ONE, -SAMPLE_ONE, SAMPLE_ONE]);
    assert_eq!(a.spectrum_count(), 0);
    a.finish();
    assert_eq!(a.spectrum_count(), 1);
    let block = vec![SAMPLE_ONE, -SAMPLE_ONE, SAMPLE_ONE, 0, 0, 0, 0, 0];
    let expected = dft_fast(&block, &vec![COEF_ONE; 8], &make_twiddles(8));
    assert_eq!(a.get_spectrum(0).unwrap(), &expected);
}

#[test]
fn analyzer_rejects_bad_configurations() {
    // Hop of zero.
    let r = Analyzer::new(rect_window(8), make_twiddles(8), 0);
    assert!(matches!(r, Err(AnalyzerError::HopOutOfRange)));
    // Hop not smaller than the window.
    let r = Analyzer::new(rect_window(8), make_twiddles(8), 8);
    assert!(matches!(r, Err(AnalyzerError::HopOutOfRange)));
    // A window length that is not a power of two.
    let r = Analyzer::new(rect_window(6), make_twiddles(6), 3);
    assert!(matches!(r, Err(AnalyzerError::LengthUnsupported)));
    // A twiddle table of the wrong length.
    let r = Analyzer::new(rect_window(8), make_twiddles(16), 4);
    assert!(matches!(r, Err(AnalyzerError::TwiddleTableBad)));
    // A twiddle entry beyond one coefficient unit.
    let mut tw = make_twiddles(8);
    tw[3] = Complex { re: COEF_ONE + 1, im: 0 };
    let r = Analyzer::new(rect_window(8), tw, 4);
    assert!(matches!(r, Err(AnalyzerError::TwiddleTableBad)));
}

#[test]
fn spectra_are_append_only() {
    // Growing the stream never changes an already-emitted spectrum.
    let mut a = small_analyzer();
    a.feed(&(0..12).map(sample_at).collect());
    let count = a.spectrum_count();
    assert!(count >= 2);
    let snapshots: Vec<Vec<i64>> = (0..count).map(|i| a.get_spectrum(i).unwrap().clone()).collect();
    a.feed(&(12..40).map(sample_at).collect());
    assert!(a.spectrum_count() > count);
    for i in 0..count {
        assert_eq!(a.get_spectrum(i).unwrap(), &snapshots[i]);
    }
}

#[test]
fn feeding_nothing_changes_nothing() {
    // An upstream failure means no further samples; the engine just waits.
    let mut a = small_analyzer();
    a.feed(&(0..12).map(sample_at).collect());
    let count = a.spectrum_count();
    a.feed(&Vec::new());
    assert_eq!(a.spectrum_count(), count);
}

#[test]
fn reset_forgets_the_stream() {
    let mut a = small_analyzer();
    a.feed(&(0..20).map(sample_at).collect());
    assert!(a.spectrum_count() > 0);
    a.reset();
    assert_eq!(a.spectrum_count(), 0);
    assert!(a.get_spectrum(0).is_none());
    // The analyzer accepts a new stream afterwards.
    a.feed(&(0..8).map(sample_at).collect());
    assert_eq!(a.spectrum_count(), 1);
}

#[test]
fn constant_input_spectrum_bin_zero_is_exact() {
    // Eight samples of one unit through the rectangular window: bin zero
    // accumulates exactly, so it is exactly 8*8*SAMPLE_ONE.
    let mut a = small_analyzer();
    a.feed(&vec![SAMPLE_ONE; 8]);
    let s = a.get_spectrum(0).unwrap();
    assert_eq!(s[0], 64 * SAMPLE_ONE);
}
