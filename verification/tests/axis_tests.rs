//! Axis-mapping tests: pixel time spans, the overlapping-window range,
//! the resampled pixel value, its idempotence, and the tick planning.

use audiograter::analyzer::Analyzer;
use audiograter::axis::{overlapping_windows, pixel_time_range};
use audiograter::complex::Complex;
use audiograter::control::{
    graph_size, quantize_tick_seconds, supersedes, tick_counts, x_tick_seconds, EventKind,
};
use audiograter::fixed::{COEF_ONE, SAMPLE_ONE};
use audiograter::window::Window;

fn make_twiddles(n: usize) -> Vec<Complex> {
    let c = COEF_ONE as f64;
    (0..n)
        .map(|j| {
            let arg = 2.0 * std::f64::consts::PI * (j as f64) / (n as f64);
            Complex {
                re: ((arg.cos() * c).round() as i64).clamp(-COEF_ONE, COEF_ONE),
                im: ((-arg.sin() * c).round() as i64).clamp(-COEF_ONE, COEF_ONE),
            }
        })
        .collect()
}

fn rect_window(n: usize) -> Window {
    let weights = vec![COEF_ONE; n];
    let integral: Vec<i64> = (0..=n)
        .map(|i| if i == n { COEF_ONE } else { i as i64 * (COEF_ONE / n as i64) })
        .collect();
    Window::new(weights, integral).unwrap()
}

fn sample_at(i: usize) -> i64 {
    (((i as i64) * 2654435761 % 131071) - 65535) % SAMPLE_ONE
}

/// An analyzer with some data: window length 8, hop 4, 29 samples, 6 spectra.
fn filled_analyzer() -> Analyzer {
    let mut a = Analyzer::new(rect_window(8), make_twiddles(8), 4).unwrap();
    a.feed(&(0..29).map(sample_at).collect());
    a
}

#[test]
fn pixel_time_range_divides_the_stream() {
    assert_eq!(pixel_time_range(2, 10, 100), (20, 30));
    assert_eq!(pixel_time_range(0, 10, 100), (0, 10));
    assert_eq!(pixel_time_range(9, 10, 100), (90, 100));
    // Rounding goes down, and spans abut.
    assert_eq!(pixel_time_range(0, 3, 10), (0, 3));
    assert_eq!(pixel_time_range(1, 3, 10), (3, 6));
    assert_eq!(pixel_time_range(2, 3, 10), (6, 10));
}

#[test]
fn overlapping_windows_finds_exactly_the_meeting_windows() {
    // Windows of length 8 every 4 samples: window i covers [4i, 4i + 8).
    assert_eq!(overlapping_windows(0, 1, 8, 4, 6), Some((0, 0)));
    assert_eq!(overlapping_windows(10, 20, 8, 4, 6), Some((1, 4)));
    // The range is clamped to the spectra that exist.
    assert_eq!(overlapping_windows(10, 20, 8, 4, 3), Some((1, 2)));
    // A span beyond the data meets nothing.
    assert_eq!(overlapping_windows(100, 110, 8, 4, 6), None);
    // An empty span meets nothing.
    assert_eq!(overlapping_windows(0, 0, 8, 4, 6), None);
}

#[test]
fn sample_intensity_is_idempotent() {
    // The axis-mapping query is a pure function: repeated calls with the
    // same coordinates against an unchanged spectrogram return identical
    // values, bit for bit.
    let a = filled_analyzer();
    for x in 0..7u64 {
        for pos in [0i64, COEF_ONE / 2, COEF_ONE, 3 * COEF_ONE] {
            let first = a.sample_intensity(x, 7, 29, pos);
            let second = a.sample_intensity(x, 7, 29, pos);
            assert_eq!(first, second);
        }
    }
}

#[test]
fn sample_intensity_of_constant_signal_is_exact() {
    // One window of constant ones; the pixel spans the whole stream, the
    // only window meets it with full weight, and bin coordinate zero reads
    // bin zero unmixed: exactly 8*8*SAMPLE_ONE.
    let mut a = Analyzer::new(rect_window(8), make_twiddles(8), 4).unwrap();
    a.feed(&vec![SAMPLE_ONE; 8]);
    let v = a.sample_intensity(0, 1, 8, 0);
    assert_eq!(v, 64 * SAMPLE_ONE);
}

#[test]
fn sample_intensity_outside_the_data_is_zero() {
    let a = filled_analyzer();
    // The last pixel of a wide image over a long duration lies past every
    // window: no window carries weight there.
    let v = a.sample_intensity(99, 100, 10000, 0);
    assert_eq!(v, 0);
}

#[test]
fn tick_spacing_quantizes_to_round_labels() {
    assert_eq!(quantize_tick_seconds(0), 1);
    assert_eq!(quantize_tick_seconds(1), 5);
    assert_eq!(quantize_tick_seconds(5), 5);
    assert_eq!(quantize_tick_seconds(6), 10);
    assert_eq!(quantize_tick_seconds(59), 60);
    assert_eq!(quantize_tick_seconds(61), 90);
    assert_eq!(quantize_tick_seconds(121), 300);
    assert_eq!(quantize_tick_seconds(901), 1200);
    assert_eq!(quantize_tick_seconds(100000), 1200);
}

#[test]
fn x_ticks_fill_the_stream_duration() {
    // 100 samples at 10 samples per second is 10 seconds of audio: ticks
    // at 0, 5 and 10 seconds fit, 15 does not.
    let ticks = x_tick_seconds(100, 10, 5);
    assert_eq!(ticks, vec![0, 5, 10]);
    // An empty stream still gets the origin tick.
    let ticks = x_tick_seconds(0, 44100, 5);
    assert_eq!(ticks, vec![0]);
}

#[test]
fn tick_counts_follow_label_sizes() {
    let (nx, ny) = tick_counts(640, 480, 50, 20);
    assert_eq!(nx, 12);
    assert_eq!(ny, 480 / 58);
}

#[test]
fn graph_size_reserves_label_and_border_room() {
    // Two border pixels, a five-pixel tick and five pixels of padding come
    // off each axis, besides the label itself.
    assert_eq!(graph_size(640, 480, 50, 20), (578, 448));
    // The graph never vanishes entirely.
    assert_eq!(graph_size(10, 10, 50, 20), (1, 1));
}

#[test]
fn only_consecutive_resizes_supersede() {
    assert!(supersedes(&EventKind::Resize, &EventKind::Resize));
    assert!(!supersedes(&EventKind::Resize, &EventKind::Decode));
    assert!(!supersedes(&EventKind::OpenFile, &EventKind::Resize));
    assert!(!supersedes(&EventKind::Decode, &EventKind::Decode));
}
