//! Window tests: the closed-form integral, its exactness at the
//! boundaries, additivity, and every rejection reason.

use audiograter::fixed::COEF_ONE;
use audiograter::window::{Window, WindowError};

/// The normalized raised-cosine weights `2*sin^2(pi*i/(n-1))` at the
/// coefficient scale.
fn hann_weights(n: usize) -> Vec<i64> {
    let c = COEF_ONE as f64;
    (0..n)
        .map(|i| {
            let s = (i as f64 * std::f64::consts::PI / (n as f64 - 1.0)).sin();
            ((2.0 * s * s * c).round() as i64).clamp(0, 2 * COEF_ONE)
        })
        .collect()
}

/// The running table of the window's closed-form integral
/// `F(t) = t - sin(2*pi*t)/(2*pi)` at `t = i/n`, with exact endpoints.
fn hann_integral(n: usize) -> Vec<i64> {
    let c = COEF_ONE as f64;
    let two_pi = 2.0 * std::f64::consts::PI;
    (0..=n)
        .map(|i| {
            if i == 0 {
                0
            } else if i == n {
                COEF_ONE
            } else {
                let t = i as f64 / n as f64;
                let f = t - (two_pi * t).sin() / two_pi;
                ((f * c).round() as i64).clamp(0, COEF_ONE)
            }
        })
        .collect()
}

#[test]
fn closed_form_integral_over_unit_interval_is_one() {
    // The antiderivative F(t) = t - sin(2*pi*t)/(2*pi) of the normalized
    // window evaluates to exactly one at t = 1 and zero at t = 0.
    let two_pi = 2.0 * std::f64::consts::PI;
    let f = |t: f64| t - (two_pi * t).sin() / two_pi;
    assert!((f(1.0) - f(0.0) - 1.0).abs() < 1e-12);
    // And halves of it sum to the whole.
    let first = f(0.5) - f(0.0);
    let second = f(1.0) - f(0.5);
    assert!((first + second - 1.0).abs() < 1e-12);
}

#[test]
fn window_accepts_hann_tables() {
    let n = 64usize;
    let w = Window::new(hann_weights(n), hann_integral(n)).unwrap();
    assert_eq!(w.len(), n);
    // The full-span integral is exactly one coefficient unit.
    assert_eq!(w.span_integral(0, n), COEF_ONE);
    // Adjacent spans sum exactly to their union, wherever split.
    for split in [1usize, 7, 32, 63] {
        assert_eq!(
            w.span_integral(0, split) + w.span_integral(split, n),
            w.span_integral(0, n)
        );
    }
    // The window peaks near two units in the middle and vanishes at the
    // edges.
    assert_eq!(w.weight(0), 0);
    assert!((w.weight(n / 2) - 2 * COEF_ONE).abs() < COEF_ONE / 100);
}

#[test]
fn window_of_length_one_is_rejected() {
    // The weight normalization divides by n - 1.
    let r = Window::new(vec![COEF_ONE], vec![0, COEF_ONE]);
    assert!(matches!(r, Err(WindowError::TooShort)));
}

#[test]
fn window_weight_out_of_range_is_rejected() {
    let mut weights = hann_weights(8);
    weights[3] = -1;
    let r = Window::new(weights, hann_integral(8));
    assert!(matches!(r, Err(WindowError::WeightOutOfRange)));

    let mut weights = hann_weights(8);
    weights[3] = 2 * COEF_ONE + 1;
    let r = Window::new(weights, hann_integral(8));
    assert!(matches!(r, Err(WindowError::WeightOutOfRange)));
}

#[test]
fn window_integral_malformed_is_rejected() {
    // Wrong length.
    let r = Window::new(hann_weights(8), hann_integral(16));
    assert!(matches!(r, Err(WindowError::IntegralMalformed)));
    // Wrong start.
    let mut integral = hann_integral(8);
    integral[0] = 1;
    let r = Window::new(hann_weights(8), integral);
    assert!(matches!(r, Err(WindowError::IntegralMalformed)));
    // Wrong end: the full integral must be exactly one unit.
    let mut integral = hann_integral(8);
    integral[8] = COEF_ONE - 1;
    let r = Window::new(hann_weights(8), integral);
    assert!(matches!(r, Err(WindowError::IntegralMalformed)));
    // A decrease.
    let mut integral = hann_integral(8);
    integral[4] = integral[5] + 1;
    let r = Window::new(hann_weights(8), integral);
    assert!(matches!(r, Err(WindowError::IntegralMalformed)));
}
