//! Transform tests: the ported peak-detection and fast-vs-naive checks,
//! plus exact fixed-point arithmetic checks.

use audiograter::complex::Complex;
use audiograter::dft::{dft_fast, dft_full, dft_naive};
use audiograter::fixed::{COEF_ONE, SAMPLE_ONE};

/// Twiddle table for length `n`: entry `j` is `exp(-2*pi*i*j/n)` at the
/// coefficient scale.
fn make_twiddles(n: usize) -> Vec<Complex> {
    let c = COEF_ONE as f64;
    (0..n)
        .map(|j| {
            let arg = 2.0 * std::f64::consts::PI * (j as f64) / (n as f64);
            Complex {
                re: ((arg.cos() * c).round() as i64).clamp(-COEF_ONE, COEF_ONE),
                im: ((-arg.sin() * c).round() as i64).clamp(-COEF_ONE, COEF_ONE),
            }
        })
        .collect()
}

/// The all-ones window: pure transform, no tapering.
fn rect_window(n: usize) -> Vec<i64> {
    vec![COEF_ONE; n]
}

/// Build a signal which is a superposition of known waves, in fixed point,
/// scaled down by 16 so the sum of amplitudes (15) stays within one sample
/// unit.
///
/// Frequencies and amplitudes:
///
///     1.0 at 5.
///     2.0 at 31.
///     5.0 at 53.
///     7.0 at 541.
fn generate_test_signal() -> Vec<i64> {
    let two_pi = 6.283185307179586_f64;
    (0..4096)
        .map(|i| {
            let t = i as f64 / 4096.0;
            let v = 0.0
                + 1.0 * (t * 5.0 * two_pi).sin()
                + 2.0 * (t * 31.0 * two_pi).cos()
                + 5.0 * (t * 53.0 * two_pi).sin()
                + 7.0 * (t * 541.0 * two_pi).sin();
            ((v / 16.0) * SAMPLE_ONE as f64).round() as i64
        })
        .collect()
}

/// Undo the fixed-point and 1/16 scaling: from a squared-norm entry back to
/// the amplitude of the wave that produced it.
fn amplitude_of(sq: i64, n: usize) -> f64 {
    let norm = ((sq as f64) * SAMPLE_ONE as f64).sqrt();
    16.0 * 2.0 * norm / (n as f64 * SAMPLE_ONE as f64)
}

#[test]
fn dft_naive_finds_peaks() {
    let buffer = generate_test_signal();
    let tw = make_twiddles(buffer.len());
    let result_naive = dft_naive(&buffer, &tw);
    let epsilon = 2e-4;

    for (i, &result) in result_naive.iter().enumerate() {
        // The result contains the squared norm of the coefficients, and
        // their magnitude is proportional to the length of the buffer, so
        // normalize for those. Only half of the coefficients are returned
        // because the result is symmetric, but that does mean we miss half
        // of the mass, so we need a factor 2 to compensate for that.
        let a = amplitude_of(result, buffer.len());

        match i {
            // These are the peaks that the test signal contains.
            5 => assert!((a - 1.0).abs() < epsilon),
            31 => assert!((a - 2.0).abs() < epsilon),
            53 => assert!((a - 5.0).abs() < epsilon),
            541 => assert!((a - 7.0).abs() < epsilon),
            _ => assert!(a < epsilon, "Unexpected peak of {} at {}", a, i),
        }
    }
}

#[test]
fn dft_fast_equals_dft_naive() {
    let buffer = generate_test_signal();
    let tw = make_twiddles(buffer.len());
    let window = rect_window(buffer.len());
    let result_naive = dft_naive(&buffer, &tw);
    let result_fast = dft_fast(&buffer, &window, &tw);

    assert_eq!(result_naive.len(), result_fast.len());
    for (i, (&naive, &fast)) in result_naive.iter().zip(result_fast.iter()).enumerate() {
        let n = ((naive as f64) * SAMPLE_ONE as f64).sqrt();
        let f = ((fast as f64) * SAMPLE_ONE as f64).sqrt();
        let diff = 16.0 * (n - f).abs() / (buffer.len() as f64 * SAMPLE_ONE as f64);
        assert!(diff < 2e-4, "Difference at index {}: {} vs {}.", i, naive, fast);
    }
}

#[test]
fn spectrum_has_nyquist_bin() {
    let buffer = generate_test_signal();
    let tw = make_twiddles(buffer.len());
    let window = rect_window(buffer.len());
    let result = dft_fast(&buffer, &window, &tw);
    // Half the bins plus the Nyquist bin are retained.
    assert_eq!(result.len(), buffer.len() / 2 + 1);
}

#[test]
fn constant_signal_concentrates_in_bin_zero() {
    // A constant signal of one sample unit: the transform accumulates it
    // exactly (the twiddle at index zero is exactly one), so bin zero is
    // exactly len^2 * SAMPLE_ONE and every other bin is exactly zero free
    // of leakage up to rounding.
    let n = 8usize;
    let buffer = vec![SAMPLE_ONE; n];
    let tw = make_twiddles(n);
    let window = rect_window(n);
    let result = dft_fast(&buffer, &window, &tw);
    assert_eq!(result[0], (n * n) as i64 * SAMPLE_ONE);
    for k in 1..result.len() {
        // Rounding leaves at most a few units in the other bins.
        assert!(result[k] < 16, "leakage {} at bin {}", result[k], k);
    }
}

#[test]
fn real_input_transform_is_conjugate_symmetric() {
    // The discarded upper half of a full-length transform of real input
    // mirrors the retained lower half: bin n-k is the conjugate of bin k,
    // up to fixed-point rounding, so its squared magnitude carries no
    // information of its own.
    let buffer = generate_test_signal();
    let n = buffer.len();
    let tw = make_twiddles(n);
    let window = rect_window(n);
    let full = dft_full(&buffer, &window, &tw);
    let half = dft_fast(&buffer, &window, &tw);
    assert_eq!(full.len(), n);
    for k in 1..n / 2 {
        let a = full[k];
        let b = full[n - k];
        // Conjugate mirror, within a small absolute rounding allowance
        // relative to the size of the transform values.
        let tol = 1e-5 * (a.re.abs().max(a.im.abs()).max(1) as f64) + 1024.0;
        assert!(
            ((b.re - a.re).abs() as f64) < tol && ((b.im + a.im).abs() as f64) < tol,
            "bins {} and {} are not mirrored: ({}, {}) vs ({}, {})",
            k,
            n - k,
            a.re,
            a.im,
            b.re,
            b.im
        );
    }
    // And the half-spectrum result is the squared norms of the lower bins.
    for k in 0..half.len() {
        let sq = ((full[k].re as i128 * full[k].re as i128
            + full[k].im as i128 * full[k].im as i128
            + 32768) / 65536) as i64;
        assert_eq!(half[k], sq);
    }
}

#[test]
fn complex_mul_add_rounds_half_up() {
    // (COEF_ONE/2) * 3 / COEF_ONE = 1.5, which rounds half up to 2.
    let a = Complex { re: COEF_ONE / 2, im: 0 };
    let f = Complex { re: 3, im: 0 };
    let t = Complex { re: 0, im: 0 };
    let r = a.mul_add(f, t);
    assert_eq!(r.re, 2);
    assert_eq!(r.im, 0);
}

#[test]
fn complex_add_sub_neg_are_componentwise() {
    let a = Complex { re: 3, im: -4 };
    let b = Complex { re: 10, im: 7 };
    assert_eq!(a.add(b), Complex { re: 13, im: 3 });
    assert_eq!(a.sub(b), Complex { re: -7, im: -11 });
    assert_eq!(a.neg(), Complex { re: -3, im: 4 });
}
