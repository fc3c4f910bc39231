//! Spectral analysis engine for a spectrogram viewer.
//!
//! The engine turns a stream of decoded audio samples into a time-frequency
//! matrix of magnitudes. Samples, spectrum magnitudes and transform
//! coefficients are held in fixed-point form (scaled `i64` values), so that
//! every arithmetic step has an exact mathematical meaning that contracts can
//! state and proofs can track. The surrounding application converts between
//! this form and whatever numeric form its decoder and renderer use.

pub mod analyzer;
pub mod axis;
pub mod complex;
pub mod control;
pub mod dft;
pub mod fixed;
pub mod theory;
pub mod window;
