//! Spectral pitch estimation over fixed-point samples.
//!
//! The pipeline takes a block of time-domain samples, tapers it with a
//! raised-cosine window, runs a recursive decimation-in-time Fourier
//! transform, locates the dominant spectral bin, refines the frequency by
//! parabolic interpolation, and maps the result to the nearest entry of a
//! note table.
//!
//! All signal values are fixed-point integers: a sample of amplitude `1.0`
//! is stored as [`complex::SCALE`] counts, and frequencies are reported in
//! milli-hertz. The conversion from floating-point samples, and the
//! evaluation of the trigonometric window and twiddle tables, happen at the
//! caller's edge; everything in this crate is exact integer arithmetic.

pub mod complex;
pub mod error;
pub mod fft;
pub mod pipeline;
pub mod pitch;
pub mod window;
