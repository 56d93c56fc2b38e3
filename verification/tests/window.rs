use guitartuning::complex::{Complex, SCALE};
use guitartuning::error::PitchError;
use guitartuning::window::{hann_window, hann_window_cpx};

/// Fixed-point raised-cosine coefficients for a block of length `len`:
/// entry `i` holds `0.5 * (1 - cos(2*pi*i/len))`, rounded.
fn hann_coeffs(len: usize) -> Vec<i64> {
    (0..len)
        .map(|i| {
            let c = 0.5 * (1.0 - (2.0 * std::f64::consts::PI * i as f64 / len as f64).cos());
            (c * SCALE as f64).round() as i64
        })
        .collect()
}

#[test]
fn window_scales_each_sample() {
    let mut samples: Vec<i64> = vec![65536, 65536, 131072, -65536];
    let coeffs: Vec<i64> = vec![0, 32768, 65536, 16384];
    hann_window(&mut samples, &coeffs).unwrap();
    assert_eq!(samples, vec![0, 32768, 131072, -16384]);
}

#[test]
fn window_rejects_empty_block() {
    let mut samples: Vec<i64> = Vec::new();
    let coeffs: Vec<i64> = Vec::new();
    assert_eq!(hann_window(&mut samples, &coeffs), Err(PitchError::InvalidInput));
}

#[test]
fn window_rejects_mismatched_table() {
    let mut samples: Vec<i64> = vec![1, 2, 3];
    let coeffs: Vec<i64> = vec![0, SCALE];
    assert_eq!(hann_window(&mut samples, &coeffs), Err(PitchError::InvalidInput));
    assert_eq!(samples, vec![1, 2, 3]);
}

#[test]
fn window_rejects_coefficient_out_of_range() {
    let mut samples: Vec<i64> = vec![1, 2];
    let coeffs: Vec<i64> = vec![0, SCALE + 1];
    assert_eq!(hann_window(&mut samples, &coeffs), Err(PitchError::InvalidInput));
}

#[test]
fn double_windowing_differs_from_single() {
    // Tapering is not idempotent: a second pass shrinks every sample whose
    // coefficient is strictly fractional, so the results must differ.
    let len = 8;
    let coeffs = hann_coeffs(len);
    let mut once: Vec<i64> = vec![SCALE; len];
    hann_window(&mut once, &coeffs).unwrap();
    let mut twice = once.clone();
    hann_window(&mut twice, &coeffs).unwrap();
    assert_ne!(once, twice);
}

#[test]
fn complex_window_matches_real_window() {
    let len = 8;
    let coeffs = hann_coeffs(len);
    let mut real: Vec<i64> = (0..len as i64).map(|i| (i - 3) * 40000).collect();
    let mut cpx: Vec<Complex> = real.iter().map(|&r| Complex::new(r, 2 * r)).collect();
    hann_window(&mut real, &coeffs).unwrap();
    hann_window_cpx(&mut cpx, &coeffs).unwrap();
    for (r, c) in real.iter().zip(cpx.iter()) {
        assert_eq!(*r, c.re);
    }
    // The imaginary component is tapered by the same coefficients.
    assert_eq!(cpx[2].im, {
        let mut im: Vec<i64> = (0..len as i64).map(|i| 2 * (i - 3) * 40000).collect();
        hann_window(&mut im, &coeffs).unwrap();
        im[2]
    });
}
