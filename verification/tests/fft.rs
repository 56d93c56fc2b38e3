use guitartuning::complex::{Complex, SCALE};
use guitartuning::error::PitchError;
use guitartuning::fft::{ditfft2, transform};

/// Fixed-point twiddle table for block length `n`: entry `t` holds
/// `exp(-2*pi*i*t/n)`, rounded to the working scale.
fn make_twiddles(n: usize) -> Vec<Complex> {
    let mut w = Vec::new();
    for t in 0..n / 2 {
        let angle = -2.0 * std::f64::consts::PI * (t as f64) / (n as f64);
        let re = (angle.cos() * SCALE as f64).round() as i64;
        let im = (angle.sin() * SCALE as f64).round() as i64;
        w.push(Complex::new(re, im));
    }
    w
}

fn to_fixed(samples: &[f64]) -> Vec<Complex> {
    samples
        .iter()
        .map(|s| Complex::new((s * SCALE as f64).round() as i64, 0))
        .collect()
}

#[test]
fn runs_normally() {
    let input = vec![0.0, 1.0, 3.0, 4.0];
    let cinput = to_fixed(&input);
    let w = make_twiddles(cinput.len());
    std::hint::black_box(ditfft2(&cinput, 0, cinput.len(), 1, &w));
}

#[test]
fn zero_block_transforms_to_zero() {
    let n = 8;
    let x = vec![Complex::new(0, 0); n];
    let w = make_twiddles(n);
    let out = transform(&x, &w).unwrap();
    assert_eq!(out.len(), n);
    for b in out {
        assert_eq!(b.re, 0);
        assert_eq!(b.im, 0);
    }
}

#[test]
fn constant_block_concentrates_in_bin_zero() {
    let n = 8;
    let c = Complex::new(SCALE, -3 * SCALE);
    let x = vec![c; n];
    let w = make_twiddles(n);
    let out = transform(&x, &w).unwrap();
    assert_eq!(out.len(), n);
    assert_eq!(out[0].re, n as i64 * c.re);
    assert_eq!(out[0].im, n as i64 * c.im);
    for b in &out[1..] {
        assert_eq!(b.re, 0);
        assert_eq!(b.im, 0);
    }
}

#[test]
fn on_bin_cosine_peaks_at_its_bin() {
    // A pure tone placed exactly on bin 3 of a 16-point block: the spectrum
    // must be dominated by bins 3 and 13 (its mirror), with negligible
    // energy elsewhere.
    let n = 16;
    let k = 3;
    let samples: Vec<f64> = (0..n)
        .map(|i| (2.0 * std::f64::consts::PI * (k as f64) * (i as f64) / (n as f64)).cos())
        .collect();
    let x = to_fixed(&samples);
    let w = make_twiddles(n);
    let out = transform(&x, &w).unwrap();
    let energy: Vec<f64> = out
        .iter()
        .map(|b| (b.re as f64).powi(2) + (b.im as f64).powi(2))
        .collect();
    let peak = energy[k];
    assert_eq!(energy.iter().cloned().fold(0.0, f64::max), peak.max(energy[n - k]));
    for (j, e) in energy.iter().enumerate() {
        if j != k && j != n - k {
            assert!(*e * 100.0 < peak, "bin {} carries too much energy", j);
        }
    }
    // The peak bin carries about n/2 units of amplitude.
    let expect = (n as f64 / 2.0) * SCALE as f64;
    assert!((energy[k].sqrt() - expect).abs() < expect * 0.01);
}

#[test]
fn non_power_of_two_is_rejected() {
    let x = vec![Complex::new(0, 0); 3];
    let w: Vec<Complex> = Vec::new();
    assert_eq!(transform(&x, &w), Err(PitchError::InvalidInput));
}

#[test]
fn empty_block_is_rejected() {
    let x: Vec<Complex> = Vec::new();
    let w: Vec<Complex> = Vec::new();
    assert_eq!(transform(&x, &w), Err(PitchError::InvalidInput));
}

#[test]
fn mismatched_twiddle_table_is_rejected() {
    let x = vec![Complex::new(0, 0); 8];
    let w = make_twiddles(16);
    assert_eq!(transform(&x, &w), Err(PitchError::InvalidInput));
}

#[test]
fn malformed_twiddle_table_is_rejected() {
    let x = vec![Complex::new(0, 0); 4];
    // An entry beyond one fixed-point unit of magnitude.
    let w = vec![Complex::new(SCALE, 0), Complex::new(0, -SCALE - 1)];
    assert_eq!(transform(&x, &w), Err(PitchError::InvalidInput));
    // A first entry that is not exp(0).
    let w = vec![Complex::new(SCALE - 1, 0), Complex::new(0, -SCALE)];
    assert_eq!(transform(&x, &w), Err(PitchError::InvalidInput));
}
