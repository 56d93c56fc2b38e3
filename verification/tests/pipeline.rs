use guitartuning::complex::{Complex, SCALE};
use guitartuning::error::PitchError;
use guitartuning::pipeline::analyze_block;
use guitartuning::pitch::{closest_note, standard_guitar_table, NOTE_THRESHOLD_MHZ};

fn hann(len: usize) -> Vec<i64> {
    (0..len)
        .map(|i| {
            let c = 0.5 * (1.0 - (2.0 * std::f64::consts::PI * i as f64 / len as f64).cos());
            (c * SCALE as f64).round() as i64
        })
        .collect()
}

fn twiddles(n: usize) -> Vec<Complex> {
    (0..n / 2)
        .map(|t| {
            let a = -2.0 * std::f64::consts::PI * t as f64 / n as f64;
            Complex::new(
                (a.cos() * SCALE as f64).round() as i64,
                (a.sin() * SCALE as f64).round() as i64,
            )
        })
        .collect()
}

#[test]
fn analyzes_a_windowed_tone_end_to_end() {
    // A 110 Hz cosine placed on bin 4 of a 64-point block at 1760 Hz. After
    // the raised-cosine taper the peak stays at bin 4 with symmetric
    // neighbours, so the interpolated frequency lands near 110 Hz and the
    // classifier reports A2.
    let n = 64;
    let sr = 1760;
    let block: Vec<Complex> = (0..n)
        .map(|i| {
            let s = (2.0 * std::f64::consts::PI * 4.0 * i as f64 / n as f64).cos();
            Complex::new((s * SCALE as f64).round() as i64, 0)
        })
        .collect();
    let e = analyze_block(block, &hann(n), &twiddles(n), sr).unwrap();
    assert_eq!(e.bin, 4);
    assert!((e.freq_mhz - 110000).abs() < 2000, "got {} mHz", e.freq_mhz);
    let table = standard_guitar_table();
    let hit = closest_note(e.freq_mhz, &table, NOTE_THRESHOLD_MHZ).unwrap();
    assert_eq!(table[hit].name, "A2");
}

#[test]
fn analysis_rejects_bad_blocks() {
    let n = 6;
    let block = vec![Complex::new(0, 0); n];
    // Length is not a power of two.
    assert_eq!(
        analyze_block(block, &hann(n), &twiddles(n), 8000),
        Err(PitchError::InvalidInput)
    );
    // Zero sample rate.
    let block = vec![Complex::new(0, 0); 8];
    assert_eq!(
        analyze_block(block, &hann(8), &twiddles(8), 0),
        Err(PitchError::InvalidInput)
    );
}
