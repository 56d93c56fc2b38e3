use guitartuning::complex::{Complex, SCALE};
use guitartuning::error::PitchError;
use guitartuning::fft::transform;
use guitartuning::pitch::{
    closest_note, estimate_pitch, standard_guitar_table, NoteEntry, NOTE_THRESHOLD_MHZ,
};

fn spectrum_from_re(re: &[i64]) -> Vec<Complex> {
    re.iter().map(|&r| Complex::new(r, 0)).collect()
}

#[test]
fn classifies_near_frequency_within_threshold() {
    // 115 Hz sits 5 Hz from A2 (110 Hz), inside the 50 Hz threshold.
    let table = standard_guitar_table();
    let hit = closest_note(115000, &table, NOTE_THRESHOLD_MHZ).unwrap();
    assert_eq!(table[hit].name, "A2");
}

#[test]
fn classifies_to_nearest_entry() {
    // 200 Hz is 4 Hz from G3 (196 Hz), nearer than any other entry.
    let table = standard_guitar_table();
    let hit = closest_note(200000, &table, NOTE_THRESHOLD_MHZ).unwrap();
    assert_eq!(table[hit].name, "G3");
    // 170 Hz is about 23.2 Hz from D3 (146.83 Hz) and 26 Hz from G3.
    let hit = closest_note(170000, &table, NOTE_THRESHOLD_MHZ).unwrap();
    assert_eq!(table[hit].name, "D3");
}

#[test]
fn reports_no_match_outside_threshold() {
    let table = standard_guitar_table();
    assert_eq!(closest_note(500000, &table, NOTE_THRESHOLD_MHZ), None);
    // A distance of exactly the threshold does not match: only strictly
    // closer entries qualify.
    let one = vec![NoteEntry { name: "A2", freq_mhz: 110000 }];
    assert_eq!(closest_note(160000, &one, 50000), None);
    assert_eq!(closest_note(159999, &one, 50000), Some(0));
}

#[test]
fn tie_break_prefers_earlier_entry() {
    let table = vec![
        NoteEntry { name: "lo", freq_mhz: 100000 },
        NoteEntry { name: "hi", freq_mhz: 120000 },
    ];
    // 110 Hz is exactly 10 Hz from both entries: the first one wins.
    assert_eq!(closest_note(110000, &table, 50000), Some(0));
}

#[test]
fn estimator_rejects_empty_spectrum_and_zero_rate() {
    let empty: Vec<Complex> = Vec::new();
    assert!(matches!(estimate_pitch(&empty, 44100), Err(PitchError::InvalidInput)));
    let some = spectrum_from_re(&[1, 2, 3, 4]);
    assert!(matches!(estimate_pitch(&some, 0), Err(PitchError::InvalidInput)));
}

#[test]
fn boundary_peak_keeps_coarse_frequency() {
    // Peak at bin 0: no interpolation, frequency exactly 0.
    let s = spectrum_from_re(&[100, 50, 10, 5, 1, 0, 0, 0]);
    let e = estimate_pitch(&s, 8000).unwrap();
    assert_eq!(e.bin, 0);
    assert_eq!(e.freq_mhz, 0);
    assert_eq!(e.magnitude, 100);
    // Peak at the last scanned bin (n/2): exactly the bin-centre frequency.
    let s = spectrum_from_re(&[0, 10, 20, 50, 100, 0, 0, 0]);
    let e = estimate_pitch(&s, 8000).unwrap();
    assert_eq!(e.bin, 4);
    assert_eq!(e.freq_mhz, 4 * 8000 * 1000 / 8);
}

#[test]
fn plateau_shifts_vertex_halfway() {
    // Bins 1 and 2 are equally tall; the first of them is the reported
    // peak, and interpolation puts the vertex exactly half a bin to the
    // right: 1.5 * 8000 / 8 Hz.
    let s = spectrum_from_re(&[0, 100, 100, 100, 0, 0, 0, 0]);
    let e = estimate_pitch(&s, 8000).unwrap();
    assert_eq!(e.bin, 1);
    assert_eq!(e.freq_mhz, 1500000);
}

#[test]
fn parabolic_bins_recover_exact_vertex() {
    // Bins 1..3 lie on y(t) = -2*t*t + t + 100000 around the peak bin 2, so
    // the true vertex sits at bin 2.25 and the refined frequency is exactly
    // (2 + 1/4) * sr / n: with sr = 6400 and n = 8 that is 1800 mHz * 1000.
    let s = spectrum_from_re(&[0, 99997, 100000, 99999, 0, 0, 0, 0]);
    let e = estimate_pitch(&s, 6400).unwrap();
    assert_eq!(e.bin, 2);
    assert_eq!(e.magnitude, 100000);
    assert_eq!(e.freq_mhz, 1800000);
}

#[test]
fn pipeline_identifies_an_on_bin_tone() {
    // A cosine of 110 Hz placed exactly on bin 1 of a 64-point block at
    // 7040 Hz: the pipeline reports a frequency within a few milli-hertz of
    // 110 Hz and classifies it as A2.
    let n = 64;
    let samples: Vec<f64> = (0..n)
        .map(|i| (2.0 * std::f64::consts::PI * (i as f64) / (n as f64)).cos())
        .collect();
    let x: Vec<Complex> = samples
        .iter()
        .map(|s| Complex::new((s * SCALE as f64).round() as i64, 0))
        .collect();
    let mut w = Vec::new();
    for t in 0..n / 2 {
        let angle = -2.0 * std::f64::consts::PI * (t as f64) / (n as f64);
        w.push(Complex::new(
            (angle.cos() * SCALE as f64).round() as i64,
            (angle.sin() * SCALE as f64).round() as i64,
        ));
    }
    let spectrum = transform(&x, &w).unwrap();
    let e = estimate_pitch(&spectrum, 7040).unwrap();
    assert_eq!(e.bin, 1);
    assert!((e.freq_mhz - 110000).abs() < 2000, "got {} mHz", e.freq_mhz);
    let table = standard_guitar_table();
    let hit = closest_note(e.freq_mhz, &table, NOTE_THRESHOLD_MHZ).unwrap();
    assert_eq!(table[hit].name, "A2");
}
