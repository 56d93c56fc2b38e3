use crate::complex::Complex;
use crate::error::PitchError;
use crate::fft::{fft_rec, in_bounds, transform, valid_block, MAX_BLOCK, SAMPLE_LIMIT};
use crate::pitch::{estimate_pitch, is_peak, refined_freq_mhz, scan_len, Estimate};
use crate::window::{
    hann_window_cpx, int_seq, lemma_windowed_cpx_bounded, valid_window, windowed_cpx,
};
use vstd::prelude::*;

verus! {

/// Runs one captured block through the whole pipeline: tapers it, transforms
/// it, and estimates the dominant pitch. The block is handed over by value —
/// the caller keeps no alias into it — and is consumed by the analysis.
/// The result pins the estimate to the spectrum of the tapered block: the
/// reported bin is the first maximum of the scanned lower half, the
/// magnitude is that bin's real component, and the frequency is the
/// interpolated bin position in milli-hertz.
pub fn analyze_block(
    block: Vec<Complex>,
    coeffs: &Vec<i64>,
    w: &Vec<Complex>,
    sample_rate: u32,
) -> (r: Result<Estimate, PitchError>)
    requires
        block@.len() <= MAX_BLOCK,
        w@.len() <= MAX_BLOCK,
        in_bounds(block.deep_view(), SAMPLE_LIMIT as int),
    ensures
        ({
            let len = block@.len() as nat;
            let tapered = windowed_cpx(int_seq(coeffs@), block.deep_view());
            let spectrum = fft_rec(tapered, w.deep_view(), 1);
            match r {
                Ok(e) => {
                    &&& valid_window(int_seq(coeffs@), len)
                    &&& valid_block(len, w.deep_view())
                    &&& sample_rate >= 1
                    &&& is_peak(spectrum, scan_len(len) as int, e.bin as int)
                    &&& e.magnitude == spectrum[e.bin as int].re
                    &&& e.freq_mhz == refined_freq_mhz(
                        spectrum,
                        e.bin as int,
                        scan_len(len) as int,
                        sample_rate as int,
                        len as int,
                    )
                },
                Err(err) => {
                    &&& err == PitchError::InvalidInput
                    &&& (!valid_window(int_seq(coeffs@), len) || !valid_block(len, w.deep_view())
                        || sample_rate == 0)
                },
            }
        }),
{
    let ghost orig = block.deep_view();
    if sample_rate == 0 {
        return Err(PitchError::InvalidInput);
    }
    let mut b = block;
    match hann_window_cpx(&mut b, coeffs) {
        Ok(()) => (),
        Err(e) => {
            return Err(e);
        },
    }
    proof {
        assert(b.deep_view() == windowed_cpx(int_seq(coeffs@), orig));
        assert(b.deep_view().len() == orig.len());
        assert(b@.len() == orig.len());
        lemma_windowed_cpx_bounded(int_seq(coeffs@), orig, SAMPLE_LIMIT as int);
    }
    let spectrum = match transform(&b, w) {
        Ok(s) => s,
        Err(e) => {
            return Err(e);
        },
    };
    match estimate_pitch(&spectrum, sample_rate) {
        Ok(e) => Ok(e),
        Err(e) => Err(e),
    }
}

} // verus!
