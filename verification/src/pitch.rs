use crate::complex::{Complex, Cpx};
use crate::error::PitchError;
use crate::fft::{in_bounds, MAG_LIMIT, MAX_BLOCK};
use vstd::arithmetic::div_mod::{
    lemma_div_nonincreasing, lemma_div_pos_is_pos, lemma_fundamental_div_mod,
};
use vstd::prelude::*;

verus! {

/// One row of the note table: a name and its reference frequency in
/// milli-hertz. The table is plain read-only data handed to the classifier,
/// so any tuning can be tested.
pub struct NoteEntry {
    pub name: &'static str,
    pub freq_mhz: i64,
}

/// What the estimator reports for one block: the dominant bin of the scanned
/// lower half, the refined frequency in milli-hertz, and the value of the
/// dominant bin's real component.
#[derive(Clone, Copy, Debug, PartialEq, Eq, Structural)]
pub struct Estimate {
    pub bin: usize,
    pub freq_mhz: i64,
    pub magnitude: i64,
}

/// A generous cap on frequencies the classifier compares, far above any
/// audio content, so that distances stay representable.
pub const FREQ_MHZ_CAP: i64 = 1000000000000;

/// How many bins of a length-`n` spectrum the peak scan reads: the lower
/// half `[0, n/2]`, since for a real-valued input the upper half mirrors it.
pub open spec fn scan_len(n: nat) -> nat {
    n / 2 + 1
}

/// `m` is the first index of the maximum real component among bins
/// `[0, hi)`.
pub open spec fn is_peak(s: Seq<Cpx>, hi: int, m: int) -> bool {
    &&& 0 <= m < hi
    &&& forall|j: int| 0 <= j < hi ==> (#[trigger] s[j]).re <= s[m].re
    &&& forall|j: int| 0 <= j < m ==> (#[trigger] s[j]).re < s[m].re
}

/// The reported frequency in milli-hertz for peak bin `m` of a length-`n`
/// spectrum scanned up to `hi`, at integer sample rate `sr`. The coarse
/// estimate is the bin-centre frequency `m * sr / n`. Away from the scan
/// boundaries, parabolic interpolation through the three bins around the
/// peak shifts it by `(gamma - alpha) / (2 * (2*beta - alpha - gamma))` of a
/// bin; a flat neighbourhood (zero curvature) falls back to the coarse
/// value rather than dividing by zero.
pub open spec fn refined_freq_mhz(
    s: Seq<Cpx>,
    m: int,
    hi: int,
    sr: int,
    n: int,
) -> int {
    let coarse = m * sr * 1000 / n;
    if m == 0 || m == hi - 1 {
        coarse
    } else {
        let alpha = s[m - 1].re;
        let beta = s[m].re;
        let gamma = s[m + 1].re;
        let dd = 2 * beta - alpha - gamma;
        if dd == 0 {
            coarse
        } else {
            (2 * m * dd + (gamma - alpha)) * sr * 1000 / (2 * n * dd)
        }
    }
}

/// The distance from `f` to entry `j` of the table, in milli-hertz.
pub open spec fn note_dist(t: Seq<NoteEntry>, j: int, f: int) -> int {
    let d = t[j].freq_mhz - f;
    if d >= 0 {
        d
    } else {
        -d
    }
}

/// Locates the dominant bin of the spectrum's lower half and refines its
/// frequency by parabolic interpolation. The dominant bin is the first bin
/// of `[0, n/2]` whose real component is maximal; a peak at either boundary
/// of the scan keeps the coarse bin-centre frequency exactly, as does a
/// degenerate flat neighbourhood. An empty spectrum or a zero sample rate
/// is rejected.
#[verifier::loop_isolation(false)]
pub fn estimate_pitch(spectrum: &Vec<Complex>, sample_rate: u32) -> (r: Result<
    Estimate,
    PitchError,
>)
    requires
        spectrum@.len() <= MAX_BLOCK,
        in_bounds(spectrum.deep_view(), MAG_LIMIT as int),
    ensures
        match r {
            Ok(e) => {
                &&& spectrum@.len() >= 1
                &&& sample_rate >= 1
                &&& is_peak(
                    spectrum.deep_view(),
                    scan_len(spectrum@.len() as nat) as int,
                    e.bin as int,
                )
                &&& e.magnitude == spectrum.deep_view()[e.bin as int].re
                &&& e.freq_mhz == refined_freq_mhz(
                    spectrum.deep_view(),
                    e.bin as int,
                    scan_len(spectrum@.len() as nat) as int,
                    sample_rate as int,
                    spectrum@.len() as int,
                )
            },
            Err(err) => {
                &&& err == PitchError::InvalidInput
                &&& (spectrum@.len() == 0 || sample_rate == 0)
            },
        },
{
    let ghost dv = spectrum.deep_view();
    let n = spectrum.len();
    if n == 0 || sample_rate == 0 {
        return Err(PitchError::InvalidInput);
    }
    let hi = n / 2 + 1;
    let mut m: usize = 0;
    let mut i: usize = 1;
    while i < hi
        invariant
            1 <= i <= hi,
            0 <= m < i,
            forall|j: int| 0 <= j < i ==> (#[trigger] dv[j]).re <= dv[m as int].re,
            forall|j: int| 0 <= j < m ==> (#[trigger] dv[j]).re < dv[m as int].re,
        decreases hi - i,
    {
        if spectrum[i].re > spectrum[m].re {
            m = i;
        }
        i += 1;
    }
    let beta = spectrum[m].re;
    proof {
        assert(is_peak(dv, hi as int, m as int));
        assert((m as int) * (sample_rate as int) * 1000 <= (MAX_BLOCK as int) * (u32::MAX as int)
            * 1000 < u64::MAX) by (nonlinear_arith)
            requires
                0 <= m as int <= MAX_BLOCK as int,
                0 <= sample_rate as int <= u32::MAX as int,
        ;
    }
    let num64: u64 = (m as u64) * (sample_rate as u64) * 1000;
    let coarse64: u64 = num64 / (n as u64);
    proof {
        lemma_div_nonincreasing(num64 as int, n as int);
        lemma_div_pos_is_pos(num64 as int, n as int);
    }
    let coarse = coarse64 as i64;
    if m == 0 || m == hi - 1 {
        return Ok(Estimate { bin: m, freq_mhz: coarse, magnitude: beta });
    }
    let alpha = spectrum[m - 1].re;
    let gamma = spectrum[m + 1].re;
    proof {
        assert(dv[m as int - 1].re == alpha as int && dv[m as int].re == beta as int && dv[m as int
            + 1].re == gamma as int);
        assert(dv[m as int - 1].re <= dv[m as int].re && dv[m as int + 1].re <= dv[m as int].re);
        assert(-(MAG_LIMIT as int) <= dv[m as int - 1].re <= MAG_LIMIT as int);
        assert(-(MAG_LIMIT as int) <= dv[m as int].re <= MAG_LIMIT as int);
        assert(-(MAG_LIMIT as int) <= dv[m as int + 1].re <= MAG_LIMIT as int);
    }
    let dd: i128 = 2 * (beta as i128) - (alpha as i128) - (gamma as i128);
    if dd == 0 {
        return Ok(Estimate { bin: m, freq_mhz: coarse, magnitude: beta });
    }
    proof {
        assert(dd as int > 0);
        assert((gamma as int) - (alpha as int) >= -(dd as int));
        assert((gamma as int) - (alpha as int) <= dd as int);
        assert(dd as int <= 4 * (MAG_LIMIT as int));
        assert(2 * (dd as int) <= 2 * (m as int) * (dd as int) <= 2 * (MAX_BLOCK as int) * (4 * (
        MAG_LIMIT as int)) && 2 * (m as int) * (dd as int) <= 2 * (MAX_BLOCK as int) * (dd as int))
            by (nonlinear_arith)
            requires
                1 <= m as int <= MAX_BLOCK as int,
                0 < dd as int <= 4 * (MAG_LIMIT as int),
        ;
        assert(0 < 2 * (n as int) * (dd as int) <= 2 * (MAX_BLOCK as int) * (4 * (
        MAG_LIMIT as int))) by (nonlinear_arith)
            requires
                1 <= n as int <= MAX_BLOCK as int,
                0 < dd as int <= 4 * (MAG_LIMIT as int),
        ;
    }
    let p: i128 = 2 * (m as i128) * dd + ((gamma as i128) - (alpha as i128));
    let q: i128 = 2 * (n as i128) * dd;
    proof {
        assert(p as int >= dd as int > 0);
        assert(p as int <= 2 * (MAX_BLOCK as int) * (dd as int) + (dd as int));
        assert(0 < p as int * (sample_rate as int) * 1000
            < 0x40000000000000000000000000000000) by (nonlinear_arith)
            requires
                0 < p as int <= 2 * (MAX_BLOCK as int) * (dd as int) + (dd as int),
                0 < dd as int <= 4 * (MAG_LIMIT as int),
                0 < sample_rate as int <= u32::MAX as int,
        ;
    }
    let num: i128 = p * (sample_rate as i128) * 1000;
    let freq64: u128 = (num as u128) / (q as u128);
    proof {
        let ni = num as int;
        let qi = q as int;
        let cap = (sample_rate as int) * 1000;
        assert(p as int <= (2 * (m as int) + 1) * (dd as int)) by (nonlinear_arith)
            requires
                p as int == 2 * (m as int) * (dd as int) + ((gamma as int) - (alpha as int)),
                (gamma as int) - (alpha as int) <= dd as int,
        ;
        lemma_fundamental_div_mod(ni, qi);
        assert(ni < qi * (cap + 1)) by (nonlinear_arith)
            requires
                ni == p as int * (sample_rate as int) * 1000,
                qi == 2 * (n as int) * (dd as int),
                cap == (sample_rate as int) * 1000,
                p as int <= (2 * (m as int) + 1) * (dd as int),
                2 * (m as int) + 1 < 2 * (n as int),
                dd as int > 0,
                sample_rate as int >= 1,
                m as int >= 1,
                n as int >= 1,
        ;
        assert(ni / qi <= cap) by (nonlinear_arith)
            requires
                ni == qi * (ni / qi) + ni % qi,
                0 <= ni % qi,
                ni < qi * (cap + 1),
                qi > 0,
                cap > 0,
        ;
        lemma_div_pos_is_pos(ni, qi);
        assert(cap <= (u32::MAX as int) * 1000 < i64::MAX);
    }
    let freq = freq64 as i64;
    proof {
        assert(freq as int == refined_freq_mhz(
            dv,
            m as int,
            hi as int,
            sample_rate as int,
            n as int,
        ));
    }
    Ok(Estimate { bin: m, freq_mhz: freq, magnitude: beta })
}

/// Scans the table for the entry closest to `freq_mhz` and returns its index
/// when that smallest distance is strictly below the threshold; among equally
/// close entries the earliest wins. Returns `None` when no entry comes
/// within the threshold.
#[verifier::loop_isolation(false)]
pub fn closest_note(freq_mhz: i64, table: &Vec<NoteEntry>, threshold_mhz: i64) -> (r: Option<
    usize,
>)
    requires
        -FREQ_MHZ_CAP <= freq_mhz <= FREQ_MHZ_CAP,
        forall|j: int|
            0 <= j < table@.len() ==> -FREQ_MHZ_CAP <= (#[trigger] table@[j]).freq_mhz
                <= FREQ_MHZ_CAP,
    ensures
        match r {
            Some(i) => {
                &&& (i as int) < table@.len()
                &&& note_dist(table@, i as int, freq_mhz as int) < threshold_mhz
                &&& forall|j: int|
                    0 <= j < table@.len() ==> #[trigger] note_dist(table@, j, freq_mhz as int)
                        >= note_dist(table@, i as int, freq_mhz as int)
                &&& forall|j: int|
                    0 <= j < i as int ==> #[trigger] note_dist(table@, j, freq_mhz as int)
                        > note_dist(table@, i as int, freq_mhz as int)
            },
            None => forall|j: int|
                0 <= j < table@.len() ==> #[trigger] note_dist(table@, j, freq_mhz as int)
                    >= threshold_mhz,
        },
{
    let mut best: usize = 0;
    let mut best_d: i64 = 0;
    let mut found = false;
    let mut j: usize = 0;
    while j < table.len()
        invariant
            0 <= j <= table@.len(),
            found ==> {
                &&& (best as int) < j as int
                &&& best_d == note_dist(table@, best as int, freq_mhz as int)
                &&& best_d < threshold_mhz
                &&& forall|k: int|
                    0 <= k < j as int ==> #[trigger] note_dist(table@, k, freq_mhz as int)
                        >= best_d as int
                &&& forall|k: int|
                    0 <= k < best as int ==> #[trigger] note_dist(table@, k, freq_mhz as int)
                        > best_d as int
            },
            !found ==> forall|k: int|
                0 <= k < j as int ==> #[trigger] note_dist(table@, k, freq_mhz as int)
                    >= threshold_mhz,
        decreases table@.len() - j as int,
    {
        let d = table[j].freq_mhz - freq_mhz;
        let ad = if d < 0 {
            -d
        } else {
            d
        };
        proof {
            assert(ad as int == note_dist(table@, j as int, freq_mhz as int));
        }
        if ad < threshold_mhz && (!found || ad < best_d) {
            best = j;
            best_d = ad;
            found = true;
        }
        j += 1;
    }
    if found {
        Some(best)
    } else {
        None
    }
}

/// The reference tuning of a six-string guitar's open strings that the
/// pipeline classifies against by default, in milli-hertz.
pub fn standard_guitar_table() -> (t: Vec<NoteEntry>)
    ensures
        t@.len() == 5,
        t@[0].name@ == "E2"@ && t@[0].freq_mhz == 82410,
        t@[1].name@ == "A2"@ && t@[1].freq_mhz == 110000,
        t@[2].name@ == "D3"@ && t@[2].freq_mhz == 146830,
        t@[3].name@ == "G3"@ && t@[3].freq_mhz == 196000,
        t@[4].name@ == "E4"@ && t@[4].freq_mhz == 329630,
{
    let mut t: Vec<NoteEntry> = Vec::new();
    t.push(NoteEntry { name: "E2", freq_mhz: 82410 });
    t.push(NoteEntry { name: "A2", freq_mhz: 110000 });
    t.push(NoteEntry { name: "D3", freq_mhz: 146830 });
    t.push(NoteEntry { name: "G3", freq_mhz: 196000 });
    t.push(NoteEntry { name: "E4", freq_mhz: 329630 });
    t
}

/// The default classification threshold: 50 Hz, in milli-hertz.
pub const NOTE_THRESHOLD_MHZ: i64 = 50000;

/// Parabolic interpolation is exact on an exact parabola. Measure bin
/// offsets `t` from the peak, so the three bins hold `alpha = y(-1)`,
/// `beta = y(0)`, `gamma = y(1)` of `y(t) = a*t*t + b*t + c` with `a != 0`.
/// Then the curvature term is `2*beta - alpha - gamma == -2*a`, the
/// interpolation offset `(gamma - alpha) / (2 * (2*beta - alpha - gamma))`
/// equals the parabola's vertex `-b / (2*a)` exactly as rationals (first
/// cross-multiplied identity), and the refined frequency rational
/// `(2*m*dd + (gamma - alpha)) / (2*n*dd)` (in units of `sr * 1000`) equals
/// the vertex frequency `(m - b/(2*a)) / n` exactly as rationals (second
/// identity). The executable estimator returns the floor of that rational in
/// milli-hertz; at a scan boundary it returns the coarse bin frequency
/// exactly, by definition of [`refined_freq_mhz`].
pub proof fn lemma_parabolic_vertex(a: int, b: int, c: int, alpha: int, beta: int, gamma: int, m: int, n: int)
    by (nonlinear_arith)
    requires
        a != 0,
        alpha == a - b + c,
        beta == c,
        gamma == a + b + c,
    ensures
        2 * beta - alpha - gamma == -2 * a,
        (gamma - alpha) * (2 * a) == (-b) * (2 * (2 * beta - alpha - gamma)),
        (2 * m * (2 * beta - alpha - gamma) + (gamma - alpha)) * (2 * a * n) == (2 * a * m - b) * (
        2 * n * (2 * beta - alpha - gamma)),
{
}

} // verus!
