use crate::complex::{scale_down, tdiv, Complex, Cpx, SCALE};
use crate::error::PitchError;
use vstd::arithmetic::div_mod::lemma_fundamental_div_mod;
use vstd::prelude::*;

verus! {

/// A sequence of fixed-point samples as unbounded integers.
pub open spec fn int_seq(s: Seq<i64>) -> Seq<int> {
    Seq::new(s.len(), |i: int| s[i] as int)
}

/// The result of applying a coefficient table to a real-valued block: sample
/// `i` becomes `c[i] * s[i]`, narrowed back to the working scale. For the
/// raised-cosine taper, `c[i]` holds the fixed-point value of
/// `0.5 * (1 - cos(2*pi*i/L))`.
pub open spec fn windowed(c: Seq<int>, s: Seq<int>) -> Seq<int> {
    Seq::new(s.len(), |i: int| tdiv(c[i] * s[i], SCALE as int))
}

/// The same taper over a complex block: both components of sample `i` are
/// scaled by `c[i]`, so a block that carries a real signal in its real parts
/// is tapered exactly as the real-valued form tapers it.
pub open spec fn windowed_cpx(c: Seq<int>, s: Seq<Cpx>) -> Seq<Cpx> {
    Seq::new(
        s.len(),
        |i: int|
            Cpx {
                re: tdiv(c[i] * s[i].re, SCALE as int),
                im: tdiv(c[i] * s[i].im, SCALE as int),
            },
    )
}

/// A well-formed window table: every coefficient lies in `[0, 1]` in fixed
/// point.
pub open spec fn coeffs_ok(c: Seq<int>) -> bool {
    forall|i: int| 0 <= i < c.len() ==> 0 <= #[trigger] c[i] <= SCALE as int
}

/// A window table and a block fit together: the block is nonempty and the
/// table has one well-formed coefficient per sample.
pub open spec fn valid_window(c: Seq<int>, len: nat) -> bool {
    &&& len >= 1
    &&& c.len() == len
    &&& coeffs_ok(c)
}

/// A coefficient in `[0, SCALE]` times a sample stays within the range that
/// narrowing accepts.
proof fn lemma_window_product_fits(c: int, v: int)
    by (nonlinear_arith)
    requires
        0 <= c <= SCALE as int,
        -(i64::MAX as int) <= v <= i64::MAX as int,
    ensures
        -(i64::MAX as int) * (SCALE as int) <= c * v <= (i64::MAX as int) * (SCALE as int),
{
}

/// Applies the raised-cosine taper, given as a fixed-point coefficient
/// table, to a real-valued block in place. An empty block, a table of the
/// wrong length or a coefficient outside `[0, 1]` is rejected before any
/// sample is touched.
#[verifier::loop_isolation(false)]
pub fn hann_window(samples: &mut Vec<i64>, coeffs: &Vec<i64>) -> (r: Result<(), PitchError>)
    requires
        forall|i: int|
            0 <= i < old(samples)@.len() ==> -(i64::MAX as int) <= #[trigger] old(samples)@[i],
    ensures
        match r {
            Ok(()) => {
                &&& valid_window(int_seq(coeffs@), old(samples)@.len() as nat)
                &&& int_seq(final(samples)@) == windowed(int_seq(coeffs@), int_seq(old(samples)@))
            },
            Err(e) => {
                &&& e == PitchError::InvalidInput
                &&& !valid_window(int_seq(coeffs@), old(samples)@.len() as nat)
                &&& final(samples)@ == old(samples)@
            },
        },
{
    if samples.len() == 0 || coeffs.len() != samples.len() {
        return Err(PitchError::InvalidInput);
    }
    if !coeffs_in_range(coeffs) {
        return Err(PitchError::InvalidInput);
    }
    let ghost orig = samples@;
    let ghost target = windowed(int_seq(coeffs@), int_seq(orig));
    let n = samples.len();
    let mut i: usize = 0;
    while i < n
        invariant
            0 <= i <= n,
            samples@.len() == n,
            forall|j: int| 0 <= j < i ==> samples@[j] == target[j],
            forall|j: int| i <= j < n ==> samples@[j] == orig[j],
        decreases n - i,
    {
        let c = coeffs[i];
        let v = samples[i];
        proof {
            assert(int_seq(coeffs@)[i as int] == c as int);
            assert(samples@[i as int] == old(samples)@[i as int]);
            lemma_window_product_fits(c as int, v as int);
        }
        let p = (c as i128) * (v as i128);
        samples[i] = scale_down(p);
        i += 1;
    }
    proof {
        assert(int_seq(samples@) =~= target);
    }
    Ok(())
}

/// Applies the raised-cosine taper to a complex block in place, scaling both
/// components of each sample so that the convention is the same whichever
/// form the caller windows.
#[verifier::loop_isolation(false)]
pub fn hann_window_cpx(samples: &mut Vec<Complex>, coeffs: &Vec<i64>) -> (r: Result<
    (),
    PitchError,
>)
    requires
        forall|i: int|
            0 <= i < old(samples)@.len() ==> -(i64::MAX as int) <= (#[trigger] old(
                samples,
            ).deep_view()[i]).re && -(i64::MAX as int) <= old(samples).deep_view()[i].im,
    ensures
        match r {
            Ok(()) => {
                &&& valid_window(int_seq(coeffs@), old(samples)@.len() as nat)
                &&& final(samples).deep_view() == windowed_cpx(int_seq(coeffs@), old(samples).deep_view())
            },
            Err(e) => {
                &&& e == PitchError::InvalidInput
                &&& !valid_window(int_seq(coeffs@), old(samples)@.len() as nat)
                &&& final(samples)@ == old(samples)@
            },
        },
{
    if samples.len() == 0 || coeffs.len() != samples.len() {
        return Err(PitchError::InvalidInput);
    }
    if !coeffs_in_range(coeffs) {
        return Err(PitchError::InvalidInput);
    }
    let ghost orig = samples.deep_view();
    let ghost target = windowed_cpx(int_seq(coeffs@), orig);
    let n = samples.len();
    let mut i: usize = 0;
    while i < n
        invariant
            0 <= i <= n,
            samples@.len() == n,
            forall|j: int| 0 <= j < i ==> samples.deep_view()[j] == target[j],
            forall|j: int| i <= j < n ==> samples.deep_view()[j] == orig[j],
        decreases n - i,
    {
        let c = coeffs[i];
        let v = samples[i];
        proof {
            assert(samples.deep_view()[i as int] == orig[i as int]);
            assert(orig[i as int] == old(samples).deep_view()[i as int]);
            assert(old(samples).deep_view()[i as int].re == v.re as int);
            assert(old(samples).deep_view()[i as int].im == v.im as int);
            assert(int_seq(coeffs@)[i as int] == c as int);
            lemma_window_product_fits(c as int, v.re as int);
            lemma_window_product_fits(c as int, v.im as int);
        }
        let ghost prev = samples.deep_view();
        let re = scale_down((c as i128) * (v.re as i128));
        let im = scale_down((c as i128) * (v.im as i128));
        samples[i] = Complex { re, im };
        proof {
            assert forall|j: int| 0 <= j < i + 1 implies samples.deep_view()[j] == target[j] by {
                if j < i {
                    assert(samples.deep_view()[j] == prev[j]);
                }
            }
            assert forall|j: int| i + 1 <= j < n implies samples.deep_view()[j] == orig[j] by {
                assert(samples.deep_view()[j] == prev[j]);
            }
        }
        i += 1;
    }
    proof {
        assert(samples.deep_view() =~= target);
    }
    Ok(())
}

/// Whether every coefficient lies in `[0, SCALE]`.
#[verifier::loop_isolation(false)]
fn coeffs_in_range(c: &Vec<i64>) -> (r: bool)
    ensures
        r == coeffs_ok(int_seq(c@)),
{
    let mut i: usize = 0;
    while i < c.len()
        invariant
            0 <= i <= c@.len(),
            forall|j: int| 0 <= j < i ==> 0 <= #[trigger] int_seq(c@)[j] <= SCALE as int,
        decreases c@.len() - i,
    {
        let v = c[i];
        if v < 0 || v > SCALE {
            proof {
                assert(int_seq(c@)[i as int] == v as int);
            }
            return false;
        }
        i += 1;
    }
    true
}

/// Tapering never grows a sample: every component of the tapered block
/// stays within any bound the input respected.
pub proof fn lemma_windowed_cpx_bounded(c: Seq<int>, s: Seq<Cpx>, b: int)
    requires
        coeffs_ok(c),
        c.len() == s.len(),
        crate::fft::in_bounds(s, b),
        b >= 0,
    ensures
        crate::fft::in_bounds(windowed_cpx(c, s), b),
{
    let out = windowed_cpx(c, s);
    assert forall|i: int|
        0 <= i < out.len() implies -b <= (#[trigger] out[i]).re <= b && -b <= out[i].im <= b by {
        assert(0 <= c[i] <= SCALE as int);
        assert(-b <= s[i].re <= b && -b <= s[i].im <= b);
        assert(-((SCALE as int) * b) <= c[i] * s[i].re <= (SCALE as int) * b && -((SCALE as int)
            * b) <= c[i] * s[i].im <= (SCALE as int) * b) by (nonlinear_arith)
            requires
                0 <= c[i] <= SCALE as int,
                -b <= s[i].re <= b,
                -b <= s[i].im <= b,
                b >= 0,
        ;
        crate::complex::lemma_tdiv_bound(c[i] * s[i].re, SCALE as int, b);
        crate::complex::lemma_tdiv_bound(c[i] * s[i].im, SCALE as int, b);
    }
}

/// Tapering twice is not tapering once: at any index whose coefficient is
/// strictly below one and whose single-pass result is still positive, a
/// second pass strictly shrinks the sample, so the double-windowed block
/// differs from the single-windowed block. (On an all-zero block the two
/// agree, so such an index is genuinely needed.)
pub proof fn lemma_window_not_idempotent(c: Seq<int>, s: Seq<int>, i: int)
    requires
        0 <= i < s.len(),
        0 <= c[i] < SCALE as int,
        windowed(c, s)[i] > 0,
    ensures
        windowed(c, windowed(c, s))[i] < windowed(c, s)[i],
        windowed(c, windowed(c, s)) != windowed(c, s),
{
    let y = windowed(c, s)[i];
    let p = c[i] * y;
    assert(0 <= p <= (SCALE as int) * y - y) by (nonlinear_arith)
        requires
            y > 0,
            0 <= c[i] < SCALE as int,
            p == c[i] * y,
    ;
    assert(windowed(c, windowed(c, s))[i] == tdiv(p, SCALE as int));
    assert(tdiv(p, SCALE as int) == p / (SCALE as int));
    lemma_fundamental_div_mod(p, SCALE as int);
    let q = p / (SCALE as int);
    assert(q < y) by (nonlinear_arith)
        requires
            p == (SCALE as int) * q + p % (SCALE as int),
            0 <= p % (SCALE as int),
            p <= (SCALE as int) * y - y,
            y > 0,
    ;
}

} // verus!
