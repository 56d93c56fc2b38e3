use crate::complex::{
    cadd, cmul, cneg, cone, czero, lemma_cmul_bounded, lemma_cmul_one, lemma_cmul_zero, Complex,
    Cpx, SCALE,
};
use crate::error::PitchError;
use vstd::prelude::*;

verus! {

/// The largest block length the transform accepts. Together with
/// [`SAMPLE_LIMIT`] it keeps every intermediate of the recursion inside an
/// `i64` component.
pub const MAX_BLOCK: usize = 262144;

/// The largest magnitude a component of a transform input may carry: four
/// full-scale units, ample for audio samples in `[-1.0, 1.0]`.
pub const SAMPLE_LIMIT: i64 = 262144;

/// `growth(MAX_BLOCK)`, that is 3 raised to the 18th power: the worst-case
/// factor by which the recursion grows a component bound.
pub const GROWTH_MAX: i64 = 387420489;

/// A component bound that holds of every spectrum the transform returns on
/// inputs within [`SAMPLE_LIMIT`]: `GROWTH_MAX * SAMPLE_LIMIT`.
pub const MAG_LIMIT: i64 = 387420489 * 262144;

/// Whether `n` is a power of two; zero is not.
pub open spec fn pow2_len(n: nat) -> bool
    decreases n,
{
    if n == 0 {
        false
    } else if n == 1 {
        true
    } else {
        n % 2 == 0 && pow2_len(n / 2)
    }
}

/// The length-`n` subsequence of `v` that starts at `off` and advances by
/// `s`: the view through which the recursion reads its halves without
/// copying.
pub open spec fn stride_take(v: Seq<Cpx>, off: int, n: nat, s: int) -> Seq<Cpx> {
    Seq::new(n, |i: int| v[off + i * s])
}

/// The even-indexed half of a sequence.
pub open spec fn evens(v: Seq<Cpx>) -> Seq<Cpx> {
    Seq::new(v.len() / 2, |i: int| v[2 * i])
}

/// The odd-indexed half of a sequence.
pub open spec fn odds(v: Seq<Cpx>) -> Seq<Cpx> {
    Seq::new(v.len() / 2, |i: int| v[2 * i + 1])
}

/// The decimation-in-time transform of `v` against the twiddle table `w`,
/// where `w[t]` holds the fixed-point value of `exp(-2*pi*i * t / N)` for the
/// top-level block length `N == 2 * w.len()`. A subproblem read at stride `s`
/// has size `n == N / s`, so its twiddle for index `k` — angle
/// `-2*pi*k / n` — sits at table index `k * s`. Each level splits by index
/// parity, transforms the halves, and combines
/// `out[k] = even[k] + w*odd[k]`, `out[k + n/2] = even[k] - w*odd[k]`.
pub open spec fn fft_rec(v: Seq<Cpx>, w: Seq<Cpx>, s: int) -> Seq<Cpx>
    decreases v.len(),
{
    if v.len() <= 1 {
        v
    } else {
        let h = (v.len() / 2) as int;
        let e = fft_rec(evens(v), w, 2 * s);
        let o = fft_rec(odds(v), w, 2 * s);
        Seq::new(
            v.len(),
            |k: int|
                if k < h {
                    cadd(e[k], cmul(w[k * s], o[k]))
                } else {
                    cadd(e[k - h], cneg(cmul(w[(k - h) * s], o[k - h])))
                },
        )
    }
}

/// The factor by which the recursion can grow a component bound: each level
/// adds one half to twice the other, so the bound triples per level.
pub open spec fn growth(n: nat) -> int
    decreases n,
{
    if n <= 1 {
        1
    } else {
        3 * growth(n / 2)
    }
}

/// Every component of every element of `v` lies within `[-b, b]`.
pub open spec fn in_bounds(v: Seq<Cpx>, b: int) -> bool {
    forall|i: int|
        0 <= i < v.len() ==> -b <= (#[trigger] v[i]).re <= b && -b <= v[i].im <= b
}

/// A well-formed transform input: a nonempty power-of-two block with a
/// twiddle table of half its length whose entries are unit-magnitude
/// fixed-point values and whose first entry, `exp(0)`, is the fixed-point
/// one.
pub open spec fn valid_block(n: nat, w: Seq<Cpx>) -> bool {
    &&& n >= 1
    &&& pow2_len(n)
    &&& w.len() == n / 2
    &&& in_bounds(w, SCALE as int)
    &&& w.len() >= 1 ==> w[0] == cone()
}

pub proof fn lemma_growth_pos(n: nat)
    ensures
        growth(n) >= 1,
    decreases n,
{
    if n > 1 {
        lemma_growth_pos(n / 2);
    }
}

pub proof fn lemma_growth_mono(a: nat, b: nat)
    requires
        a <= b,
    ensures
        growth(a) <= growth(b),
    decreases b,
{
    if a <= 1 {
        lemma_growth_pos(b);
    } else {
        lemma_growth_mono(a / 2, b / 2);
    }
}

/// On any block the transform accepts, the growth factor stays within
/// [`GROWTH_MAX`].
pub proof fn lemma_growth_cap(n: nat)
    requires
        n <= MAX_BLOCK,
    ensures
        1 <= growth(n) <= GROWTH_MAX,
{
    lemma_growth_pos(n);
    lemma_growth_mono(n, MAX_BLOCK as nat);
    assert(growth(1nat) == 1);
    assert(growth(2nat) == 3);
    assert(growth(4nat) == 9);
    assert(growth(8nat) == 27);
    assert(growth(16nat) == 81);
    assert(growth(32nat) == 243);
    assert(growth(64nat) == 729);
    assert(growth(128nat) == 2187);
    assert(growth(256nat) == 6561);
    assert(growth(512nat) == 19683);
    assert(growth(1024nat) == 59049);
    assert(growth(2048nat) == 177147);
    assert(growth(4096nat) == 531441);
    assert(growth(8192nat) == 1594323);
    assert(growth(16384nat) == 4782969);
    assert(growth(32768nat) == 14348907);
    assert(growth(65536nat) == 43046721);
    assert(growth(131072nat) == 129140163);
    assert(growth(262144nat) == 387420489);
}

/// Reading the even-indexed half of a strided view doubles the stride.
proof fn lemma_stride_evens(v: Seq<Cpx>, off: int, n: nat, s: int)
    requires
        n % 2 == 0,
    ensures
        evens(stride_take(v, off, n, s)) == stride_take(v, off, n / 2, 2 * s),
{
    let lhs = evens(stride_take(v, off, n, s));
    let rhs = stride_take(v, off, n / 2, 2 * s);
    assert forall|i: int| 0 <= i < n / 2 implies lhs[i] == rhs[i] by {
        assert((2 * i) * s == i * (2 * s)) by (nonlinear_arith);
    }
    assert(lhs =~= rhs);
}

/// Reading the odd-indexed half of a strided view doubles the stride and
/// moves the start by one step.
proof fn lemma_stride_odds(v: Seq<Cpx>, off: int, n: nat, s: int)
    requires
        n % 2 == 0,
    ensures
        odds(stride_take(v, off, n, s)) == stride_take(v, off + s, n / 2, 2 * s),
{
    let lhs = odds(stride_take(v, off, n, s));
    let rhs = stride_take(v, off + s, n / 2, 2 * s);
    assert forall|i: int| 0 <= i < n / 2 implies lhs[i] == rhs[i] by {
        assert((2 * i + 1) * s == s + i * (2 * s)) by (nonlinear_arith);
    }
    assert(lhs =~= rhs);
}

/// Whether `n` is a power of two. Zero is rejected.
pub fn is_power_of_two(n: usize) -> (r: bool)
    ensures
        r == pow2_len(n as nat),
{
    if n == 0 {
        return false;
    }
    let mut m: usize = n;
    while m > 1
        invariant
            1 <= m,
            pow2_len(n as nat) == pow2_len(m as nat),
        decreases m,
    {
        if m % 2 == 1 {
            return false;
        }
        m = m / 2;
    }
    true
}

/// The recursive decimation-in-time transform over the strided view of `x`
/// that starts at `off`, has `n` elements and advances by `s`. The twiddle
/// table `w` belongs to the top-level block length `n * s == 2 * w.len()`,
/// so the twiddle angle always matches the size of the current subproblem.
/// The input is only read; the result is freshly allocated.
#[verifier::loop_isolation(false)]
pub fn ditfft2(x: &Vec<Complex>, off: usize, n: usize, s: usize, w: &Vec<Complex>) -> (out: Vec<
    Complex,
>)
    requires
        pow2_len(n as nat),
        n <= MAX_BLOCK,
        s >= 1,
        w@.len() <= MAX_BLOCK,
        n >= 2 ==> n * s <= 2 * w@.len(),
        off + (n - 1) * s < x@.len(),
        in_bounds(x.deep_view(), SAMPLE_LIMIT as int),
        in_bounds(w.deep_view(), SCALE as int),
    ensures
        out@.len() == n,
        out.deep_view() == fft_rec(
            stride_take(x.deep_view(), off as int, n as nat, s as int),
            w.deep_view(),
            s as int,
        ),
        in_bounds(out.deep_view(), growth(n as nat) * (SAMPLE_LIMIT as int)),
    decreases n,
{
    let ghost v = stride_take(x.deep_view(), off as int, n as nat, s as int);
    let ghost wv = w.deep_view();
    if n == 1 {
        let mut out: Vec<Complex> = Vec::new();
        out.push(x[off]);
        proof {
            assert(off as int + 0 * (s as int) == off as int);
            assert(v[0] == x.deep_view()[off as int]);
            assert(out.deep_view() =~= fft_rec(v, wv, s as int));
        }
        return out;
    }
    let h = n / 2;
    proof {
        assert(n % 2 == 0);
        assert(2 * s <= n * s && h * (2 * s) == n * s && (h - 1) * (2 * s) <= (n - 1) * s && s + (h
            - 1) * (2 * s) == (n - 1) * s && s <= (n - 1) * s) by (nonlinear_arith)
            requires
                n >= 2,
                s >= 1,
                h == n / 2,
                n % 2 == 0,
        ;
    }
    let xl = x.len();
    proof {
        assert(off + s <= off + (n - 1) * s < xl);
    }
    let even = ditfft2(x, off, h, s * 2, w);
    let odd = ditfft2(x, off + s, h, s * 2, w);
    let ghost e = even.deep_view();
    let ghost o = odd.deep_view();
    let ghost vb = growth(h as nat) * (SAMPLE_LIMIT as int);
    let ghost nb = growth(n as nat) * (SAMPLE_LIMIT as int);
    proof {
        lemma_stride_evens(x.deep_view(), off as int, n as nat, s as int);
        lemma_stride_odds(x.deep_view(), off as int, n as nat, s as int);
        assert(e == fft_rec(evens(v), wv, 2 * (s as int)));
        assert(o == fft_rec(odds(v), wv, 2 * (s as int)));
        lemma_growth_cap(h as nat);
        lemma_growth_cap(n as nat);
        assert(growth(n as nat) == 3 * growth(h as nat));
        assert(vb <= GROWTH_MAX * (SAMPLE_LIMIT as int) && 3 * vb == nb && 0 <= 2 * vb <= i64::MAX
            && 1 <= vb && nb <= MAG_LIMIT) by (nonlinear_arith)
            requires
                1 <= growth(h as nat) <= GROWTH_MAX,
                1 <= growth(n as nat) <= GROWTH_MAX,
                vb == growth(h as nat) * (SAMPLE_LIMIT as int),
                nb == growth(n as nat) * (SAMPLE_LIMIT as int),
                growth(n as nat) == 3 * growth(h as nat),
        ;
    }
    let ghost target = fft_rec(v, wv, s as int);
    let mut lows: Vec<Complex> = Vec::new();
    let mut highs: Vec<Complex> = Vec::new();
    let mut k: usize = 0;
    while k < h
        invariant
            0 <= k <= h,
            lows@.len() == k,
            highs@.len() == k,
            forall|j: int| 0 <= j < k ==> lows.deep_view()[j] == target[j],
            forall|j: int| 0 <= j < k ==> highs.deep_view()[j] == target[h + j],
            in_bounds(lows.deep_view(), nb),
            in_bounds(highs.deep_view(), nb),
        decreases h - k,
    {
        proof {
            assert(k * s < w@.len() && (k as int) * (s as int) == (k * s) as int) by (
            nonlinear_arith)
                requires
                    0 <= k < h,
                    s >= 1,
                    h == n / 2,
                    n % 2 == 0,
                    n * s <= 2 * w@.len(),
            ;
            lemma_cmul_bounded(wv[(k as int) * (s as int)], o[k as int], vb);
            assert(-vb <= e[k as int].re <= vb && -vb <= e[k as int].im <= vb);
            assert(-vb <= o[k as int].re <= vb && -vb <= o[k as int].im <= vb);
        }
        let q = w[k * s].mul(odd[k]);
        let lo = even[k].add(q);
        let hi = even[k].add(q.neg());
        proof {
            let ki = k as int;
            assert(w@[(k * s) as int]@ == wv[ki * (s as int)]);
            assert(even@[ki]@ == e[ki]);
            assert(odd@[ki]@ == o[ki]);
            assert(target[ki] == cadd(e[ki], cmul(wv[ki * (s as int)], o[ki])));
            assert(target[h + ki] == cadd(e[ki], cneg(cmul(wv[ki * (s as int)], o[ki]))));
            assert(lo@ == target[ki]);
            assert(hi@ == target[h + ki]);
        }
        let ghost lprev = lows.deep_view();
        let ghost hprev = highs.deep_view();
        lows.push(lo);
        highs.push(hi);
        proof {
            let ki = k as int;
            assert forall|j: int| 0 <= j <= ki implies lows.deep_view()[j] == target[j] && highs
                .deep_view()[j] == target[h + j] by {
                if j < ki {
                    assert(lows.deep_view()[j] == lprev[j]);
                    assert(highs.deep_view()[j] == hprev[j]);
                } else {
                    assert(lows.deep_view()[j] == lo@);
                    assert(highs.deep_view()[j] == hi@);
                }
            }
            assert forall|j: int|
                0 <= j <= ki implies -nb <= (#[trigger] lows.deep_view()[j]).re <= nb && -nb
                <= lows.deep_view()[j].im <= nb && -nb <= (#[trigger] highs.deep_view()[j]).re <= nb
                && -nb <= highs.deep_view()[j].im <= nb by {
                if j < ki {
                    assert(lows.deep_view()[j] == lprev[j]);
                    assert(highs.deep_view()[j] == hprev[j]);
                } else {
                    assert(lows.deep_view()[j] == lo@);
                    assert(highs.deep_view()[j] == hi@);
                }
            }
        }
        k += 1;
    }
    let ghost lseq = lows@;
    let ghost hseq = highs@;
    let ghost ldv = lows.deep_view();
    let ghost hdv = highs.deep_view();
    let mut out = lows;
    out.append(&mut highs);
    proof {
        assert(out@ == lseq + hseq);
        assert(target.len() == n);
        assert forall|i: int| 0 <= i < n implies out.deep_view()[i] == target[i] by {
            if i < h {
                assert(out@[i] == lseq[i]);
                assert(out.deep_view()[i] == ldv[i]);
            } else {
                assert(out@[i] == hseq[i - h]);
                assert(out.deep_view()[i] == hdv[i - h]);
                assert(hdv[i - h] == target[h + (i - h)]);
            }
        }
        assert(out.deep_view() =~= target);
        assert forall|i: int|
            0 <= i < n implies -nb <= (#[trigger] out.deep_view()[i]).re <= nb && -nb
            <= out.deep_view()[i].im <= nb by {
            if i < h {
                assert(out.deep_view()[i] == ldv[i]);
            } else {
                assert(out.deep_view()[i] == hdv[i - h]);
            }
        }
    }
    out
}

/// The spectral transform: `transform(x, w)` is the decimation-in-time
/// Fourier transform of the whole block `x` against the twiddle table `w`.
/// It rejects, before any computation, a block whose length is zero or not a
/// power of two, and a table that does not belong to that length; it never
/// truncates or pads. The input block is not mutated.
pub fn transform(x: &Vec<Complex>, w: &Vec<Complex>) -> (r: Result<Vec<Complex>, PitchError>)
    requires
        x@.len() <= MAX_BLOCK,
        w@.len() <= MAX_BLOCK,
        in_bounds(x.deep_view(), SAMPLE_LIMIT as int),
    ensures
        match r {
            Ok(out) => {
                &&& valid_block(x@.len() as nat, w.deep_view())
                &&& out@.len() == x@.len()
                &&& out.deep_view() == fft_rec(x.deep_view(), w.deep_view(), 1)
                &&& in_bounds(out.deep_view(), MAG_LIMIT as int)
            },
            Err(e) => {
                &&& e == PitchError::InvalidInput
                &&& !valid_block(x@.len() as nat, w.deep_view())
            },
        },
{
    let n = x.len();
    if n == 0 {
        return Err(PitchError::InvalidInput);
    }
    if !is_power_of_two(n) {
        return Err(PitchError::InvalidInput);
    }
    if w.len() != n / 2 {
        return Err(PitchError::InvalidInput);
    }
    if !table_in_range(w) {
        return Err(PitchError::InvalidInput);
    }
    if w.len() >= 1 && !(w[0].re == SCALE && w[0].im == 0) {
        proof {
            assert(w.deep_view()[0] != cone());
        }
        return Err(PitchError::InvalidInput);
    }
    let out = ditfft2(x, 0, n, 1, w);
    proof {
        assert(stride_take(x.deep_view(), 0, n as nat, 1) =~= x.deep_view());
        lemma_growth_cap(n as nat);
        assert(growth(n as nat) * (SAMPLE_LIMIT as int) <= MAG_LIMIT as int) by (nonlinear_arith)
            requires
                1 <= growth(n as nat) <= GROWTH_MAX,
        ;
        assert(in_bounds(out.deep_view(), MAG_LIMIT as int));
    }
    Ok(out)
}

/// Whether every entry of a twiddle table lies within one fixed-point unit.
#[verifier::loop_isolation(false)]
fn table_in_range(w: &Vec<Complex>) -> (r: bool)
    ensures
        r == in_bounds(w.deep_view(), SCALE as int),
{
    let mut i: usize = 0;
    while i < w.len()
        invariant
            0 <= i <= w@.len(),
            forall|j: int|
                0 <= j < i ==> -(SCALE as int) <= (#[trigger] w.deep_view()[j]).re <= SCALE as int
                    && -(SCALE as int) <= w.deep_view()[j].im <= SCALE as int,
        decreases w@.len() - i,
    {
        let c = w[i];
        if c.re < -SCALE || c.re > SCALE || c.im < -SCALE || c.im > SCALE {
            proof {
                assert(w.deep_view()[i as int].re == c.re && w.deep_view()[i as int].im == c.im);
            }
            return false;
        }
        i += 1;
    }
    true
}

/// Transforming an all-zero block of any valid power-of-two length yields an
/// all-zero spectrum of the same length, whatever the twiddle table holds.
pub proof fn lemma_transform_of_zeros(v: Seq<Cpx>, w: Seq<Cpx>, s: int)
    requires
        pow2_len(v.len()),
        forall|i: int| 0 <= i < v.len() ==> #[trigger] v[i] == czero(),
    ensures
        fft_rec(v, w, s).len() == v.len(),
        forall|k: int| 0 <= k < v.len() ==> #[trigger] fft_rec(v, w, s)[k] == czero(),
    decreases v.len(),
{
    if v.len() <= 1 {
    } else {
        let h = (v.len() / 2) as int;
        lemma_transform_of_zeros(evens(v), w, 2 * s);
        lemma_transform_of_zeros(odds(v), w, 2 * s);
        let e = fft_rec(evens(v), w, 2 * s);
        let o = fft_rec(odds(v), w, 2 * s);
        assert forall|k: int| 0 <= k < v.len() implies #[trigger] fft_rec(v, w, s)[k] == czero()
        by {
            if k < h {
                lemma_cmul_zero(w[k * s]);
                assert(o[k] == czero());
            } else {
                lemma_cmul_zero(w[(k - h) * s]);
                assert(o[k - h] == czero());
            }
        }
    }
}

/// Transforming a constant block `[c, c, ..., c]` of any valid power-of-two
/// length concentrates everything in bin zero: that bin holds exactly
/// `len * c`, every other bin is exactly zero. Only the table's first entry
/// matters, and it is the fixed-point one in any well-formed table.
pub proof fn lemma_transform_of_constant(v: Seq<Cpx>, w: Seq<Cpx>, s: int, c: Cpx)
    requires
        pow2_len(v.len()),
        forall|i: int| 0 <= i < v.len() ==> #[trigger] v[i] == c,
        v.len() >= 2 ==> w.len() >= 1 && w[0] == cone(),
    ensures
        fft_rec(v, w, s).len() == v.len(),
        fft_rec(v, w, s)[0] == (Cpx { re: v.len() * c.re, im: v.len() * c.im }),
        forall|k: int| 1 <= k < v.len() ==> #[trigger] fft_rec(v, w, s)[k] == czero(),
    decreases v.len(),
{
    if v.len() <= 1 {
        assert(fft_rec(v, w, s)[0] == c);
        assert(1 * c.re == c.re && 1 * c.im == c.im);
    } else {
        let h = (v.len() / 2) as int;
        assert forall|i: int| 0 <= i < evens(v).len() implies #[trigger] evens(v)[i] == c by {}
        assert forall|i: int| 0 <= i < odds(v).len() implies #[trigger] odds(v)[i] == c by {}
        lemma_transform_of_constant(evens(v), w, 2 * s, c);
        lemma_transform_of_constant(odds(v), w, 2 * s, c);
        let e = fft_rec(evens(v), w, 2 * s);
        let o = fft_rec(odds(v), w, 2 * s);
        lemma_cmul_one(o[0]);
        assert(0 * s == 0);
        assert(fft_rec(v, w, s)[0] == cadd(e[0], cmul(w[0], o[0])));
        let len = v.len() as int;
        assert(h + h == len);
        assert(h * c.re + h * c.re == len * c.re && h * c.im + h * c.im == len * c.im) by (
        nonlinear_arith)
            requires
                h + h == len,
        ;
        assert forall|k: int| 1 <= k < v.len() implies #[trigger] fft_rec(v, w, s)[k] == czero()
        by {
            if k < h {
                lemma_cmul_zero(w[k * s]);
                assert(o[k] == czero());
            } else if k == h {
                assert(fft_rec(v, w, s)[k] == cadd(e[0], cneg(cmul(w[0], o[0]))));
            } else {
                lemma_cmul_zero(w[(k - h) * s]);
                assert(o[k - h] == czero());
            }
        }
    }
}

} // verus!
