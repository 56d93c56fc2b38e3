use vstd::arithmetic::div_mod::{
    lemma_div_is_ordered, lemma_div_multiples_vanish, lemma_div_pos_is_pos,
};
use vstd::prelude::*;

verus! {

/// Fixed-point scale: a signal amplitude of `1.0` is stored as `SCALE`
/// counts, so a component `c` stands for the real number `c / SCALE`.
pub const SCALE: i64 = 65536;

/// The mathematical value of a complex sample: a pair of unbounded integers,
/// each standing for a real number in units of `1 / SCALE`.
pub ghost struct Cpx {
    pub re: int,
    pub im: int,
}

/// Truncating division (round towards zero), the semantics of narrowing a
/// fixed-point product back to the working scale.
pub open spec fn tdiv(a: int, d: int) -> int
    recommends
        d > 0,
{
    if a >= 0 {
        a / d
    } else {
        -((-a) / d)
    }
}

/// Complex addition is exact.
pub open spec fn cadd(a: Cpx, b: Cpx) -> Cpx {
    Cpx { re: a.re + b.re, im: a.im + b.im }
}

/// Complex negation is exact.
pub open spec fn cneg(a: Cpx) -> Cpx {
    Cpx { re: -a.re, im: -a.im }
}

/// Fixed-point complex multiplication: the standard algebra
/// `(a+bi)(c+di) = (ac-bd) + (ad+bc)i`, with each component narrowed back to
/// the working scale by a truncating division.
pub open spec fn cmul(a: Cpx, b: Cpx) -> Cpx {
    Cpx {
        re: tdiv(a.re * b.re - a.im * b.im, SCALE as int),
        im: tdiv(a.re * b.im + a.im * b.re, SCALE as int),
    }
}

pub open spec fn czero() -> Cpx {
    Cpx { re: 0, im: 0 }
}

/// The fixed-point representation of the real number `1.0`.
pub open spec fn cone() -> Cpx {
    Cpx { re: SCALE as int, im: 0 }
}

/// A complex sample in fixed-point form.
#[derive(Clone, Copy, Debug, PartialEq, Eq, Structural)]
pub struct Complex {
    pub re: i64,
    pub im: i64,
}

impl View for Complex {
    type V = Cpx;

    open spec fn view(&self) -> Cpx {
        Cpx { re: self.re as int, im: self.im as int }
    }
}

impl DeepView for Complex {
    type V = Cpx;

    open spec fn deep_view(&self) -> Cpx {
        self.view()
    }
}

/// Both fixed-point products that a complex multiplication forms stay within
/// what an `i64` result can carry after narrowing.
pub open spec fn mul_safe(a: Cpx, b: Cpx) -> bool {
    &&& -(i64::MAX as int) * (SCALE as int) <= a.re * b.re - a.im * b.im <= (i64::MAX as int) * (
    SCALE as int)
    &&& -(i64::MAX as int) * (SCALE as int) <= a.re * b.im + a.im * b.re <= (i64::MAX as int) * (
    SCALE as int)
}

/// A quotient rounded towards zero is no larger in magnitude than any bound
/// the dividend respects at full scale.
pub proof fn lemma_tdiv_bound(p: int, d: int, b: int)
    requires
        d > 0,
        b >= 0,
        -(d * b) <= p <= d * b,
    ensures
        -b <= tdiv(p, d) <= b,
{
    if p >= 0 {
        lemma_div_pos_is_pos(p, d);
        lemma_div_is_ordered(p, d * b, d);
        lemma_div_multiples_vanish(b, d);
    } else {
        lemma_div_pos_is_pos(-p, d);
        lemma_div_is_ordered(-p, d * b, d);
        lemma_div_multiples_vanish(b, d);
    }
}

/// Narrowing a value that was just widened by the scale gives the value back:
/// truncating division undoes an exact multiplication.
pub proof fn lemma_tdiv_exact(a: int, d: int)
    requires
        d > 0,
    ensures
        tdiv(a * d, d) == a,
{
    if a >= 0 {
        lemma_div_multiples_vanish(a, d);
        assert(d * a == a * d);
    } else {
        lemma_div_multiples_vanish(-a, d);
        assert(d * (-a) == -(a * d)) by (nonlinear_arith);
    }
}

/// Multiplying by the fixed-point one is exact.
pub proof fn lemma_cmul_one(x: Cpx)
    ensures
        cmul(cone(), x) == x,
{
    lemma_tdiv_exact(x.re, SCALE as int);
    lemma_tdiv_exact(x.im, SCALE as int);
    assert((SCALE as int) * x.re == x.re * (SCALE as int));
    assert((SCALE as int) * x.im == x.im * (SCALE as int));
}

/// Multiplying zero by anything is exactly zero.
pub proof fn lemma_cmul_zero(w: Cpx)
    ensures
        cmul(w, czero()) == czero(),
{
    assert(w.re * 0 == 0);
    assert(w.im * 0 == 0);
    assert(tdiv(0, SCALE as int) == 0) by {
        vstd::arithmetic::div_mod::lemma_div_of0(SCALE as int);
    }
}

/// Componentwise bounds on two factors bound both fixed-point products.
pub proof fn lemma_mul_parts_bounded(a: Cpx, b: Cpx, p: int, q: int)
    by (nonlinear_arith)
    requires
        p >= 0,
        q >= 0,
        -p <= a.re <= p,
        -p <= a.im <= p,
        -q <= b.re <= q,
        -q <= b.im <= q,
    ensures
        -(2 * p * q) <= a.re * b.re - a.im * b.im <= 2 * p * q,
        -(2 * p * q) <= a.re * b.im + a.im * b.re <= 2 * p * q,
{
}

/// A product of a unit-magnitude factor (a twiddle or window coefficient,
/// bounded by the scale) and a value bounded by `q` stays within `2 * q`.
pub proof fn lemma_cmul_bounded(a: Cpx, b: Cpx, q: int)
    requires
        0 <= 2 * q <= i64::MAX,
        -(SCALE as int) <= a.re <= SCALE as int,
        -(SCALE as int) <= a.im <= SCALE as int,
        -q <= b.re <= q,
        -q <= b.im <= q,
    ensures
        mul_safe(a, b),
        -(2 * q) <= cmul(a, b).re <= 2 * q,
        -(2 * q) <= cmul(a, b).im <= 2 * q,
{
    lemma_mul_parts_bounded(a, b, SCALE as int, q);
    assert(2 * (SCALE as int) * q == (SCALE as int) * (2 * q)) by (nonlinear_arith);
    assert((SCALE as int) * (2 * q) <= (i64::MAX as int) * (SCALE as int)) by (nonlinear_arith)
        requires
            0 <= 2 * q <= i64::MAX,
    ;
    lemma_tdiv_bound(a.re * b.re - a.im * b.im, SCALE as int, 2 * q);
    lemma_tdiv_bound(a.re * b.im + a.im * b.re, SCALE as int, 2 * q);
}

/// A product of two values in `i64` range fits comfortably in `i128`.
proof fn lemma_i64_product_fits(x: int, y: int)
    by (nonlinear_arith)
    requires
        i64::MIN <= x <= i64::MAX,
        i64::MIN <= y <= i64::MAX,
    ensures
        -0x40000000000000000000000000000000 <= x * y <= 0x40000000000000000000000000000000,
{
}

/// Narrows a doubled-scale product back to the working scale, rounding
/// towards zero.
pub(crate) fn scale_down(p: i128) -> (r: i64)
    requires
        -(i64::MAX as int) * (SCALE as int) <= p <= (i64::MAX as int) * (SCALE as int),
    ensures
        r == tdiv(p as int, SCALE as int),
{
    proof {
        lemma_tdiv_bound(p as int, SCALE as int, i64::MAX as int);
    }
    if p >= 0 {
        let q: u128 = (p as u128) / (SCALE as u128);
        q as i64
    } else {
        let q: u128 = ((-p) as u128) / (SCALE as u128);
        -(q as i64)
    }
}

impl Complex {
    /// Builds a sample from its fixed-point components.
    pub fn new(re: i64, im: i64) -> (r: Self)
        ensures
            r.re == re,
            r.im == im,
    {
        Self { re, im }
    }

    /// Exact complex addition.
    pub fn add(self, rhs: Self) -> (r: Self)
        requires
            i64::MIN <= self.re + rhs.re <= i64::MAX,
            i64::MIN <= self.im + rhs.im <= i64::MAX,
        ensures
            r@ == cadd(self@, rhs@),
    {
        Complex { re: self.re + rhs.re, im: self.im + rhs.im }
    }

    /// Exact complex negation.
    pub fn neg(self) -> (r: Self)
        requires
            self.re > i64::MIN,
            self.im > i64::MIN,
        ensures
            r@ == cneg(self@),
    {
        Complex { re: -self.re, im: -self.im }
    }

    /// Fixed-point complex multiplication, following the standard algebra
    /// and narrowing each component back to the working scale.
    pub fn mul(self, rhs: Self) -> (r: Self)
        requires
            mul_safe(self@, rhs@),
        ensures
            r@ == cmul(self@, rhs@),
    {
        let a = self.re as i128;
        let b = self.im as i128;
        let c = rhs.re as i128;
        let d = rhs.im as i128;
        proof {
            lemma_i64_product_fits(a as int, c as int);
            lemma_i64_product_fits(b as int, d as int);
            lemma_i64_product_fits(a as int, d as int);
            lemma_i64_product_fits(b as int, c as int);
        }
        Complex { re: scale_down(a * c - b * d), im: scale_down(a * d + b * c) }
    }
}

/// Builds a sample from its fixed-point components.
pub fn cnum(re: i64, im: i64) -> (r: Complex)
    ensures
        r.re == re,
        r.im == im,
{
    Complex::new(re, im)
}

} // verus!
