//! Complex numbers over [`Fixed`], and their integer model.

use crate::fixed::{div_toward_zero, trunc_div, Fixed, ONE_RAW};
use vstd::arithmetic::div_mod::lemma_fundamental_div_mod;
use vstd::prelude::*;

verus! {

/// The model of a complex number: its two raw values, as unbounded integers.
pub ghost struct Gaussian {
    pub re: int,
    pub im: int,
}

/// Squared modulus of `g`, in squared raw units.
pub open spec fn norm_sq(g: Gaussian) -> int {
    g.re * g.re + g.im * g.im
}

/// `g` has modulus at most one, where one is `unit` raw units.
pub open spec fn within(g: Gaussian, unit: int) -> bool {
    norm_sq(g) <= unit * unit
}

/// `g` lies in the closed unit disk of the 32-bit scale.
pub open spec fn in_unit_disk(g: Gaussian) -> bool {
    within(g, ONE_RAW as int)
}

/// Product of `a` and `b` at the scale `unit`, each part rounded toward zero.
pub open spec fn product(a: Gaussian, b: Gaussian, unit: int) -> Gaussian {
    Gaussian {
        re: trunc_div(a.re * b.re - a.im * b.im, unit),
        im: trunc_div(a.re * b.im + a.im * b.re, unit),
    }
}

/// Sum of `a` and `b`.
pub open spec fn sum(a: Gaussian, b: Gaussian) -> Gaussian {
    Gaussian { re: a.re + b.re, im: a.im + b.im }
}

/// `g` times the real number of raw value `w`, each part rounded toward zero.
pub open spec fn scaled(g: Gaussian, w: int) -> Gaussian {
    Gaussian { re: trunc_div(g.re * w, ONE_RAW as int), im: trunc_div(g.im * w, ONE_RAW as int) }
}

/// `g` turned by `quarters` quarter turns, counter-clockwise.
pub open spec fn quarter_turned(g: Gaussian, quarters: int) -> Gaussian {
    let q = quarters % 4;
    if q == 0 {
        g
    } else if q == 1 {
        Gaussian { re: -g.im, im: g.re }
    } else if q == 2 {
        Gaussian { re: -g.re, im: -g.im }
    } else {
        Gaussian { re: g.im, im: -g.re }
    }
}

/// The opposite of `g`.
pub open spec fn negated(g: Gaussian) -> Gaussian {
    Gaussian { re: -g.re, im: -g.im }
}

/// Rounding toward zero never grows a square: `(x / d)^2 * d^2 <= x^2`.
pub proof fn lemma_trunc_div_square(x: int, d: int)
    requires
        d > 0,
    ensures
        (trunc_div(x, d) * d) * (trunc_div(x, d) * d) <= x * x,
        trunc_div(-x, d) == -trunc_div(x, d),
{
    let y = if x >= 0 { x } else { -x };
    let t = y / d;
    lemma_fundamental_div_mod(y, d);
    assert(0 <= y % d < d) by {
        vstd::arithmetic::div_mod::lemma_mod_bound(y, d);
    }
    assert(0 <= t * d <= y) by (nonlinear_arith)
        requires
            y == d * t + y % d,
            0 <= y % d < d,
            d > 0,
            y >= 0,
    ;
    assert((t * d) * (t * d) <= y * y) by (nonlinear_arith)
        requires
            0 <= t * d <= y,
    ;
    assert(y * y == x * x) by (nonlinear_arith)
        requires
            y == x || y == -x,
    ;
    if x >= 0 {
        assert(trunc_div(x, d) == t);
    } else {
        assert(trunc_div(x, d) == -t);
        assert(((-t) * d) * ((-t) * d) == (t * d) * (t * d)) by (nonlinear_arith);
    }
    if x == 0 {
        assert(0int / d == 0) by {
            vstd::arithmetic::div_mod::lemma_div_basics(d);
        }
    }
}

/// Rounding toward zero loses little of a square:
/// `(x / d)^2 * d^2 >= x^2 - 2 d |x|`.
pub proof fn lemma_trunc_div_square_lower(x: int, d: int)
    requires
        d > 0,
    ensures
        (trunc_div(x, d) * d) * (trunc_div(x, d) * d) >= x * x - 2 * d * (if x >= 0 {
            x
        } else {
            -x
        }),
{
    let y = if x >= 0 { x } else { -x };
    let t = y / d;
    lemma_fundamental_div_mod(y, d);
    vstd::arithmetic::div_mod::lemma_mod_bound(y, d);
    assert(t * d == d * t) by (nonlinear_arith);
    let td = t * d;
    assert(td * td >= y * y - 2 * d * y) by (nonlinear_arith)
        requires
            y - d < td <= y,
            0 <= td,
            0 <= y,
            d > 0,
    ;
    assert(y * y == x * x) by (nonlinear_arith)
        requires
            y == x || y == -x,
    ;
    if x < 0 {
        assert(trunc_div(x, d) == -t);
        assert(((-t) * d) * ((-t) * d) == (t * d) * (t * d)) by (nonlinear_arith);
    }
}

/// The rounded product of two numbers near the unit circle is near it: what
/// the factors lack of the squared modulus one adds up, and rounding takes
/// at most four units more.
pub proof fn lemma_product_near_circle(a: Gaussian, b: Gaussian, unit: int, da: int, db: int)
    requires
        unit > 0,
        within(a, unit),
        within(b, unit),
        0 <= da <= unit * unit,
        0 <= db <= unit * unit,
        norm_sq(a) >= unit * unit - da,
        norm_sq(b) >= unit * unit - db,
    ensures
        norm_sq(product(a, b, unit)) >= unit * unit - da - db - 4 * unit,
{
    let pr = a.re * b.re - a.im * b.im;
    let pi = a.re * b.im + a.im * b.re;
    let qr = trunc_div(pr, unit);
    let qi = trunc_div(pi, unit);
    let na = norm_sq(a);
    let nb = norm_sq(b);
    let u2 = unit * unit;
    let p = pr * pr + pi * pi;
    lemma_norm_multiplies(a, b);
    assert(u2 > 0) by (nonlinear_arith)
        requires
            unit > 0,
            u2 == unit * unit,
    ;
    assert(p >= u2 * u2 - (da + db) * u2) by (nonlinear_arith)
        requires
            p == na * nb,
            u2 - da <= na,
            u2 - db <= nb,
            0 <= da <= u2,
            0 <= db <= u2,
    ;
    assert(p <= u2 * u2) by (nonlinear_arith)
        requires
            p == na * nb,
            0 <= u2 - da <= na <= u2,
            0 <= u2 - db <= nb <= u2,
    ;
    let sr = if pr >= 0 { pr } else { -pr };
    let si = if pi >= 0 { pi } else { -pi };
    assert(sr <= u2 && si <= u2) by (nonlinear_arith)
        requires
            pr * pr + pi * pi <= u2 * u2,
            u2 > 0,
            sr == pr || sr == -pr,
            si == pi || si == -pi,
    ;
    lemma_trunc_div_square_lower(pr, unit);
    lemma_trunc_div_square_lower(pi, unit);
    lemma_mul_interchange(qr, unit, qr, unit);
    lemma_mul_interchange(qi, unit, qi, unit);
    let n = qr * qr + qi * qi;
    let lost = unit * u2;
    assert(unit * sr <= lost && unit * si <= lost) by (nonlinear_arith)
        requires
            sr <= u2,
            si <= u2,
            unit > 0,
            lost == unit * u2,
    ;
    assert(n * u2 == (qr * qr) * u2 + (qi * qi) * u2) by (nonlinear_arith)
        requires
            n == qr * qr + qi * qi,
    ;
    assert(2 * unit * sr == 2 * (unit * sr) && 2 * unit * si == 2 * (unit * si))
        by (nonlinear_arith);
    assert(n * u2 >= p - 4 * lost);
    let bound = u2 - da - db - 4 * unit;
    assert(bound * u2 == u2 * u2 - (da + db) * u2 - 4 * lost) by (nonlinear_arith)
        requires
            bound == u2 - da - db - 4 * unit,
            lost == unit * u2,
    ;
    assert(n >= bound) by (nonlinear_arith)
        requires
            n * u2 >= bound * u2,
            u2 > 0,
    ;
}

/// A number whose square is at most `unit^2` is at most `unit` in size.
pub proof fn lemma_part_bound(g: Gaussian, unit: int)
    requires
        unit >= 0,
        within(g, unit),
    ensures
        -unit <= g.re <= unit,
        -unit <= g.im <= unit,
{
    assert(-unit <= g.re <= unit && -unit <= g.im <= unit) by (nonlinear_arith)
        requires
            g.re * g.re + g.im * g.im <= unit * unit,
            unit >= 0,
    ;
}

/// `(a * b) * (c * d) == (a * c) * (b * d)`.
proof fn lemma_mul_interchange(a: int, b: int, c: int, d: int)
    ensures
        (a * b) * (c * d) == (a * c) * (b * d),
{
    assert((a * b) * (c * d) == (a * c) * (b * d)) by (nonlinear_arith);
}

/// The squared modulus of an exact product is the product of the squared
/// moduli.
pub proof fn lemma_norm_multiplies(a: Gaussian, b: Gaussian)
    ensures
        (a.re * b.re - a.im * b.im) * (a.re * b.re - a.im * b.im) + (a.re * b.im + a.im * b.re) * (
        a.re * b.im + a.im * b.re) == norm_sq(a) * norm_sq(b),
{
    let p = a.re * b.re;
    let q = a.im * b.im;
    let r = a.re * b.im;
    let s = a.im * b.re;
    lemma_mul_interchange(a.re, b.re, a.im, b.im);
    lemma_mul_interchange(a.re, b.im, a.im, b.re);
    assert(p * q == r * s) by (nonlinear_arith)
        requires
            p * q == (a.re * a.im) * (b.re * b.im),
            r * s == (a.re * a.im) * (b.im * b.re),
    ;
    lemma_mul_interchange(a.re, b.re, a.re, b.re);
    lemma_mul_interchange(a.im, b.im, a.im, b.im);
    lemma_mul_interchange(a.re, b.im, a.re, b.im);
    lemma_mul_interchange(a.im, b.re, a.im, b.re);
    let x = a.re * a.re;
    let y = a.im * a.im;
    let z = b.re * b.re;
    let w = b.im * b.im;
    assert((p - q) * (p - q) + (r + s) * (r + s) == (x + y) * (z + w)) by (nonlinear_arith)
        requires
            p * q == r * s,
            p * p == x * z,
            q * q == y * w,
            r * r == x * w,
            s * s == y * z,
    ;
}

/// The unit disk is closed under the rounded product.
pub proof fn lemma_product_within(a: Gaussian, b: Gaussian, unit: int)
    requires
        unit > 0,
        within(a, unit),
        within(b, unit),
    ensures
        within(product(a, b, unit), unit),
{
    let pr = a.re * b.re - a.im * b.im;
    let pi = a.re * b.im + a.im * b.re;
    let qr = trunc_div(pr, unit);
    let qi = trunc_div(pi, unit);
    let na = norm_sq(a);
    let nb = norm_sq(b);
    let u2 = unit * unit;
    lemma_norm_multiplies(a, b);
    assert(u2 > 0) by (nonlinear_arith)
        requires
            unit > 0,
            u2 == unit * unit,
    ;
    assert(0 <= na && 0 <= nb) by (nonlinear_arith)
        requires
            na == a.re * a.re + a.im * a.im,
            nb == b.re * b.re + b.im * b.im,
    ;
    assert(na * nb <= u2 * u2) by (nonlinear_arith)
        requires
            0 <= na <= u2,
            0 <= nb <= u2,
    ;
    lemma_trunc_div_square(pr, unit);
    lemma_trunc_div_square(pi, unit);
    assert((qr * unit) * (qr * unit) == (qr * qr) * u2) by (nonlinear_arith)
        requires
            u2 == unit * unit,
    ;
    assert((qi * unit) * (qi * unit) == (qi * qi) * u2) by (nonlinear_arith)
        requires
            u2 == unit * unit,
    ;
    let n = qr * qr + qi * qi;
    assert(n * u2 <= u2 * u2) by (nonlinear_arith)
        requires
            n == qr * qr + qi * qi,
            (qr * qr) * u2 + (qi * qi) * u2 <= u2 * u2,
    ;
    assert(n <= u2) by (nonlinear_arith)
        requires
            n * u2 <= u2 * u2,
            u2 > 0,
    ;
}

/// A number of the unit disk times a real number is at most that number in
/// size.
pub proof fn lemma_scaled_bound(g: Gaussian, w: int)
    requires
        in_unit_disk(g),
    ensures
        norm_sq(scaled(g, w)) <= w * w,
{
    let one = ONE_RAW as int;
    let o2 = one * one;
    let w2 = w * w;
    let qr = trunc_div(g.re * w, one);
    let qi = trunc_div(g.im * w, one);
    lemma_trunc_div_square(g.re * w, one);
    lemma_trunc_div_square(g.im * w, one);
    lemma_mul_interchange(g.re, w, g.re, w);
    lemma_mul_interchange(g.im, w, g.im, w);
    lemma_mul_interchange(qr, one, qr, one);
    lemma_mul_interchange(qi, one, qi, one);
    let n = qr * qr + qi * qi;
    let ng = g.re * g.re + g.im * g.im;
    assert(n * o2 <= ng * w2) by (nonlinear_arith)
        requires
            n == qr * qr + qi * qi,
            ng == g.re * g.re + g.im * g.im,
            (qr * qr) * o2 <= (g.re * g.re) * w2,
            (qi * qi) * o2 <= (g.im * g.im) * w2,
    ;
    assert(ng * w2 <= o2 * w2) by (nonlinear_arith)
        requires
            ng <= o2,
            w2 == w * w,
    ;
    assert(n <= w2) by (nonlinear_arith)
        requires
            n * o2 <= o2 * w2,
            o2 > 0,
    ;
}

/// The triangle inequality: the sum of a number of size at most `ra` and one
/// of size at most `rb` has size at most `ra + rb`.
pub proof fn lemma_sum_bound(a: Gaussian, b: Gaussian, ra: int, rb: int)
    requires
        ra >= 0,
        rb >= 0,
        norm_sq(a) <= ra * ra,
        norm_sq(b) <= rb * rb,
    ensures
        norm_sq(sum(a, b)) <= (ra + rb) * (ra + rb),
{
    let d = a.re * b.re + a.im * b.im;
    let e = a.re * b.im - a.im * b.re;
    let na = norm_sq(a);
    let nb = norm_sq(b);
    let mirrored = Gaussian { re: b.re, im: -b.im };
    lemma_norm_multiplies(a, mirrored);
    assert(a.re * mirrored.re - a.im * mirrored.im == d) by (nonlinear_arith)
        requires
            mirrored.re == b.re,
            mirrored.im == -b.im,
            d == a.re * b.re + a.im * b.im,
    ;
    assert(a.re * mirrored.im + a.im * mirrored.re == -e) by (nonlinear_arith)
        requires
            mirrored.re == b.re,
            mirrored.im == -b.im,
            e == a.re * b.im - a.im * b.re,
    ;
    assert(norm_sq(mirrored) == nb) by (nonlinear_arith)
        requires
            mirrored.re == b.re,
            mirrored.im == -b.im,
            nb == b.re * b.re + b.im * b.im,
            norm_sq(mirrored) == mirrored.re * mirrored.re + mirrored.im * mirrored.im,
    ;
    assert(d * d <= na * nb) by (nonlinear_arith)
        requires
            d * d + (-e) * (-e) == na * nb,
    ;
    let r = ra * rb;
    assert(0 <= na && 0 <= nb) by (nonlinear_arith)
        requires
            na == a.re * a.re + a.im * a.im,
            nb == b.re * b.re + b.im * b.im,
    ;
    lemma_mul_interchange(ra, rb, ra, rb);
    let ra2 = ra * ra;
    let rb2 = rb * rb;
    assert(na * nb <= ra2 * rb2) by (nonlinear_arith)
        requires
            0 <= na <= ra2,
            0 <= nb <= rb2,
    ;
    assert(d <= r) by (nonlinear_arith)
        requires
            d * d <= r * r,
            r == ra * rb,
            ra >= 0,
            rb >= 0,
    ;
    assert(norm_sq(sum(a, b)) == na + nb + 2 * d) by (nonlinear_arith)
        requires
            norm_sq(sum(a, b)) == (a.re + b.re) * (a.re + b.re) + (a.im + b.im) * (a.im + b.im),
            na == a.re * a.re + a.im * a.im,
            nb == b.re * b.re + b.im * b.im,
            d == a.re * b.re + a.im * b.im,
    ;
    assert((ra + rb) * (ra + rb) == ra * ra + rb * rb + 2 * r) by (nonlinear_arith)
        requires
            r == ra * rb,
    ;
}

/// A complex number with [`Fixed`] parts.
#[derive(Clone, Copy, Debug, PartialEq, Eq, Structural)]
pub struct Complex {
    pub re: Fixed,
    pub im: Fixed,
}

impl View for Complex {
    type V = Gaussian;

    open spec fn view(&self) -> Gaussian {
        Gaussian { re: self.re.raw as int, im: self.im.raw as int }
    }
}

/// The models of the numbers of `v`, in order.
pub open spec fn models(v: Seq<Complex>) -> Seq<Gaussian> {
    Seq::new(v.len(), |k: int| v[k]@)
}

impl Complex {
    /// The complex number with the given raw parts.
    pub fn from_raw(re: i64, im: i64) -> (r: Complex)
        ensures
            r@ == (Gaussian { re: re as int, im: im as int }),
    {
        Complex { re: Fixed { raw: re }, im: Fixed { raw: im } }
    }

    /// The number zero.
    pub fn zero() -> (r: Complex)
        ensures
            r@ == (Gaussian { re: 0, im: 0 }),
    {
        Complex::from_raw(0, 0)
    }

    /// The number one.
    pub fn one() -> (r: Complex)
        ensures
            r@ == (Gaussian { re: ONE_RAW as int, im: 0 }),
    {
        Complex::from_raw(ONE_RAW, 0)
    }

    /// Whether the number lies in the closed unit disk.
    pub fn in_disk(self) -> (r: bool)
        ensures
            r == in_unit_disk(self@),
    {
        let a: i128 = self.re.raw as i128;
        let b: i128 = self.im.raw as i128;
        if a < -(ONE_RAW as i128) || a > ONE_RAW as i128 || b < -(ONE_RAW as i128) || b
            > ONE_RAW as i128 {
            proof {
                if in_unit_disk(self@) {
                    lemma_part_bound(self@, ONE_RAW as int);
                }
            }
            return false;
        }
        assert(0 <= a * a <= 0x1_0000_0000_0000_0000 && 0 <= b * b <= 0x1_0000_0000_0000_0000)
            by (nonlinear_arith)
            requires
                -0x1_0000_0000 <= a <= 0x1_0000_0000,
                -0x1_0000_0000 <= b <= 0x1_0000_0000,
        ;
        a * a + b * b <= 0x1_0000_0000_0000_0000
    }

    /// Product of two numbers of the unit disk, which lies in the disk again.
    pub fn mul(self, other: Complex) -> (r: Complex)
        requires
            in_unit_disk(self@),
            in_unit_disk(other@),
        ensures
            r@ == product(self@, other@, ONE_RAW as int),
            in_unit_disk(r@),
    {
        proof {
            lemma_part_bound(self@, ONE_RAW as int);
            lemma_part_bound(other@, ONE_RAW as int);
            lemma_product_within(self@, other@, ONE_RAW as int);
            lemma_part_bound(product(self@, other@, ONE_RAW as int), ONE_RAW as int);
        }
        let a: i128 = self.re.raw as i128;
        let b: i128 = self.im.raw as i128;
        let c: i128 = other.re.raw as i128;
        let d: i128 = other.im.raw as i128;
        assert(-0x1_0000_0000_0000_0000 <= a * c <= 0x1_0000_0000_0000_0000
            && -0x1_0000_0000_0000_0000 <= b * d <= 0x1_0000_0000_0000_0000
            && -0x1_0000_0000_0000_0000 <= a * d <= 0x1_0000_0000_0000_0000
            && -0x1_0000_0000_0000_0000 <= b * c <= 0x1_0000_0000_0000_0000) by (nonlinear_arith)
            requires
                -0x1_0000_0000 <= a <= 0x1_0000_0000,
                -0x1_0000_0000 <= b <= 0x1_0000_0000,
                -0x1_0000_0000 <= c <= 0x1_0000_0000,
                -0x1_0000_0000 <= d <= 0x1_0000_0000,
        ;
        let re: i128 = div_toward_zero(a * c - b * d, ONE_RAW as i128);
        let im: i128 = div_toward_zero(a * d + b * c, ONE_RAW as i128);
        Complex::from_raw(re as i64, im as i64)
    }

    /// This number of the unit disk times the real number `weight`, which is
    /// at most one in size.
    pub fn scale(self, weight: Fixed) -> (r: Complex)
        requires
            in_unit_disk(self@),
            -ONE_RAW <= weight.raw <= ONE_RAW,
        ensures
            r@ == scaled(self@, weight.raw as int),
    {
        proof {
            lemma_part_bound(self@, ONE_RAW as int);
            lemma_scaled_bound(self@, weight.raw as int);
            let w = weight.raw as int;
            let size = if w >= 0 { w } else { -w };
            assert(size * size == w * w) by (nonlinear_arith)
                requires
                    size == w || size == -w,
            ;
            lemma_part_bound(scaled(self@, w), size);
        }
        let a: i128 = self.re.raw as i128;
        let b: i128 = self.im.raw as i128;
        let w: i128 = weight.raw as i128;
        assert(-0x1_0000_0000_0000_0000 <= a * w <= 0x1_0000_0000_0000_0000
            && -0x1_0000_0000_0000_0000 <= b * w <= 0x1_0000_0000_0000_0000) by (nonlinear_arith)
            requires
                -0x1_0000_0000 <= a <= 0x1_0000_0000,
                -0x1_0000_0000 <= b <= 0x1_0000_0000,
                -0x1_0000_0000 <= w <= 0x1_0000_0000,
        ;
        let re: i128 = div_toward_zero(a * w, ONE_RAW as i128);
        let im: i128 = div_toward_zero(b * w, ONE_RAW as i128);
        Complex::from_raw(re as i64, im as i64)
    }

    /// The sum of two numbers, where each part of it fits.
    pub fn plus(self, other: Complex) -> (r: Complex)
        requires
            i64::MIN <= self.re.raw + other.re.raw <= i64::MAX,
            i64::MIN <= self.im.raw + other.im.raw <= i64::MAX,
        ensures
            r@ == sum(self@, other@),
    {
        Complex::from_raw(self.re.raw + other.re.raw, self.im.raw + other.im.raw)
    }
}

} // verus!
