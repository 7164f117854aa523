//! The inverse discrete Fourier transform, by its definition.
//!
//! Point `i` of the result is the sum over `k` of coefficient `k` times
//! `exp(+2 pi i k i / n)`. Nothing is divided by `n`: that is left to the
//! caller. Each product is rounded toward zero before it is added.

use crate::complex::{
    in_unit_disk, lemma_part_bound, lemma_product_within, models, product, sum, Complex, Gaussian,
};
use crate::discontinuous::turn;
use crate::fixed::ONE_RAW;
use crate::trig::{cis, cis_spec, lemma_cis_in_disk};
use vstd::arithmetic::div_mod::{lemma_div_pos_is_pos, lemma_mod_bound, lemma_multiply_divide_lt};
use vstd::prelude::*;

verus! {

/// The most points that a transform takes: 2^30.
pub const MAX_POINTS: usize = 0x4000_0000;

/// The angle of `j / n` of a turn, rounded down to a binary angle.
pub open spec fn twiddle_angle(j: int, n: int) -> u64 {
    ((j * turn()) / n) as u64
}

/// The factor `exp(+2 pi i j / n)`.
pub open spec fn twiddle(j: int, n: int) -> Gaussian {
    cis_spec(twiddle_angle(j, n))
}

/// What coefficient `k` adds to point `i`.
pub open spec fn term(c: Seq<Gaussian>, k: int, i: int) -> Gaussian {
    product(c[k], twiddle((k * i) % (c.len() as int), c.len() as int), ONE_RAW as int)
}

/// What the first `upto` coefficients add to point `i`.
pub open spec fn partial_sum(c: Seq<Gaussian>, i: int, upto: int) -> Gaussian
    decreases upto,
{
    if upto <= 0 {
        Gaussian { re: 0, im: 0 }
    } else {
        sum(partial_sum(c, i, upto - 1), term(c, upto - 1, i))
    }
}

/// The inverse transform of `c`, not divided by its length.
pub open spec fn inverse_spec(c: Seq<Gaussian>) -> Seq<Gaussian> {
    Seq::new(c.len(), |i: int| partial_sum(c, i, c.len() as int))
}

/// Every number of `c` lies in the unit disk.
pub open spec fn all_in_unit_disk(c: Seq<Gaussian>) -> bool {
    forall|k: int| 0 <= k < c.len() ==> in_unit_disk(#[trigger] c[k])
}

/// A twiddle angle lies within one turn.
pub proof fn lemma_twiddle_angle_bound(j: int, n: int)
    requires
        0 <= j < n,
    ensures
        0 <= (j * turn()) / n < turn(),
{
    let t = turn();
    assert(0 <= j * t < n * t) by (nonlinear_arith)
        requires
            0 <= j < n,
            t > 0,
    ;
    lemma_multiply_divide_lt(j * t, n, t);
    lemma_div_pos_is_pos(j * t, n);
}

/// Each term of a transform of numbers of the unit disk lies in the disk.
pub proof fn lemma_term_in_disk(c: Seq<Gaussian>, k: int, i: int)
    requires
        0 <= k < c.len(),
        in_unit_disk(c[k]),
    ensures
        in_unit_disk(term(c, k, i)),
        -ONE_RAW <= term(c, k, i).re <= ONE_RAW,
        -ONE_RAW <= term(c, k, i).im <= ONE_RAW,
{
    let n = c.len() as int;
    lemma_cis_in_disk(twiddle_angle((k * i) % n, n));
    lemma_product_within(c[k], twiddle((k * i) % n, n), ONE_RAW as int);
    lemma_part_bound(term(c, k, i), ONE_RAW as int);
}

/// The first `upto` terms add up to at most `upto` in either part.
pub proof fn lemma_partial_sum_bound(c: Seq<Gaussian>, i: int, upto: int)
    requires
        0 <= upto <= c.len(),
        all_in_unit_disk(c),
    ensures
        -upto * ONE_RAW <= partial_sum(c, i, upto).re <= upto * ONE_RAW,
        -upto * ONE_RAW <= partial_sum(c, i, upto).im <= upto * ONE_RAW,
    decreases upto,
{
    if upto > 0 {
        lemma_partial_sum_bound(c, i, upto - 1);
        lemma_term_in_disk(c, upto - 1, i);
        assert((upto - 1) * ONE_RAW + ONE_RAW == upto * ONE_RAW) by (nonlinear_arith);
        assert(-(upto - 1) * ONE_RAW - ONE_RAW == -upto * ONE_RAW) by (nonlinear_arith);
    }
}

/// The factors `exp(+2 pi i j / n)` for `j < n`.
fn twiddles(n: usize) -> (r: Vec<Complex>)
    requires
        n <= MAX_POINTS,
    ensures
        r@.len() == n,
        forall|j: int| 0 <= j < n ==> (#[trigger] r@[j])@ == twiddle(j, n as int),
        forall|j: int| 0 <= j < n ==> in_unit_disk(#[trigger] r@[j]@),
{
    let mut out: Vec<Complex> = Vec::new();
    let mut j: usize = 0;
    while j < n
        invariant
            0 <= j <= n <= MAX_POINTS,
            out@.len() == j,
            forall|a: int| 0 <= a < j ==> (#[trigger] out@[a])@ == twiddle(a, n as int),
            forall|a: int| 0 <= a < j ==> in_unit_disk(#[trigger] out@[a]@),
        decreases n - j,
    {
        proof {
            lemma_twiddle_angle_bound(j as int, n as int);
            assert(j * turn() == (j as u128) * 0x1_0000_0000_0000_0000u128) by (nonlinear_arith)
                requires
                    0 <= j <= 0x4000_0000,
                    turn() == 0x1_0000_0000_0000_0000,
            ;
        }
        let wide: u128 = (j as u128) * 0x1_0000_0000_0000_0000u128;
        let angle: u64 = (wide / (n as u128)) as u64;
        out.push(cis(angle));
        j = j + 1;
    }
    out
}

/// The inverse discrete Fourier transform of `coefficients`, not divided by
/// their number: point `i` is the sum over `k` of coefficient `k` times
/// `exp(+2 pi i k i / n)`.
pub fn inverse_transform(coefficients: &Vec<Complex>) -> (r: Vec<Complex>)
    requires
        coefficients@.len() <= MAX_POINTS,
        all_in_unit_disk(models(coefficients@)),
    ensures
        r@.len() == coefficients@.len(),
        models(r@) == inverse_spec(models(coefficients@)),
{
    let n: usize = coefficients.len();
    let factors: Vec<Complex> = twiddles(n);
    let ghost c = models(coefficients@);
    let mut out: Vec<Complex> = Vec::new();
    let mut i: usize = 0;
    while i < n
        invariant
            0 <= i <= n <= MAX_POINTS,
            n == coefficients@.len(),
            c == models(coefficients@),
            all_in_unit_disk(c),
            factors@.len() == n,
            forall|j: int| 0 <= j < n ==> (#[trigger] factors@[j])@ == twiddle(j, n as int),
            forall|j: int| 0 <= j < n ==> in_unit_disk(#[trigger] factors@[j]@),
            out@.len() == i,
            forall|a: int| 0 <= a < i ==> (#[trigger] out@[a])@ == partial_sum(c, a, n as int),
        decreases n - i,
    {
        let mut re: i64 = 0;
        let mut im: i64 = 0;
        let mut k: usize = 0;
        while k < n
            invariant
                0 <= k <= n <= MAX_POINTS,
                0 <= i < n,
                n == coefficients@.len(),
                c == models(coefficients@),
                all_in_unit_disk(c),
                factors@.len() == n,
                forall|j: int| 0 <= j < n ==> (#[trigger] factors@[j])@ == twiddle(j, n as int),
                forall|j: int| 0 <= j < n ==> in_unit_disk(#[trigger] factors@[j]@),
                (Gaussian { re: re as int, im: im as int }) == partial_sum(c, i as int, k as int),
            decreases n - k,
        {
            proof {
                assert(0 <= k * i <= 0x4000_0000 * 0x4000_0000) by (nonlinear_arith)
                    requires
                        0 <= k <= 0x4000_0000,
                        0 <= i <= 0x4000_0000,
                ;
                lemma_mod_bound((k * i) as int, n as int);
                lemma_partial_sum_bound(c, i as int, k as int);
                lemma_partial_sum_bound(c, i as int, k as int + 1);
                assert(c[k as int] == coefficients@[k as int]@);
                assert(k * ONE_RAW <= 0x4000_0000 * 0x1_0000_0000) by (nonlinear_arith)
                    requires
                        0 <= k <= 0x4000_0000,
                ;
            }
            let at: usize = (((k as u64) * (i as u64)) % (n as u64)) as usize;
            let t: Complex = coefficients[k].mul(factors[at]);
            assert(t@ == term(c, k as int, i as int));
            re = re + t.re.raw;
            im = im + t.im.raw;
            k = k + 1;
        }
        out.push(Complex::from_raw(re, im));
        i = i + 1;
    }
    proof {
        assert(models(out@) =~= inverse_spec(c));
    }
    out
}

} // verus!
