//! What holds of every distribution.

use crate::complex::{lemma_trunc_div_square, negated, product, scaled, sum, Gaussian};
use crate::discontinuous::{harmonic_angle, turn};
use crate::distribution::{
    bin_mass, coefficient, combined, compatible, empirical, is_power_of_two, mass_below,
    total_mass, Spectrum,
};
use crate::fixed::{trunc_div, ONE_RAW};
use crate::inverse::{inverse_spec, partial_sum, term, twiddle, twiddle_angle, MAX_POINTS};
use crate::sums::{
    lemma_series_adds, lemma_series_agree, lemma_series_cancels, lemma_series_constant, series,
    zero,
};
use crate::trig::{angle_sum, lemma_cis_half, lemma_cis_zero, HALF_TURN};
use vstd::arithmetic::div_mod::{
    lemma_add_mod_noop, lemma_div_multiples_vanish, lemma_div_pos_is_pos,
    lemma_fundamental_div_mod, lemma_fundamental_div_mod_converse, lemma_mod_bound,
    lemma_mul_mod_noop_right, lemma_multiply_divide_lt, lemma_small_mod, lemma_truncate_middle,
};
use vstd::arithmetic::power2::{
    lemma2_to64, lemma_pow2_adds, lemma_pow2_strictly_increases, lemma_pow2_unfold, pow2,
};
use vstd::prelude::*;

verus! {

/// `n` times `g`.
pub open spec fn times(n: int, g: Gaussian) -> Gaussian {
    Gaussian { re: n * g.re, im: n * g.im }
}

/// Rounding toward zero undoes a multiplication.
pub proof fn lemma_trunc_div_of_multiple(x: int, d: int)
    requires
        d > 0,
    ensures
        trunc_div(x * d, d) == x,
{
    let y = if x >= 0 { x } else { -x };
    lemma_div_multiples_vanish(y, d);
    assert(d * y == y * d) by (nonlinear_arith);
    if x >= 0 {
        assert(x * d >= 0) by (nonlinear_arith)
            requires
                x >= 0,
                d > 0,
        ;
    } else {
        assert(x * d < 0 && -(x * d) == y * d) by (nonlinear_arith)
            requires
                x < 0,
                d > 0,
                y == -x,
        ;
    }
}

/// What rounding toward zero leaves out is less than the divisor.
pub proof fn lemma_trunc_div_remainder(x: int, d: int)
    requires
        d > 0,
    ensures
        -d < x - d * trunc_div(x, d) < d,
{
    let y = if x >= 0 { x } else { -x };
    lemma_fundamental_div_mod(y, d);
    lemma_mod_bound(y, d);
    let q = y / d;
    if x < 0 {
        assert(d * (-q) == -(d * q)) by (nonlinear_arith);
    }
}

/// Multiplication is the same in either order.
pub proof fn lemma_product_commutes(a: Gaussian, b: Gaussian, unit: int)
    ensures
        product(a, b, unit) == product(b, a, unit),
{
    assert(a.re * b.re - a.im * b.im == b.re * a.re - b.im * a.im) by (nonlinear_arith);
    assert(a.re * b.im + a.im * b.re == b.re * a.im + b.im * a.re) by (nonlinear_arith);
}

/// The product with the opposite is the opposite of the product.
pub proof fn lemma_product_negates(a: Gaussian, b: Gaussian, unit: int)
    requires
        unit > 0,
    ensures
        product(a, negated(b), unit) == negated(product(a, b, unit)),
{
    let pr = a.re * b.re - a.im * b.im;
    let pi = a.re * b.im + a.im * b.re;
    assert(a.re * (-b.re) - a.im * (-b.im) == -pr) by (nonlinear_arith)
        requires
            pr == a.re * b.re - a.im * b.im,
    ;
    assert(a.re * (-b.im) + a.im * (-b.re) == -pi) by (nonlinear_arith)
        requires
            pi == a.re * b.im + a.im * b.re,
    ;
    lemma_trunc_div_square(pr, unit);
    lemma_trunc_div_square(pi, unit);
}

/// The product with one is the number itself.
pub proof fn lemma_product_with_one(a: Gaussian)
    ensures
        product(a, Gaussian { re: ONE_RAW as int, im: 0 }, ONE_RAW as int) == a,
{
    let one = ONE_RAW as int;
    assert(a.re * one - a.im * 0 == a.re * one) by (nonlinear_arith);
    assert(a.re * 0 + a.im * one == a.im * one) by (nonlinear_arith);
    lemma_trunc_div_of_multiple(a.re, one);
    lemma_trunc_div_of_multiple(a.im, one);
}

/// Combining is the same in either order.
pub proof fn lemma_combine_commutes(a: Spectrum, b: Spectrum)
    requires
        compatible(a, b),
    ensures
        combined(a, b) == combined(b, a),
{
    assert forall|k: int| 0 <= k < a.coefficients.len() implies product(
        a.coefficients[k],
        b.coefficients[k],
        ONE_RAW as int,
    ) == product(b.coefficients[k], a.coefficients[k], ONE_RAW as int) by {
        lemma_product_commutes(a.coefficients[k], b.coefficients[k], ONE_RAW as int);
    }
    assert(combined(a, b).coefficients =~= combined(b, a).coefficients);
}

/// Two distributions of total probability one combine to a distribution of
/// total probability one, exactly.
pub proof fn lemma_combine_keeps_total_one(a: Spectrum, b: Spectrum)
    requires
        compatible(a, b),
        a.coefficients.len() > 0,
        a.coefficients[0] == (Gaussian { re: ONE_RAW as int, im: 0 }),
        b.coefficients[0] == (Gaussian { re: ONE_RAW as int, im: 0 }),
    ensures
        combined(a, b).coefficients[0] == (Gaussian { re: ONE_RAW as int, im: 0 }),
{
    lemma_product_with_one(a.coefficients[0]);
}

/// The coefficient of the zero frequency is the total weight of the
/// samples, exactly: their number times the weight of each.
pub proof fn lemma_zero_frequency_is_total_weight(samples: Seq<int>, period: int, weight: int)
    requires
        period > 0,
    ensures
        coefficient(samples, period, weight, 0) == (Gaussian {
            re: samples.len() * weight,
            im: 0,
        }),
    decreases samples.len(),
{
    if samples.len() == 0 {
        assert(0 * weight == 0) by (nonlinear_arith);
    } else {
        lemma_zero_frequency_is_total_weight(samples.drop_last(), period, weight);
        let phase = crate::discontinuous::base_phase(period, samples.last());
        assert(0 * phase == 0) by (nonlinear_arith);
        assert(harmonic_angle(period, samples.last(), 0) == 0);
        lemma_cis_zero();
        let one = ONE_RAW as int;
        assert(one * weight == weight * one) by (nonlinear_arith);
        lemma_trunc_div_of_multiple(weight, one);
        assert(0 * weight == 0) by (nonlinear_arith);
        assert(scaled(Gaussian { re: one, im: 0 }, weight) == (Gaussian { re: weight, im: 0 }));
        assert(samples.len() * weight == (samples.len() - 1) * weight + weight)
            by (nonlinear_arith);
    }
}

/// Samples wrap: histories whose times agree modulo the window have the
/// same coefficients.
pub proof fn lemma_samples_wrap(a: Seq<int>, b: Seq<int>, period: int, weight: int, k: int)
    requires
        period > 0,
        a.len() == b.len(),
        forall|j: int| 0 <= j < a.len() ==> #[trigger] a[j] % period == b[j] % period,
    ensures
        coefficient(a, period, weight, k) == coefficient(b, period, weight, k),
    decreases a.len(),
{
    if a.len() > 0 {
        assert(a.last() % period == b.last() % period) by {
            assert(a[a.len() - 1] % period == b[a.len() - 1] % period);
        }
        assert forall|j: int| 0 <= j < a.drop_last().len() implies #[trigger] a.drop_last()[j]
            % period == b.drop_last()[j] % period by {
            assert(a[j] % period == b[j] % period);
        }
        lemma_samples_wrap(a.drop_last(), b.drop_last(), period, weight, k);
    }
}

/// A power of two is two to some exponent.
pub proof fn lemma_exponent(n: int) -> (e: nat)
    requires
        is_power_of_two(n),
    ensures
        n == pow2(e),
    decreases n,
{
    if n == 1 {
        lemma2_to64();
        0
    } else {
        let e = lemma_exponent(n / 2);
        lemma_pow2_unfold(e + 1);
        e + 1
    }
}

/// A supported number of points divides the turn: the angle between two
/// neighbouring factors of the transform.
pub proof fn lemma_turn_step(n: int) -> (step: int)
    requires
        is_power_of_two(n),
        n <= MAX_POINTS,
    ensures
        step >= 1,
        n * step == turn(),
{
    let e = lemma_exponent(n);
    lemma2_to64();
    if e > 30 {
        lemma_pow2_strictly_increases(30, e);
    }
    let rest = (64 - e) as nat;
    lemma_pow2_adds(e, rest);
    vstd::arithmetic::power2::lemma_pow2_pos(rest);
    pow2(rest) as int
}

/// Half a cycle further, the factor of the transform is the opposite.
pub proof fn lemma_twiddle_half(n: int, j: int)
    requires
        is_power_of_two(n),
        2 <= n <= MAX_POINTS,
        0 <= j < n,
    ensures
        twiddle((j + n / 2) % n, n) == negated(twiddle(j, n)),
{
    let step = lemma_turn_step(n);
    let half = n / 2;
    let there = (j + half) % n;
    lemma_mod_bound(j + half, n);
    assert((j * turn()) / n == j * step) by {
        assert(j * turn() == n * (j * step)) by (nonlinear_arith)
            requires
                n * step == turn(),
        ;
        lemma_div_multiples_vanish(j * step, n);
    }
    assert((there * turn()) / n == there * step) by {
        assert(there * turn() == n * (there * step)) by (nonlinear_arith)
            requires
                n * step == turn(),
        ;
        lemma_div_multiples_vanish(there * step, n);
    }
    assert(half * step == 0x8000_0000_0000_0000) by (nonlinear_arith)
        requires
            n * step == turn(),
            n == 2 * half,
            turn() == 0x1_0000_0000_0000_0000,
    ;
    assert(0 <= j * step < turn()) by (nonlinear_arith)
        requires
            0 <= j < n,
            n * step == turn(),
            step >= 1,
    ;
    let angle = twiddle_angle(j, n);
    if j + half < n {
        lemma_small_mod((j + half) as nat, n as nat);
        assert(there * step == j * step + half * step) by (nonlinear_arith)
            requires
                there == j + half,
        ;
    } else {
        assert(j + half == 1 * n + (j + half - n));
        lemma_fundamental_div_mod_converse(j + half, n, 1, j + half - n);
        assert(there * step == j * step + half * step - n * step) by (nonlinear_arith)
            requires
                there == j + half - n,
        ;
    }
    assert(0 <= there * step < turn()) by (nonlinear_arith)
        requires
            0 <= there < n,
            n * step == turn(),
            step >= 1,
    ;
    assert(twiddle_angle(there, n) == angle_sum(angle, HALF_TURN));
    lemma_cis_half(angle);
}

/// A place `d` in the cycle at which coefficient `k` has turned by half a
/// turn: `k * d` is half of `n`, modulo `n`.
pub proof fn lemma_half_turn_place(n: int, k: int) -> (d: int)
    requires
        is_power_of_two(n),
        0 < k < n,
    ensures
        0 <= d < n,
        (k * d) % n == n / 2,
    decreases n,
{
    if k % 2 == 1 {
        let d = n / 2;
        let q = k / 2;
        assert(k * d == q * n + d) by (nonlinear_arith)
            requires
                k == 2 * q + 1,
                n == 2 * d,
        ;
        lemma_fundamental_div_mod_converse(k * d, n, q, d);
        d
    } else {
        let half = n / 2;
        let d = lemma_half_turn_place(half, k / 2);
        assert(0 <= (k / 2) * d) by (nonlinear_arith)
            requires
                k / 2 > 0,
                d >= 0,
        ;
        lemma_truncate_middle((k / 2) * d, 2, half);
        assert(2 * ((k / 2) * d) == k * d) by (nonlinear_arith)
            requires
                k == 2 * (k / 2),
        ;
        d
    }
}

/// The term that coefficient `k` adds, `d` places further in the cycle, is
/// the opposite, where `k * d` is half of `n`, modulo `n`.
pub proof fn lemma_term_half(c: Seq<Gaussian>, k: int, d: int, i: int)
    requires
        is_power_of_two(c.len() as int),
        2 <= c.len() <= MAX_POINTS,
        0 < k < c.len(),
        0 <= d,
        (k * d) % (c.len() as int) == c.len() / 2,
        0 <= i < c.len(),
    ensures
        term(c, k, (i + d) % (c.len() as int)) == negated(term(c, k, i)),
{
    let n = c.len() as int;
    let j = (k * i) % n;
    lemma_mod_bound(k * i, n);
    lemma_mul_mod_noop_right(k, i + d, n);
    assert(k * (i + d) == k * i + k * d) by (nonlinear_arith);
    lemma_add_mod_noop(k * i, k * d, n);
    assert((k * ((i + d) % n)) % n == (j + n / 2) % n);
    lemma_twiddle_half(n, j);
    lemma_product_negates(c[k], twiddle(j, n), ONE_RAW as int);
}

/// What coefficient `k` adds to all points together.
pub open spec fn column(c: Seq<Gaussian>, k: int) -> Gaussian {
    series(|i: int| term(c, k, i), c.len() as int)
}

/// Every coefficient but the first adds nothing to the points together.
pub proof fn lemma_column_cancels(c: Seq<Gaussian>, k: int)
    requires
        is_power_of_two(c.len() as int),
        c.len() <= MAX_POINTS,
        0 < k < c.len(),
    ensures
        column(c, k) == zero(),
{
    let n = c.len() as int;
    let d = lemma_half_turn_place(n, k);
    let f = |i: int| term(c, k, i);
    assert forall|i: int| 0 <= i < n implies f((i + d) % n) == negated(#[trigger] f(i)) by {
        lemma_term_half(c, k, d, i);
    }
    lemma_series_cancels(f, n, d);
}

/// The first coefficient adds itself to every point.
pub proof fn lemma_first_column(c: Seq<Gaussian>)
    requires
        c.len() > 0,
    ensures
        column(c, 0) == times(c.len() as int, c[0]),
{
    let n = c.len() as int;
    let f = |i: int| term(c, 0, i);
    assert forall|i: int| 0 <= i < n implies #[trigger] f(i) == c[0] by {
        assert(0 * i == 0) by (nonlinear_arith);
        lemma_small_mod(0, n as nat);
        assert(0 * turn() == 0) by (nonlinear_arith);
        assert(0int / n == 0) by {
            vstd::arithmetic::div_mod::lemma_div_basics(n);
        }
        assert(twiddle_angle(0, n) == 0);
        lemma_cis_zero();
        lemma_product_with_one(c[0]);
    }
    lemma_series_constant(f, c[0], n);
}

/// What the first `upto` coefficients add to all points together.
pub open spec fn rows(c: Seq<Gaussian>, upto: int) -> Gaussian {
    series(|i: int| partial_sum(c, i, upto), c.len() as int)
}

/// The first coefficients add to all points together what the first one
/// adds.
pub proof fn lemma_rows(c: Seq<Gaussian>, upto: int)
    requires
        is_power_of_two(c.len() as int),
        c.len() <= MAX_POINTS,
        1 <= upto <= c.len(),
    ensures
        rows(c, upto) == times(c.len() as int, c[0]),
    decreases upto,
{
    let n = c.len() as int;
    let before = |i: int| partial_sum(c, i, upto - 1);
    let added = |i: int| term(c, upto - 1, i);
    let both = |i: int| sum(before(i), added(i));
    let now = |i: int| partial_sum(c, i, upto);
    assert forall|i: int| 0 <= i < n implies #[trigger] now(i) == both(i) by {}
    lemma_series_agree(now, both, n);
    lemma_series_adds(before, added, n);
    if upto == 1 {
        lemma_series_constant(before, zero(), n);
        assert(n * 0 == 0) by (nonlinear_arith);
        lemma_first_column(c);
    } else {
        lemma_rows(c, upto - 1);
        lemma_column_cancels(c, upto - 1);
    }
}

/// The real parts of the first `upto` points, added up.
pub open spec fn real_total(c: Seq<Gaussian>, upto: int) -> int
    decreases upto,
{
    if upto <= 0 {
        0
    } else {
        real_total(c, upto - 1) + inverse_spec(c)[upto - 1].re
    }
}

/// The real part of the sum of the points is the sum of their real parts.
proof fn lemma_real_total(c: Seq<Gaussian>, upto: int)
    requires
        0 <= upto <= c.len(),
    ensures
        series(|i: int| partial_sum(c, i, c.len() as int), upto).re == real_total(c, upto),
    decreases upto,
{
    if upto > 0 {
        lemma_real_total(c, upto - 1);
    }
}

/// The bins lose less than one raw unit each to rounding.
proof fn lemma_total_mass_near(c: Seq<Gaussian>, upto: int)
    requires
        0 <= upto <= c.len(),
    ensures
        -upto * (c.len() - 1) <= real_total(c, upto) - c.len() * total_mass(c, upto) <= upto * (
        c.len() - 1),
    decreases upto,
{
    let n = c.len() as int;
    if upto > 0 {
        lemma_total_mass_near(c, upto - 1);
        let x = inverse_spec(c)[upto - 1].re;
        let q = bin_mass(c, upto - 1);
        let earlier = real_total(c, upto - 1);
        let carried = total_mass(c, upto - 1);
        lemma_trunc_div_remainder(x, n);
        assert(-upto * (n - 1) <= (earlier + x) - n * (carried + q) <= upto * (n - 1))
            by (nonlinear_arith)
            requires
                -(upto - 1) * (n - 1) <= earlier - n * carried <= (upto - 1) * (n - 1),
                -n < x - n * q < n,
        ;
    } else {
        assert(n * 0 == 0 && 0 * (n - 1) == 0) by (nonlinear_arith);
    }
}

/// The bins carry the total probability: what all bins carry together
/// differs from the real part of the coefficient of the zero frequency by
/// less than one raw unit for each bin.
pub proof fn lemma_bins_carry_the_total(c: Seq<Gaussian>)
    requires
        is_power_of_two(c.len() as int),
        c.len() <= MAX_POINTS,
    ensures
        -c.len() < total_mass(c, c.len() as int) - c[0].re < c.len(),
{
    let n = c.len() as int;
    lemma_rows(c, n);
    lemma_real_total(c, n);
    lemma_total_mass_near(c, n);
    let q = total_mass(c, n);
    let x = c[0].re;
    assert(real_total(c, n) == n * x);
    assert(-n < q - x < n) by (nonlinear_arith)
        requires
            -n * (n - 1) <= n * x - n * q <= n * (n - 1),
            n >= 1,
    ;
}

/// Built from samples whose weights fit, the bins carry the total weight of
/// the samples, up to less than one raw unit for each bin.
pub proof fn lemma_sampled_mass_is_total_weight(
    samples: Seq<int>,
    period: int,
    weight: int,
    n: int,
)
    requires
        period > 0,
        is_power_of_two(n),
        n <= MAX_POINTS,
    ensures
        -n < total_mass(empirical(samples, period, weight, n), n) - samples.len() * weight < n,
{
    let c = empirical(samples, period, weight, n);
    lemma_zero_frequency_is_total_weight(samples, period, weight);
    lemma_bins_carry_the_total(c);
}

/// No bin begins before the time zero: below it there is no probability.
pub proof fn lemma_nothing_below_zero(s: Spectrum, t: int, upto: int)
    requires
        s.max_duration > 0,
        t < 0,
        0 <= upto <= s.coefficients.len(),
    ensures
        mass_below(s, t, upto) == 0,
    decreases upto,
{
    if upto > 0 {
        lemma_nothing_below_zero(s, t, upto - 1);
        assert(0 <= (upto - 1) * s.max_duration) by (nonlinear_arith)
            requires
                upto >= 1,
                s.max_duration > 0,
        ;
        lemma_div_pos_is_pos((upto - 1) * s.max_duration, s.coefficients.len() as int);
    }
}

/// Every bin begins within the window: at its end, and after it, the
/// probability is what all bins carry together.
pub proof fn lemma_everything_below_the_end(s: Spectrum, t: int, upto: int)
    requires
        s.max_duration > 0,
        t >= s.max_duration,
        0 <= upto <= s.coefficients.len(),
    ensures
        mass_below(s, t, upto) == total_mass(s.coefficients, upto),
    decreases upto,
{
    if upto > 0 {
        lemma_everything_below_the_end(s, t, upto - 1);
        let n = s.coefficients.len() as int;
        assert((upto - 1) * s.max_duration < n * s.max_duration) by (nonlinear_arith)
            requires
                upto - 1 < n,
                s.max_duration > 0,
        ;
        lemma_multiply_divide_lt((upto - 1) * s.max_duration, n, s.max_duration);
    }
}

} // verus!
