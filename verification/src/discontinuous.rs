//! Fourier coefficients of an impulse and of a step, in closed form.
//!
//! Nothing is sampled: the coefficient of each harmonic is evaluated at the
//! exact time of the event, which need not lie on any grid. The phase of a
//! harmonic is a rational part of a turn, so a time and the same time one
//! window later have the same coefficients: events outside the window wrap
//! into it.

use crate::complex::{in_unit_disk, lemma_part_bound, models, Complex, Gaussian};
use crate::error::DistributionError;
use crate::fixed::{div_toward_zero, trunc_div, Fixed};
use crate::trig::{angle_opposite, cis, cis_spec};
use vstd::arithmetic::div_mod::{
    lemma_fundamental_div_mod, lemma_fundamental_div_mod_converse, lemma_mod_bound,
    lemma_mod_multiples_vanish, lemma_multiply_divide_lt,
};
use vstd::prelude::*;

verus! {

/// One turn, in units of 2^-64 of a turn.
pub open spec fn turn() -> int {
    0x1_0000_0000_0000_0000
}

/// 2π at 60 fractional bits, rounded to nearest.
pub const TAU_FINE: i64 = 0x6487_ed51_10b4_611a;

/// What brings a product of two 32-bit raw values to the scale of
/// [`TAU_FINE`]: 2^28.
pub const TAU_SHIFT: i64 = 0x1000_0000;

/// The fundamental angular frequency of a window: 2π divided by the
/// window's length, which is what the type holds. It is positive where the
/// length is.
#[derive(Clone, Copy, Debug, PartialEq, Eq, Structural)]
pub struct AngularFrequency {
    pub period: Fixed,
}

impl AngularFrequency {
    /// The fundamental frequency of a window of length `max_duration`.
    pub fn of_window(max_duration: Fixed) -> (r: AngularFrequency)
        ensures
            r.period == max_duration,
    {
        AngularFrequency { period: max_duration }
    }

    /// Whether the frequency is positive.
    pub open spec fn is_positive(self) -> bool {
        self.period.raw > 0
    }
}

/// The part of a turn by which the first harmonic has advanced at the time
/// `t0`, in units of 2^-64 of a turn, rounded down: `t0 / period` modulo one.
pub open spec fn base_phase(period: int, t0: int) -> int {
    ((t0 % period) * turn()) / period
}

/// The angle of the `k`-th impulse coefficient: `k` times the base phase,
/// clockwise, modulo one turn.
pub open spec fn harmonic_angle(period: int, t0: int, k: int) -> u64 {
    angle_opposite(((k * base_phase(period, t0)) % turn()) as u64)
}

/// The coefficients of a unit impulse at `t0`: at index `k` the point of the
/// unit circle `exp(-i k omega t0)`.
pub open spec fn impulse_spec(period: int, t0: int, n: int) -> Seq<Gaussian> {
    Seq::new(n as nat, |k: int| cis_spec(harmonic_angle(period, t0, k)))
}

/// The `k`-th coefficient of a unit step that begins at `t0`. For `k > 0` it
/// is the impulse coefficient divided by `i k omega`, that is, turned a
/// quarter clockwise and multiplied by `period / (2 pi k)`. At `k = 0`, where
/// that has no value, it is what remains of the window after `t0`.
pub open spec fn step_term(period: int, t0: int, k: int) -> Gaussian {
    if k == 0 {
        Gaussian { re: period - t0 % period, im: 0 }
    } else {
        let e = cis_spec(harmonic_angle(period, t0, k));
        Gaussian {
            re: trunc_div(e.im * period * TAU_SHIFT, TAU_FINE * k),
            im: trunc_div(-e.re * period * TAU_SHIFT, TAU_FINE * k),
        }
    }
}

/// The coefficients of a unit step that begins at `t0`.
pub open spec fn step_spec(period: int, t0: int, n: int) -> Seq<Gaussian> {
    Seq::new(n as nat, |k: int| step_term(period, t0, k))
}

/// The base phase lies within one turn.
pub proof fn lemma_base_phase_bound(period: int, t0: int)
    requires
        period > 0,
    ensures
        0 <= base_phase(period, t0) < turn(),
        0 <= t0 % period < period,
{
    let r = t0 % period;
    lemma_mod_bound(t0, period);
    assert(r * turn() < period * turn()) by (nonlinear_arith)
        requires
            0 <= r < period,
            turn() > 0,
    ;
    assert(0 <= r * turn()) by (nonlinear_arith)
        requires
            0 <= r,
            turn() > 0,
    ;
    lemma_multiply_divide_lt(r * turn(), period, turn());
    vstd::arithmetic::div_mod::lemma_div_pos_is_pos(r * turn(), period);
}

/// Events wrap: a whole number of windows later, the base phase is the same.
pub proof fn lemma_base_phase_wraps(period: int, t0: int, windows: int)
    requires
        period > 0,
    ensures
        base_phase(period, t0 + windows * period) == base_phase(period, t0),
{
    lemma_mod_multiples_vanish(windows, t0, period);
    assert(period * windows + t0 == t0 + windows * period) by (nonlinear_arith);
}

/// Events wrap: an impulse and the same impulse a whole number of windows
/// later have the same coefficients.
pub proof fn lemma_impulse_wraps(period: int, t0: int, windows: int, n: int)
    requires
        period > 0,
    ensures
        impulse_spec(period, t0 + windows * period, n) == impulse_spec(period, t0, n),
{
    lemma_base_phase_wraps(period, t0, windows);
    assert(impulse_spec(period, t0 + windows * period, n) =~= impulse_spec(period, t0, n));
}

/// Events wrap: a step and the same step a whole number of windows later
/// have the same coefficients.
pub proof fn lemma_step_wraps(period: int, t0: int, windows: int, n: int)
    requires
        period > 0,
    ensures
        step_spec(period, t0 + windows * period, n) == step_spec(period, t0, n),
{
    lemma_base_phase_wraps(period, t0, windows);
    lemma_mod_multiples_vanish(windows, t0, period);
    assert(period * windows + t0 == t0 + windows * period) by (nonlinear_arith);
    assert(step_spec(period, t0 + windows * period, n) =~= step_spec(period, t0, n));
}

/// `t0` modulo `period`, never negative.
fn time_in_window(period: i64, t0: i64) -> (r: i64)
    requires
        period > 0,
    ensures
        r == (t0 as int) % (period as int),
        0 <= r < period,
{
    proof {
        lemma_mod_bound(t0 as int, period as int);
    }
    if t0 >= 0 {
        t0 % period
    } else {
        let y: i128 = -(t0 as i128);
        let m: i128 = y % (period as i128);
        proof {
            let p = period as int;
            lemma_fundamental_div_mod(y as int, p);
            lemma_mod_bound(y as int, p);
            let q = (y as int) / p;
            if m == 0 {
                assert(t0 as int == (-q) * p + 0) by (nonlinear_arith)
                    requires
                        y == p * q + 0,
                        t0 as int == -(y as int),
                ;
                lemma_fundamental_div_mod_converse(t0 as int, p, -q, 0);
            } else {
                assert(t0 as int == (-q - 1) * p + (p - m)) by (nonlinear_arith)
                    requires
                        y == p * q + m,
                        t0 as int == -(y as int),
                ;
                lemma_fundamental_div_mod_converse(t0 as int, p, -q - 1, p - m);
            }
        }
        if m == 0 {
            0
        } else {
            (period as i128 - m) as i64
        }
    }
}

/// The base phase of `t0` in a window of length `period`.
fn window_phase(period: i64, t0: i64) -> (phase: u64)
    requires
        period > 0,
    ensures
        phase == base_phase(period as int, t0 as int),
{
    let r: i64 = time_in_window(period, t0);
    proof {
        lemma_base_phase_bound(period as int, t0 as int);
        assert(0 <= r * turn() < 0x8000_0000_0000_0000 * turn()) by (nonlinear_arith)
            requires
                0 <= r < 0x8000_0000_0000_0000,
                turn() > 0,
        ;
    }
    let wide: u128 = (r as u128) * 0x1_0000_0000_0000_0000u128;
    (wide / (period as u128)) as u64
}

/// The angle of the `k`-th harmonic, given the base phase.
fn harmonic(phase: u64, k: usize) -> (angle: u64)
    ensures
        angle == angle_opposite(((k * phase) % turn()) as u64),
{
    assert(0 <= k * phase <= 0xffff_ffff_ffff_ffff * 0xffff_ffff_ffff_ffff) by (nonlinear_arith)
        requires
            0 <= k <= 0xffff_ffff_ffff_ffff,
            0 <= phase <= 0xffff_ffff_ffff_ffff,
    ;
    let forward: u128 = ((k as u128) * (phase as u128)) % 0x1_0000_0000_0000_0000u128;
    if forward == 0 {
        0
    } else {
        (0x1_0000_0000_0000_0000u128 - forward) as u64
    }
}

/// The Fourier coefficients of a unit impulse at the time `t0`: at index
/// `k`, for `k < n_points`, the point `exp(-i k omega t0)` of the unit
/// circle. The time is taken modulo the window.
pub fn impulse_coefficients(omega_naught: AngularFrequency, n_points: usize, t0: Fixed) -> (r:
    Result<Vec<Complex>, DistributionError>)
    ensures
        n_points == 0 ==> r == Err::<Vec<Complex>, DistributionError>(
            DistributionError::InvalidPointCount,
        ),
        n_points > 0 && !omega_naught.is_positive() ==> r == Err::<Vec<Complex>, DistributionError>(
            DistributionError::InvalidFrequency,
        ),
        n_points > 0 && omega_naught.is_positive() ==> r.is_ok() && r.unwrap()@.len() == n_points
            && models(r.unwrap()@) == impulse_spec(
            omega_naught.period.raw as int,
            t0.raw as int,
            n_points as int,
        ),
        r.is_ok() ==> forall|k: int| 0 <= k < n_points ==> in_unit_disk(#[trigger] r.unwrap()@[k]@),
{
    if n_points == 0 {
        return Err(DistributionError::InvalidPointCount);
    }
    if omega_naught.period.raw <= 0 {
        return Err(DistributionError::InvalidFrequency);
    }
    let period: i64 = omega_naught.period.raw;
    let phase: u64 = window_phase(period, t0.raw);
    let mut out: Vec<Complex> = Vec::new();
    let mut k: usize = 0;
    while k < n_points
        invariant
            0 <= k <= n_points,
            period > 0,
            phase == base_phase(period as int, t0.raw as int),
            out@.len() == k,
            forall|j: int|
                0 <= j < k ==> (#[trigger] out@[j])@ == cis_spec(
                    harmonic_angle(period as int, t0.raw as int, j),
                ),
            forall|j: int| 0 <= j < k ==> in_unit_disk(#[trigger] out@[j]@),
        decreases n_points - k,
    {
        let c: Complex = cis(harmonic(phase, k));
        out.push(c);
        k = k + 1;
    }
    proof {
        assert(models(out@) =~= impulse_spec(period as int, t0.raw as int, n_points as int));
    }
    Ok(out)
}

/// One part of a step coefficient: `part * period * 2^28 / (tau * k)`,
/// rounded toward zero.
fn step_part(part: i64, period: i64, k: usize) -> (r: i64)
    requires
        period > 0,
        k > 0,
        -0x1_0000_0000 <= part <= 0x1_0000_0000,
    ensures
        r == trunc_div(part * period * TAU_SHIFT, TAU_FINE * k),
{
    let p: i128 = part as i128;
    let t: i128 = period as i128;
    let kk: i128 = k as i128;
    assert(-0x8000_0000_0000_0000_0000_0000 < p * t < 0x8000_0000_0000_0000_0000_0000)
        by (nonlinear_arith)
        requires
            -0x1_0000_0000 <= p <= 0x1_0000_0000,
            0 < t < 0x8000_0000_0000_0000,
    ;
    let x: i128 = p * t * (TAU_SHIFT as i128);
    assert(0 < TAU_FINE * kk < 0x6487_ed51_10b4_611a * 0x1_0000_0000_0000_0000) by (nonlinear_arith)
        requires
            0 < kk < 0x1_0000_0000_0000_0000,
    ;
    let d: i128 = (TAU_FINE as i128) * kk;
    let q: i128 = div_toward_zero(x, d);
    proof {
        crate::complex::lemma_trunc_div_square(x as int, d as int);
        assert(-0x2000_0000_0000_0000 <= q <= 0x2000_0000_0000_0000) by (nonlinear_arith)
            requires
                (q * d) * (q * d) <= x * x,
                d >= 0x4000_0000_0000_0000,
                -0x800_0000_0000_0000_0000_0000_0000_0000 < x < 0x800_0000_0000_0000_0000_0000_0000_0000,
        ;
    }
    q as i64
}

/// The Fourier coefficients of a unit step that begins at the time `t0`:
/// at index `k > 0` the impulse coefficient divided by `i k omega`, and at
/// index 0 what remains of the window after `t0`. The time is taken modulo
/// the window.
pub fn step_coefficients(omega_naught: AngularFrequency, n_points: usize, t0: Fixed) -> (r: Result<
    Vec<Complex>,
    DistributionError,
>)
    ensures
        n_points == 0 ==> r == Err::<Vec<Complex>, DistributionError>(
            DistributionError::InvalidPointCount,
        ),
        n_points > 0 && !omega_naught.is_positive() ==> r == Err::<Vec<Complex>, DistributionError>(
            DistributionError::InvalidFrequency,
        ),
        n_points > 0 && omega_naught.is_positive() ==> r.is_ok() && r.unwrap()@.len() == n_points
            && models(r.unwrap()@) == step_spec(
            omega_naught.period.raw as int,
            t0.raw as int,
            n_points as int,
        ),
{
    if n_points == 0 {
        return Err(DistributionError::InvalidPointCount);
    }
    if omega_naught.period.raw <= 0 {
        return Err(DistributionError::InvalidFrequency);
    }
    let period: i64 = omega_naught.period.raw;
    let phase: u64 = window_phase(period, t0.raw);
    let inside: i64 = time_in_window(period, t0.raw);
    let mut out: Vec<Complex> = Vec::new();
    out.push(Complex::from_raw(period - inside, 0));
    let mut k: usize = 1;
    while k < n_points
        invariant
            1 <= k <= n_points,
            period > 0,
            phase == base_phase(period as int, t0.raw as int),
            out@.len() == k,
            forall|j: int|
                0 <= j < k ==> (#[trigger] out@[j])@ == step_term(
                    period as int,
                    t0.raw as int,
                    j,
                ),
        decreases n_points - k,
    {
        let e: Complex = cis(harmonic(phase, k));
        proof {
            lemma_part_bound(e@, crate::fixed::ONE_RAW as int);
        }
        let re: i64 = step_part(e.im.raw, period, k);
        let im: i64 = step_part(-e.re.raw, period, k);
        out.push(Complex::from_raw(re, im));
        k = k + 1;
    }
    proof {
        assert(models(out@) =~= step_spec(period as int, t0.raw as int, n_points as int));
    }
    Ok(out)
}

} // verus!
