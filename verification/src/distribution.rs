//! The distribution of a time, as a truncated Fourier series.

use crate::complex::{
    in_unit_disk, lemma_part_bound, lemma_scaled_bound, lemma_sum_bound, models, norm_sq, product,
    scaled, sum, Complex, Gaussian,
};
use crate::discontinuous::{harmonic_angle, impulse_coefficients, AngularFrequency};
use crate::error::DistributionError;
use crate::fixed::{div_toward_zero, trunc_div, Fixed, ONE_RAW};
use crate::history::{present_times, SegmentHistory, TimingMethod};
use crate::inverse::{
    all_in_unit_disk, inverse_spec, inverse_transform, lemma_partial_sum_bound, MAX_POINTS,
};
use crate::laws::{
    lemma_bins_carry_the_total, lemma_everything_below_the_end, lemma_nothing_below_zero,
    lemma_zero_frequency_is_total_weight,
};
use crate::trig::cis_spec;
use vstd::prelude::*;

verus! {

/// `n` is a power of two.
pub open spec fn is_power_of_two(n: int) -> bool
    decreases n,
{
    n == 1 || (n > 1 && n % 2 == 0 && is_power_of_two(n / 2))
}

/// `n` is a number of points that a distribution can have: a power of two
/// that the transform takes.
pub open spec fn supported_point_count(n: int) -> bool {
    is_power_of_two(n) && n <= MAX_POINTS
}

/// The size of `w`.
pub open spec fn magnitude(w: int) -> int {
    if w >= 0 {
        w
    } else {
        -w
    }
}

/// The weight of each sample: the one given, or else one divided by the
/// number of samples, rounded down (zero where there is no sample).
pub open spec fn effective_weight(weight: Option<Fixed>, count: int) -> int {
    match weight {
        Some(w) => w.raw as int,
        None => if count == 0 {
            0
        } else {
            (ONE_RAW as int) / count
        },
    }
}

/// `count` samples of weight `weight` weigh at most one together.
pub open spec fn weight_fits(weight: int, count: int) -> bool {
    count * magnitude(weight) <= ONE_RAW
}

/// Coefficient `k` of the sum of impulses at `times`, each of weight
/// `weight`, in a window of length `period`.
pub open spec fn coefficient(times: Seq<int>, period: int, weight: int, k: int) -> Gaussian
    decreases times.len(),
{
    if times.len() == 0 {
        Gaussian { re: 0, im: 0 }
    } else {
        sum(
            coefficient(times.drop_last(), period, weight, k),
            scaled(cis_spec(harmonic_angle(period, times.last(), k)), weight),
        )
    }
}

/// The first `n` coefficients of the sum of impulses at `times`.
pub open spec fn empirical(times: Seq<int>, period: int, weight: int, n: int) -> Seq<Gaussian> {
    Seq::new(n as nat, |k: int| coefficient(times, period, weight, k))
}

/// What a distribution is: the raw length of its window and its
/// coefficients.
pub ghost struct Spectrum {
    pub max_duration: int,
    pub coefficients: Seq<Gaussian>,
}

/// What building a distribution from the times `samples` gives. A window
/// without length is rejected first, then a number of points that is not
/// supported, then weights that add up to more than one in size.
pub open spec fn construction(
    samples: Seq<int>,
    max_duration: int,
    point_count: int,
    weight_per_sample: Option<Fixed>,
) -> Result<Spectrum, DistributionError> {
    let weight = effective_weight(weight_per_sample, samples.len() as int);
    if max_duration <= 0 {
        Err(DistributionError::InvalidDuration)
    } else if !supported_point_count(point_count) {
        Err(DistributionError::InvalidPointCount)
    } else if !weight_fits(weight, samples.len() as int) {
        Err(DistributionError::InvalidWeight)
    } else {
        Ok(
            Spectrum {
                max_duration,
                coefficients: empirical(samples, max_duration, weight, point_count),
            },
        )
    }
}

/// Two distributions can be combined: same window, same number of points.
pub open spec fn compatible(a: Spectrum, b: Spectrum) -> bool {
    a.max_duration == b.max_duration && a.coefficients.len() == b.coefficients.len()
}

/// The distribution of the sum of two independent times: coefficient by
/// coefficient, the product.
pub open spec fn combined(a: Spectrum, b: Spectrum) -> Spectrum {
    Spectrum {
        max_duration: a.max_duration,
        coefficients: Seq::new(
            a.coefficients.len(),
            |k: int| product(a.coefficients[k], b.coefficients[k], ONE_RAW as int),
        ),
    }
}

/// The raw time at which bin `i` of `n` begins.
pub open spec fn bin_coordinate(max_duration: int, n: int, i: int) -> int {
    (i * max_duration) / n
}

/// The probability that bin `i` carries: the real part of point `i` of the
/// inverse transform, divided by the number of points.
pub open spec fn bin_mass(c: Seq<Gaussian>, i: int) -> int {
    trunc_div(inverse_spec(c)[i].re, c.len() as int)
}

/// The probability that the first `upto` bins carry together.
pub open spec fn total_mass(c: Seq<Gaussian>, upto: int) -> int
    decreases upto,
{
    if upto <= 0 {
        0
    } else {
        total_mass(c, upto - 1) + bin_mass(c, upto - 1)
    }
}

/// The probability carried by those of the first `upto` bins that begin at
/// `t` or before.
pub open spec fn mass_below(s: Spectrum, t: int, upto: int) -> int
    decreases upto,
{
    if upto <= 0 {
        0
    } else {
        mass_below(s, t, upto - 1) + if bin_coordinate(
            s.max_duration,
            s.coefficients.len() as int,
            upto - 1,
        ) <= t {
            bin_mass(s.coefficients, upto - 1)
        } else {
            0
        }
    }
}

/// Whether `n` is a power of two.
pub fn power_of_two(n: usize) -> (r: bool)
    ensures
        r == is_power_of_two(n as int),
{
    if n == 0 {
        return false;
    }
    let mut m: usize = n;
    while m % 2 == 0
        invariant
            m >= 1,
            is_power_of_two(m as int) == is_power_of_two(n as int),
        decreases m,
    {
        m = m / 2;
    }
    m == 1
}

/// The distribution of a time over the window from zero to `max_duration`,
/// as the first coefficients of its Fourier series. Coefficient `k` stands
/// for the angular frequency `k` times the fundamental one; coefficient 0 is
/// the total probability.
#[derive(Debug)]
pub struct ProbabilityDistribution {
    max_duration: Fixed,
    coefficients: Vec<Complex>,
}

impl View for ProbabilityDistribution {
    type V = Spectrum;

    closed spec fn view(&self) -> Spectrum {
        Spectrum {
            max_duration: self.max_duration.raw as int,
            coefficients: models(self.coefficients@),
        }
    }
}

impl Clone for ProbabilityDistribution {
    fn clone(&self) -> (r: ProbabilityDistribution)
        ensures
            r@ == self@,
    {
        proof {
            use_type_invariant(self);
        }
        let n: usize = self.coefficients.len();
        let mut coefficients: Vec<Complex> = Vec::new();
        let mut k: usize = 0;
        while k < n
            invariant
                k <= n,
                n == self.coefficients@.len(),
                coefficients@ == self.coefficients@.take(k as int),
            decreases n - k,
        {
            coefficients.push(self.coefficients[k]);
            assert(coefficients@ =~= self.coefficients@.take(k as int + 1));
            k = k + 1;
        }
        assert(coefficients@ =~= self.coefficients@);
        ProbabilityDistribution { max_duration: self.max_duration, coefficients }
    }
}

impl ProbabilityDistribution {
    /// The window has a length, the number of points is supported, and no
    /// coefficient is more than one in size. This holds of every
    /// distribution.
    pub open spec fn well_formed(&self) -> bool {
        &&& self@.max_duration > 0
        &&& supported_point_count(self@.coefficients.len() as int)
        &&& all_in_unit_disk(self@.coefficients)
    }

    #[verifier::type_invariant]
    spec fn always(&self) -> bool {
        self.well_formed()
    }

    /// The empirical distribution of the times that `history` holds under
    /// `timing_method`: one impulse for each, of weight `weight_per_sample`,
    /// or, where none is given, of one divided by their number. A history
    /// without such times gives the distribution that is zero everywhere.
    pub fn new(
        history: &SegmentHistory,
        timing_method: TimingMethod,
        max_duration: Fixed,
        point_count: usize,
        weight_per_sample: Option<Fixed>,
    ) -> (r: Result<ProbabilityDistribution, DistributionError>)
        ensures
            match r {
                Ok(d) => d.well_formed() && construction(
                    present_times(history@, timing_method),
                    max_duration.raw as int,
                    point_count as int,
                    weight_per_sample,
                ) == Ok::<Spectrum, DistributionError>(d@),
                Err(e) => construction(
                    present_times(history@, timing_method),
                    max_duration.raw as int,
                    point_count as int,
                    weight_per_sample,
                ) == Err::<Spectrum, DistributionError>(e),
            },
            r.is_ok() ==> r.unwrap()@.coefficients[0] == (Gaussian {
                re: present_times(history@, timing_method).len() * effective_weight(
                    weight_per_sample,
                    present_times(history@, timing_method).len() as int,
                ),
                im: 0,
            }),
    {
        if max_duration.raw <= 0 {
            return Err(DistributionError::InvalidDuration);
        }
        if point_count > MAX_POINTS || !power_of_two(point_count) {
            return Err(DistributionError::InvalidPointCount);
        }
        let times: Vec<Fixed> = history.times(timing_method);
        let count: usize = times.len();
        let ghost ts = present_times(history@, timing_method);
        let weight: Fixed = match weight_per_sample {
            Some(w) => w,
            None => if count == 0 {
                Fixed::from_raw(0)
            } else {
                Fixed::from_raw(((ONE_RAW as i128) / (count as i128)) as i64)
            },
        };
        let size: i128 = if weight.raw >= 0 {
            weight.raw as i128
        } else {
            -(weight.raw as i128)
        };
        assert(0 <= count * size <= 0xffff_ffff_ffff_ffff * 0x8000_0000_0000_0000)
            by (nonlinear_arith)
            requires
                0 <= count <= 0xffff_ffff_ffff_ffff,
                0 <= size <= 0x8000_0000_0000_0000,
        ;
        if (count as i128) * size > ONE_RAW as i128 {
            return Err(DistributionError::InvalidWeight);
        }
        let ghost period: int = max_duration.raw as int;
        let ghost w: int = weight.raw as int;
        let omega: AngularFrequency = AngularFrequency::of_window(max_duration);
        let mut acc: Vec<Complex> = Vec::new();
        let mut k: usize = 0;
        while k < point_count
            invariant
                k <= point_count,
                acc@.len() == k,
                forall|a: int| 0 <= a < k ==> (#[trigger] acc@[a])@ == (Gaussian { re: 0, im: 0 }),
            decreases point_count - k,
        {
            acc.push(Complex::zero());
            k = k + 1;
        }
        let mut j: usize = 0;
        proof {
            assert(ts.take(0).len() == 0);
            assert forall|a: int| 0 <= a < point_count implies norm_sq(#[trigger] acc@[a]@) <= (0
                * size) * (0 * size) by {
                assert(acc@[a]@ == (Gaussian { re: 0, im: 0 }));
                assert((0 * size) * (0 * size) == 0) by (nonlinear_arith);
            }
        }
        while j < count
            invariant
                0 <= j <= count,
                count == times@.len(),
                count == ts.len(),
                forall|a: int| 0 <= a < count ==> (#[trigger] times@[a]).raw == ts[a],
                period == max_duration.raw,
                period > 0,
                omega.period == max_duration,
                w == weight.raw,
                size == magnitude(w),
                count * size <= ONE_RAW,
                0 < point_count <= MAX_POINTS,
                acc@.len() == point_count,
                forall|a: int|
                    0 <= a < point_count ==> (#[trigger] acc@[a])@ == coefficient(
                        ts.take(j as int),
                        period,
                        w,
                        a,
                    ),
                forall|a: int|
                    0 <= a < point_count ==> norm_sq(#[trigger] acc@[a]@) <= (j * size) * (j * size),
            decreases count - j,
        {
            let impulse: Vec<Complex> = match impulse_coefficients(omega, point_count, times[j]) {
                Ok(v) => v,
                Err(e) => {
                    return Err(e);
                },
            };
            let ghost before = acc@;
            let ghost shorter = ts.take(j as int);
            let ghost longer = ts.take(j as int + 1);
            proof {
                assert(longer.drop_last() == shorter);
                assert(longer.last() == ts[j as int]);
                assert(0 <= j * size && (j + 1) * size <= count * size && (j + 1) * size == j * size
                    + size) by (nonlinear_arith)
                    requires
                        0 <= j < count,
                        size >= 0,
                ;
                assert(size * size == w * w) by (nonlinear_arith)
                    requires
                        size == w || size == -w,
                ;
            }
            let mut k: usize = 0;
            while k < point_count
                invariant
                    0 <= k <= point_count,
                    0 <= j < count,
                    period > 0,
                    size == magnitude(w),
                    w == weight.raw,
                    size * size == w * w,
                    0 <= j * size,
                    (j + 1) * size == j * size + size,
                    (j + 1) * size <= ONE_RAW,
                    acc@.len() == point_count,
                    before.len() == point_count,
                    impulse@.len() == point_count,
                    models(impulse@) == crate::discontinuous::impulse_spec(
                        period,
                        ts[j as int],
                        point_count as int,
                    ),
                    forall|a: int| 0 <= a < point_count ==> in_unit_disk(#[trigger] impulse@[a]@),
                    longer.drop_last() == shorter,
                    longer.last() == ts[j as int],
                    longer.len() > 0,
                    forall|a: int|
                        0 <= a < point_count ==> (#[trigger] before[a])@ == coefficient(
                            shorter,
                            period,
                            w,
                            a,
                        ),
                    forall|a: int|
                        0 <= a < point_count ==> norm_sq(#[trigger] before[a]@) <= (j * size) * (j
                            * size),
                    forall|a: int| k <= a < point_count ==> (#[trigger] acc@[a]) == before[a],
                    forall|a: int|
                        0 <= a < k ==> (#[trigger] acc@[a])@ == coefficient(longer, period, w, a),
                    forall|a: int|
                        0 <= a < k ==> norm_sq(#[trigger] acc@[a]@) <= ((j + 1) * size) * ((j + 1)
                            * size),
                decreases point_count - k,
            {
                let e: Complex = impulse[k];
                let old_value: Complex = acc[k];
                proof {
                    assert(e@ == models(impulse@)[k as int]);
                    assert(old_value == before[k as int]);
                    lemma_scaled_bound(e@, w);
                    lemma_sum_bound(old_value@, scaled(e@, w), j * size, size as int);
                    lemma_part_bound(sum(old_value@, scaled(e@, w)), (j + 1) * size);
                    lemma_part_bound(e@, ONE_RAW as int);
                }
                let s: Complex = e.scale(weight);
                let next: Complex = old_value.plus(s);
                acc[k] = next;
                k = k + 1;
            }
            j = j + 1;
        }
        proof {
            assert(ts.take(count as int) == ts);
            assert((count * size) * (count * size) <= (ONE_RAW as int) * (ONE_RAW as int))
                by (nonlinear_arith)
                requires
                    0 <= count * size <= ONE_RAW,
            ;
            assert(models(acc@) =~= empirical(ts, period, w, point_count as int));
            lemma_zero_frequency_is_total_weight(ts, period, w);
        }
        Ok(ProbabilityDistribution { max_duration, coefficients: acc })
    }

    /// The length of the window.
    pub fn max_duration(&self) -> (r: Fixed)
        ensures
            r.raw == self@.max_duration,
            r.raw > 0,
    {
        proof {
            use_type_invariant(self);
        }
        self.max_duration
    }

    /// The fundamental angular frequency: 2π divided by the length of the
    /// window.
    pub fn omega_naught(&self) -> (r: AngularFrequency)
        ensures
            r.period.raw == self@.max_duration,
            r.is_positive(),
    {
        proof {
            use_type_invariant(self);
        }
        AngularFrequency::of_window(self.max_duration)
    }

    /// The number of points.
    pub fn point_count(&self) -> (n: usize)
        ensures
            n == self@.coefficients.len(),
            supported_point_count(n as int),
    {
        proof {
            use_type_invariant(self);
        }
        self.coefficients.len()
    }

    /// The coefficients, from the zero frequency up.
    pub fn coefficients(&self) -> (r: &Vec<Complex>)
        ensures
            models(r@) == self@.coefficients,
            self.well_formed(),
    {
        proof {
            use_type_invariant(self);
        }
        &self.coefficients
    }

    /// The product of the coefficients of `self` and `other`, one by one.
    fn products(&self, other: &ProbabilityDistribution) -> (r: Vec<Complex>)
        requires
            compatible(self@, other@),
        ensures
            models(r@) == combined(self@, other@).coefficients,
            all_in_unit_disk(models(r@)),
            self.well_formed(),
    {
        proof {
            use_type_invariant(self);
            use_type_invariant(other);
        }
        let n: usize = self.coefficients.len();
        let mut out: Vec<Complex> = Vec::new();
        let mut k: usize = 0;
        while k < n
            invariant
                0 <= k <= n,
                n == self.coefficients@.len(),
                n == other.coefficients@.len(),
                self.well_formed(),
                other.well_formed(),
                out@.len() == k,
                forall|a: int|
                    0 <= a < k ==> (#[trigger] out@[a])@ == product(
                        self.coefficients@[a]@,
                        other.coefficients@[a]@,
                        ONE_RAW as int,
                    ),
                forall|a: int| 0 <= a < k ==> in_unit_disk(#[trigger] out@[a]@),
            decreases n - k,
        {
            assert(in_unit_disk(models(self.coefficients@)[k as int]));
            assert(in_unit_disk(models(other.coefficients@)[k as int]));
            let p: Complex = self.coefficients[k].mul(other.coefficients[k]);
            out.push(p);
            k = k + 1;
        }
        proof {
            assert(models(out@) =~= combined(self@, other@).coefficients);
        }
        out
    }

    /// The distribution of the sum of two independent times, one distributed
    /// as `self` and one as `other`: the coefficients are multiplied one by
    /// one, which convolves the densities.
    pub fn combine(&self, other: &ProbabilityDistribution) -> (r: Result<
        ProbabilityDistribution,
        DistributionError,
    >)
        ensures
            !compatible(self@, other@) ==> r == Err::<ProbabilityDistribution, DistributionError>(
                DistributionError::DimensionMismatch,
            ),
            compatible(self@, other@) ==> r.is_ok() && r.unwrap().well_formed() && r.unwrap()@
                == combined(self@, other@),
    {
        if self.coefficients.len() != other.coefficients.len() || self.max_duration.raw
            != other.max_duration.raw {
            return Err(DistributionError::DimensionMismatch);
        }
        let coefficients: Vec<Complex> = self.products(other);
        Ok(ProbabilityDistribution { max_duration: self.max_duration, coefficients })
    }

    /// Makes `self` the distribution of the sum of its time and an
    /// independent time distributed as `other`. Where the two cannot be
    /// combined, `self` stays as it is.
    pub fn combine_in_place(&mut self, other: &ProbabilityDistribution) -> (r: Result<
        (),
        DistributionError,
    >)
        ensures
            !compatible(old(self)@, other@) ==> r == Err::<(), DistributionError>(
                DistributionError::DimensionMismatch,
            ) && final(self)@ == old(self)@,
            compatible(old(self)@, other@) ==> r.is_ok() && final(self)@ == combined(
                old(self)@,
                other@,
            ),
            final(self).well_formed(),
    {
        proof {
            use_type_invariant(&*self);
        }
        if self.coefficients.len() != other.coefficients.len() || self.max_duration.raw
            != other.max_duration.raw {
            return Err(DistributionError::DimensionMismatch);
        }
        let coefficients: Vec<Complex> = self.products(other);
        self.coefficients = coefficients;
        Ok(())
    }

    /// The distribution on a grid: the times at which the bins begin, and
    /// the probability that each bin carries, which is the density there
    /// times the width of a bin. Bin `i` begins at `i * max_duration / n`.
    pub fn sample(&self) -> (r: (Vec<Fixed>, Vec<Fixed>))
        ensures
            r.0@.len() == self@.coefficients.len(),
            r.1@.len() == self@.coefficients.len(),
            forall|i: int|
                0 <= i < self@.coefficients.len() ==> (#[trigger] r.0@[i]).raw == bin_coordinate(
                    self@.max_duration,
                    self@.coefficients.len() as int,
                    i,
                ),
            forall|i: int|
                0 <= i < self@.coefficients.len() ==> (#[trigger] r.1@[i]).raw == bin_mass(
                    self@.coefficients,
                    i,
                ),
            -self@.coefficients.len() < total_mass(
                self@.coefficients,
                self@.coefficients.len() as int,
            ) - self@.coefficients[0].re < self@.coefficients.len(),
    {
        proof {
            use_type_invariant(self);
            lemma_bins_carry_the_total(self@.coefficients);
        }
        let n: usize = self.coefficients.len();
        let points: Vec<Complex> = inverse_transform(&self.coefficients);
        let ghost c = self@.coefficients;
        let period: i64 = self.max_duration.raw;
        let mut xs: Vec<Fixed> = Vec::new();
        let mut ys: Vec<Fixed> = Vec::new();
        let mut i: usize = 0;
        while i < n
            invariant
                0 <= i <= n <= MAX_POINTS,
                n == c.len(),
                n == points@.len(),
                c == self@.coefficients,
                all_in_unit_disk(c),
                models(points@) == inverse_spec(c),
                period == self@.max_duration,
                period > 0,
                xs@.len() == i,
                ys@.len() == i,
                forall|a: int|
                    0 <= a < i ==> (#[trigger] xs@[a]).raw == bin_coordinate(
                        period as int,
                        n as int,
                        a,
                    ),
                forall|a: int| 0 <= a < i ==> (#[trigger] ys@[a]).raw == bin_mass(c, a),
            decreases n - i,
        {
            proof {
                assert(0 <= i * period < n * period && n * period <= 0x4000_0000
                    * 0x8000_0000_0000_0000) by (nonlinear_arith)
                    requires
                        0 <= i < n <= 0x4000_0000,
                        0 < period < 0x8000_0000_0000_0000,
                ;
                vstd::arithmetic::div_mod::lemma_multiply_divide_lt(
                    i * period,
                    n as int,
                    period as int,
                );
                vstd::arithmetic::div_mod::lemma_div_pos_is_pos(i * period, n as int);
                lemma_bin_mass_bound(c, i as int);
                assert(models(points@)[i as int] == points@[i as int]@);
            }
            let x: i128 = ((i as i128) * (period as i128)) / (n as i128);
            let y: i128 = div_toward_zero(points[i].re.raw as i128, n as i128);
            xs.push(Fixed::from_raw(x as i64));
            ys.push(Fixed::from_raw(y as i64));
            i = i + 1;
        }
        (xs, ys)
    }

    /// The probability of a time of `t` or less: the sum of what the bins
    /// carry that begin at `t` or before.
    pub fn probability_below(&self, t: Fixed) -> (p: Fixed)
        ensures
            p.raw == mass_below(self@, t.raw as int, self@.coefficients.len() as int),
            t.raw < 0 ==> p.raw == 0,
            t.raw >= self@.max_duration ==> -self@.coefficients.len() < p.raw
                - self@.coefficients[0].re < self@.coefficients.len(),
    {
        proof {
            use_type_invariant(self);
            let n = self@.coefficients.len() as int;
            if t.raw < 0 {
                lemma_nothing_below_zero(self@, t.raw as int, n);
            }
            if t.raw >= self@.max_duration {
                lemma_everything_below_the_end(self@, t.raw as int, n);
                lemma_bins_carry_the_total(self@.coefficients);
            }
        }
        let n: usize = self.coefficients.len();
        let grid: (Vec<Fixed>, Vec<Fixed>) = self.sample();
        let mut total: i64 = 0;
        let mut i: usize = 0;
        while i < n
            invariant
                0 <= i <= n <= MAX_POINTS,
                n == self@.coefficients.len(),
                all_in_unit_disk(self@.coefficients),
                grid.0@.len() == n,
                grid.1@.len() == n,
                forall|a: int|
                    0 <= a < n ==> (#[trigger] grid.0@[a]).raw == bin_coordinate(
                        self@.max_duration,
                        n as int,
                        a,
                    ),
                forall|a: int|
                    0 <= a < n ==> (#[trigger] grid.1@[a]).raw == bin_mass(self@.coefficients, a),
                total == mass_below(self@, t.raw as int, i as int),
                -i * ONE_RAW <= total <= i * ONE_RAW,
            decreases n - i,
        {
            proof {
                lemma_bin_mass_bound(self@.coefficients, i as int);
                assert((i + 1) * ONE_RAW == i * ONE_RAW + ONE_RAW && (i + 1) * ONE_RAW
                    <= 0x4000_0000 * 0x1_0000_0000) by (nonlinear_arith)
                    requires
                        0 <= i < 0x4000_0000,
                ;
            }
            if grid.0[i].raw <= t.raw {
                total = total + grid.1[i].raw;
            }
            i = i + 1;
        }
        Fixed::from_raw(total)
    }
}

/// No bin carries more than one in size.
pub proof fn lemma_bin_mass_bound(c: Seq<Gaussian>, i: int)
    requires
        0 <= i < c.len(),
        all_in_unit_disk(c),
    ensures
        -ONE_RAW <= bin_mass(c, i) <= ONE_RAW,
        -c.len() * ONE_RAW <= inverse_spec(c)[i].re <= c.len() * ONE_RAW,
{
    let n = c.len() as int;
    lemma_partial_sum_bound(c, i, n);
    let x = inverse_spec(c)[i].re;
    let q = bin_mass(c, i);
    crate::complex::lemma_trunc_div_square(x, n);
    assert(-ONE_RAW <= q <= ONE_RAW) by (nonlinear_arith)
        requires
            (q * n) * (q * n) <= x * x,
            -n * ONE_RAW <= x <= n * ONE_RAW,
            n > 0,
    ;
}

} // verus!
