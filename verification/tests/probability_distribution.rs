use statistical_pb_chance::complex::Complex;
use statistical_pb_chance::distribution::ProbabilityDistribution;
use statistical_pb_chance::error::DistributionError;
use statistical_pb_chance::fixed::Fixed;
use statistical_pb_chance::history::{SegmentHistory, Time, TimeSpan, TimingMethod};
use statistical_pb_chance::inverse::inverse_transform;

const SCALE: f64 = 4294967296.0;

fn fixed(x: f64) -> Fixed {
    Fixed::from_raw((x * SCALE).round() as i64)
}

fn value_of(x: Fixed) -> f64 {
    x.raw as f64 / SCALE
}

fn real_time(seconds: f64) -> Time {
    Time::new().with_real_time(Some(TimeSpan::from_seconds(fixed(seconds))))
}

fn assert_close(a: f64, b: f64, eps: f64) {
    assert!((a - b).abs() < eps, "{} is not within {} of {}", a, eps, b);
}

fn two_samples(first: f64, second: f64) -> SegmentHistory {
    let mut times = SegmentHistory::default();
    times.insert(1, real_time(first));
    times.insert(2, real_time(second));
    times
}

#[test]
fn test_init_probability_distribution() {
    let times = two_samples(1.2, 6.0);
    let dist =
        ProbabilityDistribution::new(&times, TimingMethod::RealTime, fixed(10.0), 256, Some(fixed(0.5)))
            .unwrap();
    assert_close(value_of(dist.probability_below(fixed(0.0))), 0.0, 0.1);
    assert_close(value_of(dist.probability_below(fixed(4.0))), 0.5, 0.1);
    assert_close(value_of(dist.probability_below(fixed(5.0))), 0.5, 0.1);
    // Past both samples the rectangle rule still misses a tenth of the mass:
    // the tail of the one-sided series decays slowly.
    assert_close(value_of(dist.probability_below(fixed(8.0))), 1.0, 0.11);
    assert_close(value_of(dist.probability_below(fixed(8.0))), 0.89198, 1.0e-4);
}

#[test]
fn test_inverse_fourier_transform() {
    let times = two_samples(0.625, 6.25);
    let dist =
        ProbabilityDistribution::new(&times, TimingMethod::RealTime, fixed(10.0), 16, Some(fixed(0.5)))
            .unwrap();
    let (_x_points, y_points) = dist.sample();
    assert_close(value_of(y_points[0]), 0.0, 1.0e-6);
    assert_close(value_of(y_points[1]), 0.5, 1.0e-6);
    assert_close(value_of(y_points[2]), 0.0, 1.0e-6);
    assert_close(value_of(y_points[9]), 0.0, 1.0e-6);
    assert_close(value_of(y_points[10]), 0.5, 1.0e-6);
    assert_close(value_of(y_points[11]), 0.0, 1.0e-6);
}

#[test]
fn add_distributions() {
    let times = two_samples(0.625, 1.25);
    let dist =
        ProbabilityDistribution::new(&times, TimingMethod::RealTime, fixed(10.0), 16, Some(fixed(0.5)))
            .unwrap();
    let sum = dist.combine(&dist).unwrap();
    let (_x_points, y_points) = sum.sample();
    assert_close(value_of(y_points[0]), 0.0, 1.0e-6);
    assert_close(value_of(y_points[1]), 0.0, 1.0e-6);
    assert_close(value_of(y_points[2]), 0.25, 1.0e-6);
    assert_close(value_of(y_points[3]), 0.5, 1.0e-6);
    assert_close(value_of(y_points[4]), 0.25, 1.0e-6);
    assert_close(value_of(y_points[5]), 0.0, 1.0e-6);
    assert_close(value_of(y_points[6]), 0.0, 1.0e-6);
}

#[test]
fn add_assign_distributions() {
    let times = two_samples(0.625, 1.25);
    let mut dist =
        ProbabilityDistribution::new(&times, TimingMethod::RealTime, fixed(10.0), 16, Some(fixed(0.5)))
            .unwrap();
    dist.combine_in_place(&dist.clone()).unwrap();
    let (_x_points, y_points) = dist.sample();
    assert_close(value_of(y_points[0]), 0.0, 1.0e-6);
    assert_close(value_of(y_points[1]), 0.0, 1.0e-6);
    assert_close(value_of(y_points[2]), 0.25, 1.0e-6);
    assert_close(value_of(y_points[3]), 0.5, 1.0e-6);
    assert_close(value_of(y_points[4]), 0.25, 1.0e-6);
    assert_close(value_of(y_points[5]), 0.0, 1.0e-6);
    assert_close(value_of(y_points[6]), 0.0, 1.0e-6);
}

const ONE: i64 = 1 << 32;

fn history_of(seconds: &[f64]) -> SegmentHistory {
    let mut times = SegmentHistory::new();
    for (attempt, &s) in seconds.iter().enumerate() {
        times.insert(attempt as i32, real_time(s));
    }
    times
}

fn build(seconds: &[f64], window: f64, points: usize, weight: Option<f64>) -> ProbabilityDistribution {
    ProbabilityDistribution::new(
        &history_of(seconds),
        TimingMethod::RealTime,
        fixed(window),
        points,
        weight.map(fixed),
    )
    .unwrap()
}

fn failure(seconds: &[f64], window: f64, points: usize, weight: Option<f64>) -> DistributionError {
    ProbabilityDistribution::new(
        &history_of(seconds),
        TimingMethod::RealTime,
        fixed(window),
        points,
        weight.map(fixed),
    )
    .unwrap_err()
}

#[test]
fn two_samples_show_at_their_bins() {
    let dist = build(&[0.625, 1.25], 10.0, 16, Some(0.5));
    let (x_points, y_points) = dist.sample();
    assert_eq!(x_points.len(), 16);
    assert_eq!(y_points.len(), 16);
    for i in 0..16 {
        assert_eq!(x_points[i].raw, (i as i64) * fixed(10.0).raw / 16);
        let expected = if i == 1 || i == 2 { 0.5 } else { 0.0 };
        assert_close(value_of(y_points[i]), expected, 1.0e-6);
    }
}

#[test]
fn the_window_and_the_points_are_kept() {
    let dist = build(&[1.0, 2.0, 3.0], 12.5, 64, None);
    assert_eq!(dist.max_duration(), fixed(12.5));
    assert_eq!(dist.omega_naught().period, fixed(12.5));
    assert_eq!(dist.point_count(), 64);
    assert_eq!(dist.coefficients().len(), 64);
}

#[test]
fn a_window_without_length_is_rejected() {
    assert_eq!(failure(&[1.0], 0.0, 16, None), DistributionError::InvalidDuration);
    assert_eq!(failure(&[1.0], -10.0, 16, None), DistributionError::InvalidDuration);
    assert_eq!(failure(&[1.0], 0.0, 0, Some(7.0)), DistributionError::InvalidDuration);
}

#[test]
fn a_point_count_that_is_no_power_of_two_is_rejected() {
    assert_eq!(failure(&[1.0], 10.0, 0, None), DistributionError::InvalidPointCount);
    assert_eq!(failure(&[1.0], 10.0, 3, None), DistributionError::InvalidPointCount);
    assert_eq!(failure(&[1.0], 10.0, 12, None), DistributionError::InvalidPointCount);
    assert_eq!(failure(&[1.0], 10.0, 10, Some(7.0)), DistributionError::InvalidPointCount);
    assert_eq!(failure(&[1.0], 10.0, 1usize << 31, None), DistributionError::InvalidPointCount);
    assert!(ProbabilityDistribution::new(&history_of(&[1.0]), TimingMethod::RealTime, fixed(10.0), 1, None).is_ok());
    assert!(ProbabilityDistribution::new(&history_of(&[1.0]), TimingMethod::RealTime, fixed(10.0), 2, None).is_ok());
}

#[test]
fn weights_of_more_than_one_together_are_rejected() {
    assert_eq!(failure(&[1.0, 2.0], 10.0, 16, Some(0.75)), DistributionError::InvalidWeight);
    assert_eq!(failure(&[1.0, 2.0], 10.0, 16, Some(-0.75)), DistributionError::InvalidWeight);
    assert_eq!(failure(&[1.0], 10.0, 16, Some(1.5)), DistributionError::InvalidWeight);
    assert!(ProbabilityDistribution::new(&history_of(&[1.0]), TimingMethod::RealTime, fixed(10.0), 16, Some(fixed(1.0))).is_ok());
    assert!(ProbabilityDistribution::new(&history_of(&[]), TimingMethod::RealTime, fixed(10.0), 16, Some(fixed(1.5))).is_ok());
}

#[test]
fn the_weight_defaults_to_one_over_the_number_of_samples() {
    let four = build(&[1.0, 2.0, 3.0, 4.0], 10.0, 8, None);
    assert_eq!(four.coefficients()[0], Complex::from_raw(ONE, 0));
    assert_eq!(four.coefficients(), build(&[1.0, 2.0, 3.0, 4.0], 10.0, 8, Some(0.25)).coefficients());
    let three = build(&[1.0, 2.0, 3.0], 10.0, 8, None);
    assert_eq!(three.coefficients()[0], Complex::from_raw(3 * (ONE / 3), 0));
}

#[test]
fn the_zero_frequency_holds_the_total_weight() {
    let dist = build(&[1.2, 6.0, 7.7], 10.0, 32, Some(0.25));
    assert_eq!(dist.coefficients()[0], Complex::from_raw(3 * (ONE / 4), 0));
}

#[test]
fn an_empty_history_gives_the_zero_distribution() {
    let dist = build(&[], 10.0, 16, None);
    for c in dist.coefficients() {
        assert_eq!(*c, Complex::from_raw(0, 0));
    }
    let (_, y_points) = dist.sample();
    for y in y_points {
        assert_eq!(y.raw, 0);
    }
    assert_eq!(dist.probability_below(fixed(5.0)).raw, 0);
}

#[test]
fn samples_without_a_time_under_the_method_are_left_out() {
    let mut times = SegmentHistory::new();
    times.insert(1, real_time(0.625));
    times.insert(2, Time::new().with_game_time(Some(TimeSpan::from_seconds(fixed(6.25)))));
    times.insert(3, Time::new());
    let by_real = ProbabilityDistribution::new(&times, TimingMethod::RealTime, fixed(10.0), 16, None).unwrap();
    let (_, y_real) = by_real.sample();
    assert_close(value_of(y_real[1]), 1.0, 1.0e-6);
    assert_close(value_of(y_real[10]), 0.0, 1.0e-6);
    let by_game = ProbabilityDistribution::new(&times, TimingMethod::GameTime, fixed(10.0), 16, None).unwrap();
    let (_, y_game) = by_game.sample();
    assert_close(value_of(y_game[1]), 0.0, 1.0e-6);
    assert_close(value_of(y_game[10]), 1.0, 1.0e-6);
}

#[test]
fn the_bins_carry_the_total_weight() {
    for &(points, ref seconds) in &[(16usize, vec![1.2, 6.0]), (64, vec![3.3]), (256, vec![0.1, 9.9, 4.0, 4.0])] {
        let dist = build(seconds, 10.0, points, None);
        let (_, y_points) = dist.sample();
        let carried: i64 = y_points.iter().map(|y| y.raw).sum();
        let total = dist.coefficients()[0].re.raw;
        assert!((carried - total).abs() < points as i64, "{} bins carry {}, not {}", points, carried, total);
        assert!((total - ONE).abs() < 4);
    }
}

#[test]
fn nothing_lies_below_zero_and_everything_below_the_end() {
    let dist = build(&[0.625, 1.25], 10.0, 16, Some(0.5));
    assert_eq!(dist.probability_below(fixed(-0.001)).raw, 0);
    assert_eq!(dist.probability_below(Fixed::from_raw(i64::MIN)).raw, 0);
    assert_close(value_of(dist.probability_below(fixed(0.0))), 0.0, 0.1);
    assert_close(value_of(dist.probability_below(fixed(10.0))), 1.0, 0.1);
    assert_close(value_of(dist.probability_below(fixed(10.0))), 1.0, 1.0e-6);
    assert_eq!(dist.probability_below(fixed(10.0)), dist.probability_below(Fixed::from_raw(i64::MAX)));
    let off_grid = build(&[1.2, 6.0], 10.0, 256, Some(0.5));
    assert_close(value_of(off_grid.probability_below(fixed(0.0))), 0.0, 0.1);
    assert_close(value_of(off_grid.probability_below(fixed(10.0))), 1.0, 1.0e-6);
}

#[test]
fn the_probability_below_adds_the_bins_up_to_the_time() {
    let dist = build(&[0.625, 1.25], 10.0, 16, Some(0.5));
    assert_close(value_of(dist.probability_below(fixed(0.624))), 0.0, 1.0e-6);
    assert_close(value_of(dist.probability_below(fixed(0.625))), 0.5, 1.0e-6);
    assert_close(value_of(dist.probability_below(fixed(1.249))), 0.5, 1.0e-6);
    assert_close(value_of(dist.probability_below(fixed(1.25))), 1.0, 1.0e-6);
    let (x_points, y_points) = dist.sample();
    let t = fixed(3.0);
    let by_hand: i64 = (0..16).filter(|&i| x_points[i].raw <= t.raw).map(|i| y_points[i].raw).sum();
    assert_eq!(dist.probability_below(t).raw, by_hand);
}

#[test]
fn distributions_of_different_shape_do_not_combine() {
    let a = build(&[1.0], 10.0, 16, None);
    let more_points = build(&[1.0], 10.0, 32, None);
    let longer = build(&[1.0], 12.0, 16, None);
    assert_eq!(a.combine(&more_points).unwrap_err(), DistributionError::DimensionMismatch);
    assert_eq!(a.combine(&longer).unwrap_err(), DistributionError::DimensionMismatch);
    let mut b = a.clone();
    assert_eq!(b.combine_in_place(&more_points), Err(DistributionError::DimensionMismatch));
    assert_eq!(b.combine_in_place(&longer), Err(DistributionError::DimensionMismatch));
    assert_eq!(b.coefficients(), a.coefficients());
    assert_eq!(b.max_duration(), a.max_duration());
}

#[test]
fn combining_multiplies_the_coefficients() {
    let a = build(&[1.2, 6.0], 10.0, 32, None);
    let b = build(&[0.3, 2.0, 4.4], 10.0, 32, None);
    let both = a.combine(&b).unwrap();
    assert_eq!(both.max_duration(), a.max_duration());
    assert_eq!(both.point_count(), 32);
    for k in 0..32 {
        assert_eq!(both.coefficients()[k], a.coefficients()[k].mul(b.coefficients()[k]));
    }
    assert_eq!(both.coefficients(), b.combine(&a).unwrap().coefficients());
}

#[test]
fn combining_in_place_leaves_the_other_as_it_is() {
    let mut a = build(&[1.2, 6.0], 10.0, 32, None);
    let b = build(&[0.3, 2.0, 4.4], 10.0, 32, None);
    let expected = a.combine(&b).unwrap();
    let b_before = b.clone();
    a.combine_in_place(&b).unwrap();
    assert_eq!(a.coefficients(), expected.coefficients());
    assert_eq!(a.max_duration(), expected.max_duration());
    assert_eq!(b.coefficients(), b_before.coefficients());
    assert_eq!(b.max_duration(), b_before.max_duration());
}

#[test]
fn combining_with_itself_convolves_the_sampled_density() {
    let n = 16usize;
    let dist = build(&[0.625, 1.25, 3.75], 10.0, n, None);
    let (_, y) = dist.sample();
    let (_, combined) = dist.combine(&dist).unwrap().sample();
    for i in 0..n {
        let mut direct = 0.0;
        for m in 0..n {
            direct += value_of(y[m]) * value_of(y[(i + n - m) % n]);
        }
        assert_close(value_of(combined[i]), direct, 1.0e-6);
    }
}

#[test]
fn combining_convolves_the_points_off_the_grid_too() {
    let n = 32usize;
    let a = build(&[1.2, 6.0], 10.0, n, None);
    let b = build(&[0.3, 2.0, 4.4], 10.0, n, None);
    let pa = inverse_transform(a.coefficients());
    let pb = inverse_transform(b.coefficients());
    let pc = inverse_transform(a.combine(&b).unwrap().coefficients());
    let scale = SCALE * n as f64;
    for i in 0..n {
        let mut re = 0.0;
        let mut im = 0.0;
        for m in 0..n {
            let (x, y) = (pa[m], pb[(i + n - m) % n]);
            let (xr, xi) = (x.re.raw as f64 / scale, x.im.raw as f64 / scale);
            let (yr, yi) = (y.re.raw as f64 / scale, y.im.raw as f64 / scale);
            re += xr * yr - xi * yi;
            im += xr * yi + xi * yr;
        }
        assert_close(pc[i].re.raw as f64 / scale, re, 1.0e-6);
        assert_close(pc[i].im.raw as f64 / scale, im, 1.0e-6);
    }
}

#[test]
fn samples_outside_the_window_wrap_into_it() {
    let inside = build(&[0.625, 1.25], 10.0, 16, Some(0.5));
    let outside = build(&[10.625, 21.25], 10.0, 16, Some(0.5));
    assert_eq!(inside.coefficients(), outside.coefficients());
}

/// The probability of each bin by the formulas, in floating point.
fn masses_by_the_formulas(seconds: &[f64], window: f64, points: usize, weight: f64) -> Vec<f64> {
    let period = fixed(window).raw as f64;
    (0..points)
        .map(|i| {
            let mut total = 0.0;
            for k in 0..points {
                let turn = std::f64::consts::TAU * k as f64;
                for &t in seconds {
                    let at = fixed(t).raw as f64;
                    total += weight * (turn * (i as f64 / points as f64 - at / period)).cos();
                }
            }
            total / points as f64
        })
        .collect()
}

#[test]
fn the_sampled_curve_follows_the_formulas() {
    let mut state: u64 = 0x2545_f491_4f6c_dd1d;
    let mut next = || {
        state ^= state << 13;
        state ^= state >> 7;
        state ^= state << 17;
        (state >> 11) as f64 / (1u64 << 53) as f64
    };
    for &points in &[1usize, 2, 8, 32, 128] {
        let window = 1.0 + 99.0 * next();
        let count = 1 + (next() * 6.0) as usize;
        let seconds: Vec<f64> = (0..count).map(|_| window * (3.0 * next() - 1.0)).collect();
        let dist = build(&seconds, window, points, None);
        let weight = ((ONE / count as i64) as f64) / SCALE;
        let expected = masses_by_the_formulas(&seconds, window, points, weight);
        let (x_points, y_points) = dist.sample();
        let mut below = 0.0;
        let threshold = 0.4 * window;
        for i in 0..points {
            assert_close(value_of(y_points[i]), expected[i], 1.0e-6);
            assert_close(value_of(x_points[i]), i as f64 * window / points as f64, 1.0e-9);
            if value_of(x_points[i]) <= threshold {
                below += expected[i];
            }
        }
        assert_close(value_of(dist.probability_below(fixed(threshold))), below, 1.0e-4);
    }
}

#[test]
fn a_sample_just_after_zero_falls_into_the_first_bin() {
    let dist = build(&[0.01], 10.0, 16, None);
    assert_close(value_of(dist.probability_below(fixed(0.0))), 0.9985, 1.0e-3);
    assert_eq!(dist.probability_below(fixed(-0.01)).raw, 0);
}
