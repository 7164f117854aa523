use rustfft::num_complex::Complex as FloatComplex;
use rustfft::FftPlanner;
use statistical_pb_chance::complex::Complex;
use statistical_pb_chance::discontinuous::{impulse_coefficients, step_coefficients, AngularFrequency};
use statistical_pb_chance::error::DistributionError;
use statistical_pb_chance::fixed::Fixed;
use statistical_pb_chance::inverse::inverse_transform;

const SCALE: f64 = 4294967296.0;

fn fixed(x: f64) -> Fixed {
    Fixed::from_raw((x * SCALE).round() as i64)
}

fn window(seconds: f64) -> AngularFrequency {
    AngularFrequency::of_window(fixed(seconds))
}

fn floats(values: &[Complex]) -> Vec<FloatComplex<f32>> {
    values
        .iter()
        .map(|c| FloatComplex::new((c.re.raw as f64 / SCALE) as f32, (c.im.raw as f64 / SCALE) as f32))
        .collect()
}

fn assert_close(a: f64, b: f64, eps: f64) {
    assert!((a - b).abs() < eps, "{} is not within {} of {}", a, eps, b);
}

/// Inverse transform by the outside engine, then the magnitude of each point
/// divided by their number.
fn normalized_magnitudes(values: &[Complex]) -> Vec<f32> {
    let mut buffer = floats(values);
    let mut planner = FftPlanner::new();
    let fft = planner.plan_fft_inverse(buffer.len());
    fft.process(&mut buffer);
    let n = buffer.len() as f32;
    buffer.iter().map(|x| (x.re * x.re + x.im * x.im).sqrt() / n).collect()
}

#[test]
fn test_ten_element_dirac_delta() {
    let duration = 10;
    let delta_fourier = impulse_coefficients(window(duration as f64), duration, fixed(0.0)).unwrap();
    let magnitudes = normalized_magnitudes(&delta_fourier);
    assert_close(magnitudes[0] as f64, 1.0, 1.0e-6);
    for i in 1..magnitudes.len() {
        assert_close(magnitudes[i] as f64, 0.0, 1.0e-6);
    }
}

#[test]
fn test_dirac_delta_different_duration() {
    let points = 16;
    let delta_fourier = impulse_coefficients(window(10.0), points, fixed(0.0)).unwrap();
    let magnitudes = normalized_magnitudes(&delta_fourier);
    assert_close(magnitudes[0] as f64, 1.0, 1.0e-6);
    for i in 1..magnitudes.len() {
        assert_close(magnitudes[i] as f64, 0.0, 1.0e-6);
    }
}

#[test]
fn test_dirac_delta_non_integer() {
    let points = 16;
    let delta_fourier = impulse_coefficients(window(10.0), points, fixed(1.2)).unwrap();
    let expected: [(f64, f64); 16] = [
        (1.0, -0.0),
        (0.72896856, -0.6845472),
        (0.06279038, -0.9980267),
        (-0.6374242, -0.7705131),
        (-0.9921147, -0.12533297),
        (-0.8090168, 0.58778554),
        (-0.18738091, 0.98228735),
        (0.535827, 0.8443278),
        (0.9685833, 0.24868935),
        (0.87630624, -0.48175442),
        (0.30901635, -0.9510567),
        (-0.42577976, -0.9048268),
        (-0.9297768, -0.3681238),
        (-0.9297761, 0.36812562),
        (-0.42577887, 0.90482724),
        (0.30901775, 0.95105624),
    ];
    assert_eq!(delta_fourier.len(), 16);
    for k in 0..16 {
        assert_close(delta_fourier[k].re.raw as f64 / SCALE, expected[k].0, 2.0e-6);
        assert_close(delta_fourier[k].im.raw as f64 / SCALE, expected[k].1, 2.0e-6);
    }
    let magnitudes = normalized_magnitudes(&delta_fourier);
    assert_eq!(magnitudes.len(), 16);
}

#[test]
fn impulse_matches_the_closed_form() {
    for &(t, n, t0) in &[(10.0, 16usize, 1.2), (10.0, 256, 6.0), (3.5, 7, 2.25), (16.0, 16, 10.5)] {
        let c = impulse_coefficients(window(t), n, fixed(t0)).unwrap();
        assert_eq!(c.len(), n);
        let period = fixed(t).raw as f64;
        let at = fixed(t0).raw as f64;
        for k in 0..n {
            let angle = -std::f64::consts::TAU * (k as f64) * at / period;
            assert_close(c[k].re.raw as f64 / SCALE, angle.cos(), 1.0e-8);
            assert_close(c[k].im.raw as f64 / SCALE, angle.sin(), 1.0e-8);
        }
    }
}

#[test]
fn impulse_at_zero_is_all_ones() {
    let c = impulse_coefficients(window(10.0), 10, fixed(0.0)).unwrap();
    for k in 0..10 {
        assert_eq!(c[k], Complex::from_raw(1 << 32, 0));
    }
}

#[test]
fn impulse_by_the_library_transform() {
    let c = impulse_coefficients(window(10.0), 10, fixed(0.0)).unwrap();
    let points = inverse_transform(&c);
    assert_eq!(points.len(), 10);
    assert_close(points[0].re.raw as f64 / SCALE / 10.0, 1.0, 1.0e-6);
    for i in 1..10 {
        assert_close(points[i].re.raw as f64 / SCALE / 10.0, 0.0, 1.0e-6);
        assert_close(points[i].im.raw as f64 / SCALE / 10.0, 0.0, 1.0e-6);
    }
}

#[test]
fn impulse_wraps_into_the_window() {
    let inside = impulse_coefficients(window(10.0), 32, fixed(1.2)).unwrap();
    let later = impulse_coefficients(window(10.0), 32, Fixed::from_raw(fixed(1.2).raw + 3 * fixed(10.0).raw)).unwrap();
    let earlier = impulse_coefficients(window(10.0), 32, Fixed::from_raw(fixed(1.2).raw - 2 * fixed(10.0).raw)).unwrap();
    assert_eq!(inside, later);
    assert_eq!(inside, earlier);
}

#[test]
fn impulse_rejects_no_points_and_no_frequency() {
    assert_eq!(impulse_coefficients(window(10.0), 0, fixed(1.0)), Err(DistributionError::InvalidPointCount));
    assert_eq!(impulse_coefficients(window(0.0), 4, fixed(1.0)), Err(DistributionError::InvalidFrequency));
    assert_eq!(impulse_coefficients(window(-2.0), 4, fixed(1.0)), Err(DistributionError::InvalidFrequency));
    assert_eq!(impulse_coefficients(window(0.0), 0, fixed(1.0)), Err(DistributionError::InvalidPointCount));
    assert_eq!(step_coefficients(window(10.0), 0, fixed(1.0)), Err(DistributionError::InvalidPointCount));
    assert_eq!(step_coefficients(window(0.0), 4, fixed(1.0)), Err(DistributionError::InvalidFrequency));
    assert_eq!(step_coefficients(window(-2.0), 4, fixed(1.0)), Err(DistributionError::InvalidFrequency));
}

#[test]
fn step_matches_the_closed_form() {
    for &(t, n, t0) in &[(16.0, 16usize, 10.5), (10.0, 8, 1.2), (3.5, 5, 9.0)] {
        let c = step_coefficients(window(t), n, fixed(t0)).unwrap();
        assert_eq!(c.len(), n);
        let inside = t0 % t;
        assert_close(c[0].re.raw as f64 / SCALE, t - inside, 1.0e-8);
        assert_eq!(c[0].im.raw, 0);
        let omega = std::f64::consts::TAU / t;
        for k in 1..n {
            let angle = -(k as f64) * omega * t0;
            let divisor = (k as f64) * omega;
            // (cos + i sin) / (i d) = sin / d - i cos / d
            assert_close(c[k].re.raw as f64 / SCALE, angle.sin() / divisor, 1.0e-8);
            assert_close(c[k].im.raw as f64 / SCALE, -angle.cos() / divisor, 1.0e-8);
        }
    }
}

#[test]
fn step_wraps_into_the_window() {
    let inside = step_coefficients(window(16.0), 16, fixed(10.5)).unwrap();
    let later = step_coefficients(window(16.0), 16, fixed(26.5)).unwrap();
    assert_eq!(inside, later);
}

#[test]
fn test_unit_step() {
    let points = 16;
    let heaviside_fourier = step_coefficients(window(points as f64), points, fixed(10.5)).unwrap();
    let magnitudes = normalized_magnitudes(&heaviside_fourier);

    // The same coefficients by their closed form, through the same transform.
    let omega = std::f32::consts::TAU / points as f32;
    let mut closed_form: Vec<FloatComplex<f32>> = (0..points)
        .map(|k| {
            if k == 0 {
                FloatComplex::new(points as f32 - 10.5, 0.0)
            } else {
                FloatComplex::cis(-omega * k as f32 * 10.5) / (FloatComplex::i() * omega * k as f32)
            }
        })
        .collect();
    let mut planner = FftPlanner::new();
    let fft = planner.plan_fft_inverse(points);
    fft.process(&mut closed_form);
    for i in 0..points {
        assert_close(magnitudes[i] as f64, (closed_form[i].norm() / points as f32) as f64, 1.0e-5);
    }

    // The step shows where it begins: the largest rise between neighbours is
    // the one across 10.5.
    let rise = |i: usize| magnitudes[i + 1] - magnitudes[i];
    for i in 0..points - 1 {
        if i != 10 {
            assert!(rise(i) < rise(10), "the rise after {} is not below the rise across the step", i);
        }
    }
    assert!(rise(10) > 0.3);
}

#[test]
fn the_library_transform_agrees_with_the_outside_engine() {
    for &(n, t0) in &[(16usize, 1.2), (64, 6.0), (10, 3.3), (1, 0.5)] {
        let coefficients = impulse_coefficients(window(10.0), n, fixed(t0)).unwrap();
        let points = inverse_transform(&coefficients);
        let mut buffer = floats(&coefficients);
        let mut planner = FftPlanner::new();
        planner.plan_fft_inverse(n).process(&mut buffer);
        assert_eq!(points.len(), n);
        for i in 0..n {
            assert_close(points[i].re.raw as f64 / SCALE, buffer[i].re as f64, 1.0e-4 * n as f64);
            assert_close(points[i].im.raw as f64 / SCALE, buffer[i].im as f64, 1.0e-4 * n as f64);
        }
    }
}

#[test]
fn the_transform_of_nothing_is_nothing() {
    assert!(inverse_transform(&Vec::new()).is_empty());
}

#[test]
fn the_transform_adds_the_coefficients_at_the_first_point() {
    let coefficients = vec![
        Complex::from_raw(1 << 30, 0),
        Complex::from_raw(0, 1 << 30),
        Complex::from_raw(-(1 << 29), 1 << 28),
        Complex::from_raw(5, -7),
    ];
    let points = inverse_transform(&coefficients);
    assert_eq!(points[0], Complex::from_raw((1 << 30) - (1 << 29) + 5, (1 << 30) + (1 << 28) - 7));
    // Point 2 of 4 turns every other coefficient by half a turn.
    assert_eq!(points[2], Complex::from_raw((1 << 30) - (1 << 29) - 5, -(1 << 30) + (1 << 28) + 7));
    // Point 1 of 4 turns coefficient k by k quarters.
    assert_eq!(
        points[1],
        Complex::from_raw((1 << 30) - (1 << 30) + (1 << 29) - 7, -(1 << 28) - 5)
    );
}
