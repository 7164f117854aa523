use statistical_pb_chance::complex::Complex;
use statistical_pb_chance::fixed::Fixed;
use statistical_pb_chance::trig::cis;

const SCALE: f64 = 4294967296.0;
const ONE: i64 = 1 << 32;

fn assert_close(a: f64, b: f64, eps: f64) {
    assert!((a - b).abs() < eps, "{} is not within {} of {}", a, eps, b);
}

fn turns(angle: u64) -> f64 {
    angle as f64 / 18446744073709551616.0
}

#[test]
fn cis_is_exact_at_the_quarters() {
    assert_eq!(cis(0), Complex::from_raw(ONE, 0));
    assert_eq!(cis(1 << 62), Complex::from_raw(0, ONE));
    assert_eq!(cis(1 << 63), Complex::from_raw(-ONE, 0));
    assert_eq!(cis(3 << 62), Complex::from_raw(0, -ONE));
}

#[test]
fn cis_follows_cosine_and_sine() {
    let mut angle: u64 = 0x0123_4567_89ab_cdef;
    for _ in 0..2000 {
        let c = cis(angle);
        let radians = turns(angle) * std::f64::consts::TAU;
        assert_close(c.re.raw as f64 / SCALE, radians.cos(), 1.0e-9);
        assert_close(c.im.raw as f64 / SCALE, radians.sin(), 1.0e-9);
        angle = angle.wrapping_mul(6364136223846793005).wrapping_add(1442695040888963407);
    }
}

#[test]
fn cis_at_the_eighth_of_a_turn() {
    let c = cis(1 << 61);
    let half_root = 0.5f64.sqrt();
    assert_close(c.re.raw as f64 / SCALE, half_root, 3.0e-10);
    assert_close(c.im.raw as f64 / SCALE, half_root, 3.0e-10);
    assert_eq!(c.re, c.im);
}

#[test]
fn cis_half_a_turn_further_is_the_opposite() {
    let mut angle: u64 = 77;
    for _ in 0..500 {
        let here = cis(angle);
        let there = cis(angle.wrapping_add(1 << 63));
        assert_eq!(there, Complex::from_raw(-here.re.raw, -here.im.raw));
        let quarter = cis(angle.wrapping_add(1 << 62));
        assert_eq!(quarter, Complex::from_raw(-here.im.raw, here.re.raw));
        angle = angle.wrapping_mul(6364136223846793005).wrapping_add(1442695040888963407);
    }
}

#[test]
fn cis_never_leaves_the_unit_disk() {
    let mut angle: u64 = 1;
    for _ in 0..2000 {
        let c = cis(angle);
        assert!(c.in_disk());
        let norm = (c.re.raw as i128) * (c.re.raw as i128) + (c.im.raw as i128) * (c.im.raw as i128);
        assert!(norm <= 1i128 << 64);
        assert!(norm >= (1i128 << 64) - (5i128 << 32));
        angle = angle.wrapping_mul(6364136223846793005).wrapping_add(1442695040888963407);
    }
}

#[test]
fn complex_product_rounds_toward_zero() {
    // (0.5 + 0.5i)(0.5 - 0.25i) = 0.375 + 0.125i
    let a = Complex::from_raw(ONE / 2, ONE / 2);
    let b = Complex::from_raw(ONE / 2, -ONE / 4);
    assert_eq!(a.mul(b), Complex::from_raw(3 * ONE / 8, ONE / 8));
    // 3 * -5 / 2^32 rounds to zero from below, not to -1
    let tiny = Complex::from_raw(3, 0).mul(Complex::from_raw(-5, 0));
    assert_eq!(tiny, Complex::from_raw(0, 0));
    let c = Complex::from_raw(-ONE, 0).mul(Complex::from_raw(0, ONE));
    assert_eq!(c, Complex::from_raw(0, -ONE));
}

#[test]
fn complex_scale_and_sum() {
    let a = Complex::from_raw(ONE / 2, -ONE / 4);
    assert_eq!(a.scale(Fixed::from_raw(ONE / 2)), Complex::from_raw(ONE / 4, -ONE / 8));
    assert_eq!(a.scale(Fixed::from_raw(-ONE)), Complex::from_raw(-ONE / 2, ONE / 4));
    assert_eq!(a.plus(Complex::from_raw(1, 2)), Complex::from_raw(ONE / 2 + 1, -ONE / 4 + 2));
    assert_eq!(Complex::zero(), Complex::from_raw(0, 0));
    assert_eq!(Complex::one(), Complex::from_raw(ONE, 0));
}

#[test]
fn disk_membership() {
    assert!(Complex::from_raw(ONE, 0).in_disk());
    assert!(Complex::from_raw(0, -ONE).in_disk());
    assert!(!Complex::from_raw(ONE, 1).in_disk());
    assert!(!Complex::from_raw(ONE + 1, 0).in_disk());
    assert!(!Complex::from_raw(i64::MIN, i64::MIN).in_disk());
    assert!(Complex::from_raw(3037000499, 3037000499).in_disk());
    assert!(!Complex::from_raw(3037000500, 3037000500).in_disk());
}

#[test]
fn fixed_from_whole_numbers() {
    assert_eq!(Fixed::from_int(10).raw, 10 * ONE);
    assert_eq!(Fixed::from_int(-3).raw, -3 * ONE);
    assert_eq!(Fixed::from_int(i32::MIN).raw, (i32::MIN as i64) * ONE);
    assert_eq!(Fixed::from_raw(7).raw, 7);
}
