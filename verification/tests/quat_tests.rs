//! Quaternion and rotation-vector checks: the exponential/logarithmic
//! round trip, identity and conjugate laws, and the basic algebra.

use ebin::fix32::MULT;
use ebin::quat::{Fix, Quat, RVec, Vec3};

fn from_float(x: f32) -> Fix {
    let v = if x >= 0.0 {
        x * (MULT as f32) + 0.5
    } else {
        x * (MULT as f32) - 0.5
    };
    Fix::from_raw(v as i32)
}

fn to_float(f: &Fix) -> f32 {
    (f.to_raw() as f64 / MULT as f64) as f32
}

fn rv(x: f32, y: f32, z: f32) -> RVec {
    Vec3::new(from_float(x), from_float(y), from_float(z))
}

#[test]
fn exp_log_round_trip() {
    // rotation vectors with magnitude in [0.01, pi - 0.01] come back
    // within the accuracy of the cubic atan and sine polynomials
    let tol = 2e-3f64;
    let axes: [(f32, f32, f32); 5] = [
        (1.0, 0.0, 0.0),
        (0.0, 1.0, 0.0),
        (0.0, 0.0, 1.0),
        (0.6, 0.64, 0.48),
        (-0.7, 0.1, 0.7),
    ];
    let mags: [f32; 6] = [0.01, 0.1, 0.5, 1.2, 2.5, 3.13];
    for (ax, ay, az) in axes {
        let n = (ax * ax + ay * ay + az * az).sqrt();
        for m in mags {
            let v = rv(ax / n * m, ay / n * m, az / n * m);
            let r = Quat::from_rvec(&v).to_rvec();
            let dx = to_float(&r.x) as f64 - to_float(&v.x) as f64;
            let dy = to_float(&r.y) as f64 - to_float(&v.y) as f64;
            let dz = to_float(&r.z) as f64 - to_float(&v.z) as f64;
            let err = (dx * dx + dy * dy + dz * dz).sqrt();
            assert!(err < tol, "axis=({},{},{}) m={} err={}", ax, ay, az, m, err);
        }
    }
}

#[test]
fn from_rvec_zero_is_identity() {
    let q = Quat::from_rvec(&RVec::default());
    assert_eq!(q, Quat::default());
    assert_eq!(q.w.to_raw(), MULT);
    assert_eq!(q.x.to_raw(), 0);
}

#[test]
fn mul_conj_is_identity_within_tolerance() {
    // the vector part cancels exactly; the scalar part is the squared
    // norm, which is 1 within normalize tolerance for a unit quaternion
    let q = Quat::from_rvec(&rv(0.3, -0.2, 0.9));
    let p = q.mul(q.conj());
    assert_eq!(p.x.to_raw(), 0);
    assert_eq!(p.y.to_raw(), 0);
    assert_eq!(p.z.to_raw(), 0);
    assert!((to_float(&p.w) - 1.0).abs() < 2e-3);
}

#[test]
fn norm_and_normalize() {
    // 0.375^2 + 0.5^2 = 0.625^2, all exactly representable in Q5.27
    let mut q = Quat::new(
        from_float(0.0),
        from_float(0.375),
        from_float(0.0),
        from_float(0.5),
    );
    assert_eq!(q.norm().to_raw(), 83886080);
    let n = q.normalize();
    assert!((to_float(&n.norm()) - 1.0).abs() < 1e-6);
}

#[test]
fn normalize_safe_collapses_zero() {
    let mut q = Quat::new(
        Fix::from_raw(0),
        Fix::from_raw(0),
        Fix::from_raw(0),
        Fix::from_raw(0),
    );
    let r = q.normalize_safe();
    assert_eq!(r.w.to_raw(), 0);
    assert_eq!(r.x.to_raw(), 0);
}

#[test]
fn hamilton_product_on_axes() {
    // i * j == k
    let i = Quat::new(from_float(0.0), from_float(1.0), from_float(0.0), from_float(0.0));
    let j = Quat::new(from_float(0.0), from_float(0.0), from_float(1.0), from_float(0.0));
    let k = i.mul(j);
    assert_eq!(k.w.to_raw(), 0);
    assert_eq!(k.x.to_raw(), 0);
    assert_eq!(k.y.to_raw(), 0);
    assert_eq!(k.z.to_raw(), MULT);
}

#[test]
fn rotate_point_quarter_turn() {
    // 90 degrees about z sends x to y
    let q = Quat::from_rvec(&rv(0.0, 0.0, std::f32::consts::FRAC_PI_2));
    let p = q.rotate_point(&rv(1.0, 0.0, 0.0));
    assert!((to_float(&p.x)).abs() < 1e-3);
    assert!((to_float(&p.y) - 1.0).abs() < 1e-3);
    assert!((to_float(&p.z)).abs() < 1e-3);
}

#[test]
fn vec3_algebra() {
    let a = rv(1.0, 2.0, 3.0);
    let b = rv(0.5, -1.0, 0.25);
    let s = a.add(b);
    assert_eq!(s.x.to_raw(), from_float(1.5).to_raw());
    let d = a.sub(b);
    assert_eq!(d.y.to_raw(), from_float(3.0).to_raw());
    let n = a.neg();
    assert_eq!(n.z.to_raw(), -from_float(3.0).to_raw());
    let m = a.smul(from_float(2.0));
    assert_eq!(m.x.to_raw(), from_float(2.0).to_raw());
    let q = a.sdiv(from_float(2.0));
    assert_eq!(q.x.to_raw(), from_float(0.5).to_raw());
    let v = rv(0.0, 0.375, 0.5);
    assert_eq!(v.norm().to_raw(), 83886080);
    let u = v.normalized();
    assert!((to_float(&u.norm()) - 1.0).abs() < 1e-6);
}
