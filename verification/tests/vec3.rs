use raytracer::scalar::Scalar;
use raytracer::vec3::Vec3;

const EPSILON: f64 = 0.0000000001;

fn s(x: f64) -> Scalar {
    Scalar::from_bits(x.to_bits())
}

fn v(x: f64, y: f64, z: f64) -> Vec3 {
    Vec3::new(s(x), s(y), s(z))
}

#[test]
fn vec3_new() {
    let expected = Vec3 {
        x: s(1.0),
        y: s(2.0),
        z: s(3.0),
    };
    assert_eq!(Vec3::new(s(1.0), s(2.0), s(3.0)), expected);
}

#[test]
fn vec3_mul() {
    let expected = v(2.0, 4.0, 6.0);
    assert_eq!(v(1.0, 2.0, 3.0).mul(s(2.0)), expected);
}

#[test]
fn vec3_div() {
    let expected = v(0.5, 1.0, 1.5);
    assert_eq!(v(1.0, 2.0, 3.0).div(s(2.0)).unwrap(), expected);
}

#[test]
fn vec3_length_squared() {
    let expected = 1.0 * 1.0 + 2.0 * 2.0 + 3.0 * 3.0;
    assert_eq!(v(1.0, 2.0, 3.0).length_squared(), s(expected));
}

#[test]
fn vec3_length() {
    let expected = (1.0 * 1.0 + 2.0 * 2.0 + 3.0 * 3.0 as f64).sqrt();
    assert_eq!(v(1.0, 2.0, 3.0).length(), s(expected));
}

#[test]
fn vec3_dot() {
    let expected = 1.0 * 10.0 + 2.0 * 20.0 + 3.0 * 30.0;
    assert_eq!(v(1.0, 2.0, 3.0).dot(v(10.0, 20.0, 30.0)), s(expected));
}

#[test]
fn vec3_cross() {
    // [1.0, 2.0, 3.0] x [5.0, 1.0, 4.0]
    let expected = v(
        2.0 * 4.0 - 3.0 * 1.0,
        3.0 * 5.0 - 1.0 * 4.0,
        1.0 * 1.0 - 2.0 * 5.0,
    );
    assert_eq!(v(1.0, 2.0, 3.0).cross(v(5.0, 1.0, 4.0)), expected);
}

#[test]
fn vec3_unit_vector() {
    let length = 14.0_f64.sqrt();
    let expected = v(1.0 / length, 2.0 / length, 3.0 / length);
    let test = v(1.0, 2.0, 3.0).unit_vector();
    assert!((test - expected).x.abs().lt(s(EPSILON)));
    assert!((test - expected).y.abs().lt(s(EPSILON)));
    assert!((test - expected).z.abs().lt(s(EPSILON)));
}

#[test]
fn vec3_zero() {
    assert_eq!(Vec3::zero(), v(0.0, 0.0, 0.0));
}

#[test]
fn vec3_one() {
    assert_eq!(Vec3::one(), v(1.0, 1.0, 1.0));
}

#[test]
fn vec3_add() {
    let expected = v(11.0, 22.0, 33.0);
    assert_eq!(v(1.0, 2.0, 3.0) + v(10.0, 20.0, 30.0), expected);
}

#[test]
fn vec3_sub() {
    let expected = v(9.0, 18.0, 27.0);
    assert_eq!(v(10.0, 20.0, 30.0) - v(1.0, 2.0, 3.0), expected);
}

#[test]
fn vec3_multiply() {
    let expected = v(10.0, 40.0, 90.0);
    assert_eq!(v(1.0, 2.0, 3.0) * v(10.0, 20.0, 30.0), expected);
}

#[test]
fn vec3_neg() {
    let expected = v(-1.0, -2.0, -3.0);
    assert_eq!(-v(1.0, 2.0, 3.0), expected);
}

#[test]
fn vec3_unit_vector_is_bit_exact() {
    let length = 14.0_f64.sqrt();
    let test = v(1.0, 2.0, 3.0).unit_vector();
    assert_eq!(test.x.to_bits(), (1.0 / length).to_bits());
    assert_eq!(test.y.to_bits(), (2.0 / length).to_bits());
    assert_eq!(test.z.to_bits(), (3.0 / length).to_bits());
}

#[test]
fn vec3_div_by_zero_gives_nothing() {
    assert!(v(1.0, 2.0, 3.0).div(s(0.0)).is_none());
    assert!(v(1.0, 2.0, 3.0).div(s(-0.0)).is_none());
    assert!(v(1.0, 2.0, 3.0).div(s(f64::NAN)).is_some());
}

#[test]
fn vec3_near_zero_threshold() {
    assert!(v(9.9e-9, -9.9e-9, 0.0).near_zero());
    assert!(!v(1e-8, 0.0, 0.0).near_zero());
    assert!(!v(0.0, 0.0, -1.1e-8).near_zero());
    assert!(!v(f64::NAN, 0.0, 0.0).near_zero());
}

#[test]
fn vec3_reflect_about_axis() {
    // v - 2 * dot(v, n) * n with n = (0, 1, 0)
    let r = v(1.0, -1.0, 0.5).reflect(v(0.0, 1.0, 0.0));
    assert_eq!(r, v(1.0, 1.0, 0.5));
    let a = v(0.3, -0.7, 0.2);
    let n = v(0.6, 0.0, 0.8);
    let d = 0.3 * 0.6 + -0.7 * 0.0 + 0.2 * 0.8;
    let k = 2.0 * d;
    let want = v(0.3 - 0.6 * k, -0.7 - 0.0 * k, 0.2 - 0.8 * k);
    let got = a.reflect(n);
    assert_eq!(got.x.to_bits(), want.x.to_bits());
    assert_eq!(got.y.to_bits(), want.y.to_bits());
    assert_eq!(got.z.to_bits(), want.z.to_bits());
}
