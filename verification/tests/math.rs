use noray::math::{Point, Vector};
use noray::Scalar;

fn s(x: f64) -> Scalar {
    Scalar::from_bits(x.to_bits())
}

fn point(x: f64, y: f64, z: f64) -> Point {
    Point::new(s(x), s(y), s(z))
}

fn vector(x: f64, y: f64, z: f64) -> Vector {
    Vector::new(s(x), s(y), s(z))
}

fn number(x: Scalar) -> f64 {
    f64::from_bits(x.to_bits())
}

#[test]
fn math_test_magnitude() {
    let v = vector(1.0, 0.0, 0.0);
    assert_eq!(v.magnitude(), s(1.0));
    let v = vector(0.0, 1.0, 0.0);
    assert_eq!(v.magnitude(), s(1.0));
    let v = vector(0.0, 0.0, 1.0);
    assert_eq!(v.magnitude(), s(1.0));
    let v = vector(1.0, -2.0, 3.0);
    assert_eq!(v.magnitude(), s(14.0_f64.sqrt()));
}

#[test]
fn math_test_normalize() {
    let v = vector(4.0, 0.0, 0.0);
    assert_eq!(v.normalize(), vector(1.0, 0.0, 0.0));
    let v = vector(1.0, -2.0, 3.0);
    assert_eq!(
        v.normalize(),
        vector(0.2672612419124244, -0.5345224838248488, 0.8017837257372732)
    );
}

#[test]
fn math_test_dot() {
    let vector1 = vector(1.0, 2.0, 3.0);
    let vector2 = vector(2.0, 3.0, 4.0);
    assert_eq!(vector1.dot(&vector2), s(20.0));
    assert_eq!(vector2.dot(&vector1), s(20.0));
}

#[test]
fn math_test_cross() {
    let vector1 = vector(1.0, 2.0, 3.0);
    let vector2 = vector(2.0, 3.0, 4.0);
    assert_eq!(vector1.cross(&vector2), vector(-1.0, 2.0, -1.0));
    assert_eq!(vector2.cross(&vector1), vector(1.0, -2.0, 1.0));
}

#[test]
fn test_add_point_and_vector() {
    let p = point(3.0, -2.0, 5.0);
    let v = vector(-2.0, 3.0, 1.0);
    assert_eq!(p + v, point(1.0, 1.0, 6.0));
}

#[test]
fn test_add_vector_and_vector() {
    let vector1 = vector(3.0, -2.0, 5.0);
    let vector2 = vector(-2.0, 3.0, 1.0);
    assert_eq!(vector1 + vector2, vector(1.0, 1.0, 6.0));
}

#[test]
fn test_div_f64() {
    let v = vector(3.0, -2.0, 5.0);
    assert_eq!(&v / s(2.0), vector(1.5, -1.0, 2.5));
}

#[test]
fn test_mul_f64() {
    let v = vector(3.0, -2.0, 5.0);
    assert_eq!(&v * s(2.0), vector(6.0, -4.0, 10.0));
}

#[test]
fn math_test_neg() {
    let v = vector(3.0, -2.0, 5.0);
    assert_eq!(-v, vector(-3.0, 2.0, -5.0));
}

#[test]
fn test_sub_point_and_point() {
    let point1 = point(3.0, -2.0, 5.0);
    let point2 = point(-2.0, 3.0, 1.0);
    assert_eq!(point1 - point2, vector(5.0, -5.0, 4.0));
}

#[test]
fn test_sub_point_and_vector() {
    let p = point(3.0, -2.0, 5.0);
    let v = vector(-2.0, 3.0, 1.0);
    assert_eq!(p - v, point(5.0, -5.0, 4.0));
}

#[test]
fn test_sub_vector_and_vector() {
    let vector1 = vector(3.0, -2.0, 5.0);
    let vector2 = vector(-2.0, 3.0, 1.0);
    assert_eq!(vector1 - vector2, vector(5.0, -5.0, 4.0));
}

#[test]
fn points_and_vectors_carry_their_tag() {
    assert_eq!(point(1.0, 2.0, 3.0).w().to_bits(), 1.0_f64.to_bits());
    assert_eq!(vector(1.0, 2.0, 3.0).w().to_bits(), 0.0_f64.to_bits());
    assert_eq!((-vector(1.0, 2.0, 3.0)).w().to_bits(), 0.0_f64.to_bits());
    assert_eq!((point(1.0, 2.0, 3.0) - point(3.0, 2.0, 1.0)).w().to_bits(), 0.0_f64.to_bits());
    assert_eq!((point(1.0, 2.0, 3.0) + vector(3.0, 2.0, 1.0)).w().to_bits(), 1.0_f64.to_bits());
    assert_eq!((point(1.0, 2.0, 3.0) - vector(3.0, 2.0, 1.0)).w().to_bits(), 1.0_f64.to_bits());
    assert_eq!((&vector(1.0, 2.0, 3.0) / s(0.0)).w().to_bits(), 0.0_f64.to_bits());
    let p = point(1.0, -2.0, 3.5);
    assert_eq!(number(p.x()), 1.0);
    assert_eq!(number(p.y()), -2.0);
    assert_eq!(number(p.z()), 3.5);
}

#[test]
fn sum_of_vectors_scenario() {
    assert_eq!(vector(1.0, 2.0, 3.0) + vector(9.0, 8.0, 7.0), vector(10.0, 10.0, 10.0));
}

#[test]
fn magnitude_scenario() {
    assert_eq!(number(vector(1.0, -2.0, 3.0).magnitude()), 14.0_f64.sqrt());
    assert_eq!(number(vector(-1.0, -2.0, -3.0).magnitude()), 14.0_f64.sqrt());
}

#[test]
fn cross_scenario() {
    let x = vector(1.0, 0.0, 0.0);
    let y = vector(0.0, 1.0, 0.0);
    assert_eq!(x.cross(&y), vector(0.0, 0.0, 1.0));
    assert_eq!(y.cross(&x), vector(0.0, 0.0, -1.0));
}

#[test]
fn division_by_zero_follows_the_doubles() {
    let v = &vector(3.0, -2.0, 0.0) / s(0.0);
    assert_eq!(number(v.x()), f64::INFINITY);
    assert_eq!(number(v.y()), f64::NEG_INFINITY);
    assert!(number(v.z()).is_nan());
}

#[test]
fn normalize_of_the_zero_vector_is_nan() {
    let n = vector(0.0, 0.0, 0.0).normalize();
    assert!(number(n.x()).is_nan());
    assert!(number(n.y()).is_nan());
    assert!(number(n.z()).is_nan());
    assert_eq!(n.w().to_bits(), 0.0_f64.to_bits());
}

#[test]
fn vector_arithmetic_matches_the_doubles() {
    let mut state: u64 = 0x0123_4567_89AB_CDEF;
    let mut draw = move || {
        state ^= state << 13;
        state ^= state >> 7;
        state ^= state << 17;
        ((state >> 11) as f64 / (1u64 << 53) as f64 - 0.5) * 2000.0
    };
    for _ in 0..2_000 {
        let (ax, ay, az, bx, by, bz) = (draw(), draw(), draw(), draw(), draw(), draw());
        let a = vector(ax, ay, az);
        let b = vector(bx, by, bz);
        assert_eq!(number(a.dot(&b)), ax * bx + ay * by + az * bz + 0.0 * 0.0);
        let length = (ax * ax + ay * ay + az * az + 0.0 * 0.0).sqrt();
        assert_eq!(number(a.magnitude()), length);
        let c = a.cross(&b);
        assert_eq!(number(c.x()), ay * bz - az * by);
        assert_eq!(number(c.y()), az * bx - ax * bz);
        assert_eq!(number(c.z()), ax * by - ay * bx);
        let n = a.normalize();
        assert_eq!(number(n.x()), ax / length);
        assert_eq!(number(n.y()), ay / length);
        assert_eq!(number(n.z()), az / length);
    }
}
