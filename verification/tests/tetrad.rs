use noray::{Scalar, Tetrad};

fn s(x: f64) -> Scalar {
    Scalar::from_bits(x.to_bits())
}

fn tetrad(x: f64, y: f64, z: f64, w: f64) -> Tetrad {
    Tetrad::new(s(x), s(y), s(z), s(w))
}

fn point(x: f64, y: f64, z: f64) -> Tetrad {
    Tetrad::point(s(x), s(y), s(z))
}

fn vector(x: f64, y: f64, z: f64) -> Tetrad {
    Tetrad::vector(s(x), s(y), s(z))
}

fn number(x: Scalar) -> f64 {
    f64::from_bits(x.to_bits())
}

#[test]
fn test_point() {
    let tetrad = point(1.0, 2.0, 3.0);
    assert_eq!(tetrad.is_point(), true);
    assert_eq!(tetrad.is_vector(), false);
}

#[test]
fn test_vector() {
    let tetrad = vector(1.0, 2.0, 3.0);
    assert_eq!(tetrad.is_vector(), true);
    assert_eq!(tetrad.is_point(), false);
}

#[test]
fn lib_test_add() {
    let tetrad1 = tetrad(3.0, -2.0, 5.0, 1.0);
    let tetrad2 = tetrad(-2.0, 3.0, 1.0, 0.0);
    assert_eq!(tetrad1 + tetrad2, tetrad(1.0, 1.0, 6.0, 1.0));
}

#[test]
fn lib_test_sub() {
    let tetrad1 = tetrad(3.0, -2.0, 5.0, 1.0);
    let tetrad2 = tetrad(-2.0, 3.0, 1.0, 0.0);
    assert_eq!(tetrad1 - tetrad2, tetrad(5.0, -5.0, 4.0, 1.0));
}

#[test]
fn lib_test_neg() {
    let t = tetrad(3.0, -2.0, 5.0, 1.0);
    assert_eq!(-t, tetrad(-3.0, 2.0, -5.0, -1.0));
}

#[test]
fn test_scale() {
    let t = tetrad(3.0, -2.0, 5.0, 1.0);
    assert_eq!(t.scale(s(2.0)), tetrad(6.0, -4.0, 10.0, 2.0));
}

#[test]
fn test_scale_inverse() {
    let t = tetrad(3.0, -2.0, 5.0, 1.0);
    assert_eq!(t.scale_inverse(s(2.0)), tetrad(1.5, -1.0, 2.5, 0.5));
}

#[test]
fn lib_test_magnitude() {
    let v = vector(1.0, 0.0, 0.0);
    assert_eq!(v.magnitude(), s(1.0));
    let v = vector(0.0, 1.0, 0.0);
    assert_eq!(v.magnitude(), s(1.0));
    let v = vector(0.0, 0.0, 1.0);
    assert_eq!(v.magnitude(), s(1.0));
    let v = vector(1.0, -2.0, 3.0);
    assert_eq!(v.magnitude(), s(14.0_f64.sqrt()));
}

#[test]
fn lib_test_normalize() {
    let v = vector(4.0, 0.0, 0.0);
    assert_eq!(v.normalize(), vector(1.0, 0.0, 0.0));
    let v = vector(1.0, -2.0, 3.0);
    assert_eq!(
        v.normalize(),
        vector(0.2672612419124244, -0.5345224838248488, 0.8017837257372732)
    );
}

#[test]
fn lib_test_dot() {
    let vector1 = vector(1.0, 2.0, 3.0);
    let vector2 = vector(2.0, 3.0, 4.0);
    assert_eq!(vector1.dot(&vector2), s(20.0));
    assert_eq!(vector2.dot(&vector1), s(20.0));
}

#[test]
fn lib_test_cross() {
    let vector1 = vector(1.0, 2.0, 3.0);
    let vector2 = vector(2.0, 3.0, 4.0);
    assert_eq!(vector1.cross(&vector2), vector(-1.0, 2.0, -1.0));
    assert_eq!(vector2.cross(&vector1), vector(1.0, -2.0, 1.0));
}

#[test]
fn tetrad_constructors_set_the_fourth_component() {
    let p = point(1.0, 2.0, 3.0);
    assert_eq!(p.w().to_bits(), 1.0_f64.to_bits());
    let v = vector(1.0, 2.0, 3.0);
    assert_eq!(v.w().to_bits(), 0.0_f64.to_bits());
    assert_eq!(number(p.x()), 1.0);
    assert_eq!(number(p.y()), 2.0);
    assert_eq!(number(p.z()), 3.0);
}

#[test]
fn tetrad_tags_are_told_within_an_epsilon() {
    // just inside and just outside the machine epsilon around one and zero
    let inside = 1.0 + f64::EPSILON / 2.0;
    assert!(tetrad(0.0, 0.0, 0.0, 1.0 - f64::EPSILON / 2.0).is_point());
    assert!(!tetrad(0.0, 0.0, 0.0, 1.0 + f64::EPSILON).is_point());
    assert_eq!(tetrad(0.0, 0.0, 0.0, inside).is_point(), (inside - 1.0).abs() < f64::EPSILON);
    assert!(tetrad(0.0, 0.0, 0.0, f64::EPSILON / 2.0).is_vector());
    assert!(tetrad(0.0, 0.0, 0.0, -f64::EPSILON / 2.0).is_vector());
    assert!(!tetrad(0.0, 0.0, 0.0, f64::EPSILON).is_vector());
    assert!(!tetrad(0.0, 0.0, 0.0, f64::NAN).is_vector());
    assert!(!tetrad(0.0, 0.0, 0.0, f64::NAN).is_point());
}

#[test]
fn tetrad_difference_of_points_is_a_vector() {
    let d = point(3.0, -2.0, 5.0) - point(-2.0, 3.0, 1.0);
    assert!(d.is_vector());
    assert_eq!(d, vector(5.0, -5.0, 4.0));
}

#[test]
fn tetrad_scale_inverse_by_zero_gives_special_values() {
    let t = tetrad(3.0, -2.0, 0.0, 1.0).scale_inverse(s(0.0));
    assert_eq!(number(t.x()), f64::INFINITY);
    assert_eq!(number(t.y()), f64::NEG_INFINITY);
    assert!(number(t.z()).is_nan());
    assert_eq!(number(t.w()), f64::INFINITY);
}

#[test]
fn tetrad_normalize_of_zero_is_nan() {
    let n = vector(0.0, 0.0, 0.0).normalize();
    assert!(number(n.x()).is_nan());
    assert!(number(n.y()).is_nan());
    assert!(number(n.z()).is_nan());
    assert!(number(n.w()).is_nan());
    assert!(n != n);
}

#[test]
fn tetrad_cross_forces_a_vector() {
    let c = point(1.0, 0.0, 0.0).cross(&point(0.0, 1.0, 0.0));
    assert_eq!(c.w().to_bits(), 0.0_f64.to_bits());
    assert_eq!(c, vector(0.0, 0.0, 1.0));
}

#[test]
fn tetrad_magnitude_counts_the_fourth_component() {
    let t = tetrad(1.0, 2.0, 3.0, 4.0);
    assert_eq!(number(t.magnitude()), (1.0_f64 + 4.0 + 9.0 + 16.0).sqrt());
    let a = tetrad(1.5, -2.25, 3.0, 0.5);
    let b = tetrad(-7.0, 0.125, 2.0, 3.0);
    assert_eq!(number(a.dot(&b)), 1.5 * -7.0 + -2.25 * 0.125 + 3.0 * 2.0 + 0.5 * 3.0);
}
