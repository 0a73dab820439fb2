use noray::color::RGB;
use noray::Scalar;

fn s(x: f64) -> Scalar {
    Scalar::from_bits(x.to_bits())
}

fn rgb(r: f64, g: f64, b: f64) -> RGB {
    RGB::new(s(r), s(g), s(b))
}

fn number(x: Scalar) -> f64 {
    f64::from_bits(x.to_bits())
}

#[test]
fn color_test_add() {
    let c1 = rgb(0.9, 0.6, 0.75);
    let c2 = rgb(0.7, 0.1, 0.25);
    assert_eq!(c1 + c2, rgb(1.6, 0.7, 1.0));
}

#[test]
fn color_test_sub() {
    let c1 = rgb(0.9, 0.6, 0.75);
    let c2 = rgb(0.7, 0.1, 0.25);
    assert_eq!(c1 - c2, rgb(0.20000000000000007, 0.5, 0.5))
}

#[test]
fn test_mul_by_scalar() {
    let c = rgb(0.2, 0.3, 0.4);
    assert_eq!(c * s(2.0), rgb(0.4, 0.6, 0.8));
}

#[test]
fn test_mul() {
    let c1 = rgb(1.0, 0.2, 0.4);
    let c2 = rgb(0.9, 1.0, 0.1);
    assert_eq!(c1 * c2, rgb(0.9, 0.2, 0.04000000000000001));
}

#[test]
fn colors_are_not_clamped() {
    let c = rgb(-0.5, 1.5, 1e300);
    assert_eq!(number(c.r()), -0.5);
    assert_eq!(number(c.g()), 1.5);
    assert_eq!(number(c.b()), 1e300);
    let d = c * s(1e10);
    assert_eq!(number(d.r()), -0.5e10);
    assert_eq!(number(d.b()), f64::INFINITY);
    let e = c + rgb(2.0, 2.0, 2.0);
    assert_eq!(number(e.g()), 3.5);
}

#[test]
fn color_arithmetic_matches_the_doubles() {
    let c1 = rgb(0.9, 0.6, 0.75);
    let c2 = rgb(0.7, 0.1, 0.25);
    let sum = c1 + c2;
    assert_eq!(number(sum.r()), 0.9 + 0.7);
    assert_eq!(number(sum.g()), 0.6 + 0.1);
    assert_eq!(number(sum.b()), 0.75 + 0.25);
    let difference = c1 - c2;
    assert_eq!(number(difference.r()), 0.9 - 0.7);
    assert_eq!(number(difference.g()), 0.6 - 0.1);
    let product = c1 * c2;
    assert_eq!(number(product.r()), 0.9 * 0.7);
    assert_eq!(number(product.g()), 0.6 * 0.1);
    assert_eq!(number(product.b()), 0.75 * 0.25);
    let scaled = c1 * s(0.3);
    assert_eq!(number(scaled.r()), 0.9 * 0.3);
    assert_eq!(number(scaled.g()), 0.6 * 0.3);
    assert_eq!(number(scaled.b()), 0.75 * 0.3);
}
