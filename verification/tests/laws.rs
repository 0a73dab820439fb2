//! The general properties of the arithmetic, on chosen and on drawn values.

use noray::math::{Point, Vector};
use noray::{Scalar, Tetrad};

fn s(x: f64) -> Scalar {
    Scalar::from_bits(x.to_bits())
}

fn number(x: Scalar) -> f64 {
    f64::from_bits(x.to_bits())
}

fn point(x: f64, y: f64, z: f64) -> Point {
    Point::new(s(x), s(y), s(z))
}

fn vector(x: f64, y: f64, z: f64) -> Vector {
    Vector::new(s(x), s(y), s(z))
}

fn draws(seed: u64, count: usize, scale: f64) -> Vec<f64> {
    let mut state = seed;
    let mut out = Vec::new();
    for _ in 0..count {
        state ^= state << 13;
        state ^= state >> 7;
        state ^= state << 17;
        out.push(((state >> 11) as f64 / (1u64 << 53) as f64 - 0.5) * scale);
    }
    out
}

#[test]
fn normalized_vectors_have_magnitude_one() {
    assert_eq!(number(vector(4.0, 0.0, 0.0).normalize().magnitude()), 1.0);
    assert_eq!(number(vector(0.0, -3.0, 0.0).normalize().magnitude()), 1.0);
    let m = number(vector(1.0, 2.0, 3.0).normalize().magnitude());
    assert!((m - 1.0).abs() <= 4.0 * f64::EPSILON, "{}", m);
    let d = draws(0x1234_5678_9ABC_DEF1, 3_000, 1.0e6);
    for c in d.chunks(3) {
        let v = vector(c[0], c[1], c[2]);
        let m = number(v.normalize().magnitude());
        assert!((m - 1.0).abs() <= 4.0 * f64::EPSILON, "{:?}: {}", c, m);
    }
}

#[test]
fn normalized_vectors_of_moderate_size_have_magnitude_one() {
    // from 2^-500 to 2^500, mixed with each other and with zero
    let sizes = [
        2.0_f64.powi(-500),
        1.5 * 2.0_f64.powi(-500),
        2.0_f64.powi(-499),
        3.0e-100,
        0.1,
        1.0,
        7.0,
        2.5e100,
        0.75 * 2.0_f64.powi(500),
        2.0_f64.powi(500),
    ];
    let mut coordinates = vec![0.0];
    for &size in sizes.iter() {
        coordinates.push(size);
        coordinates.push(-size);
    }
    for &x in coordinates.iter() {
        for &y in coordinates.iter() {
            for &z in coordinates.iter() {
                if x == 0.0 && y == 0.0 && z == 0.0 {
                    continue;
                }
                let m = number(vector(x, y, z).normalize().magnitude());
                assert!((m - 1.0).abs() <= 4.0 * f64::EPSILON, "{} {} {}: {}", x, y, z, m);
                let t = Tetrad::vector(s(x), s(y), s(z)).normalize().magnitude();
                assert_eq!(number(t), m);
            }
        }
    }
}

#[test]
fn normalizing_fails_where_the_squares_leave_the_range() {
    // the square overflows: the magnitude is infinite and the direction is lost
    let big = vector(1.0e200, 0.0, 0.0);
    assert_eq!(number(big.magnitude()), f64::INFINITY);
    assert_eq!(number(big.normalize().magnitude()), 0.0);
    // the square underflows to nothing: the magnitude is zero
    let small = vector(1.0e-200, 0.0, 0.0);
    assert_eq!(number(small.magnitude()), 0.0);
    assert!(number(small.normalize().magnitude()).is_nan());
    // the square underflows to a few bits: the magnitude is far off
    let coarse = vector(3.0e-162, 0.0, 0.0);
    let m = number(coarse.normalize().magnitude());
    assert!((m - 1.0).abs() > 0.01, "{}", m);
}

#[test]
fn cross_product_anticommutes() {
    let a = vector(1.0, 2.0, 3.0);
    let b = vector(2.0, 3.0, 4.0);
    assert_eq!(a.cross(&b), -(b.cross(&a)));
    // equal products give a positive zero one way and a negative one the other
    let c = vector(1.0, 1.0, 1.0);
    assert_eq!(c.cross(&c), -(c.cross(&c)));
    let d = draws(0x0F0E_0D0C_0B0A_0908, 6_000, 2.0e3);
    for c in d.chunks(6) {
        let a = vector(c[0], c[1], c[2]);
        let b = vector(c[3], c[4], c[5]);
        assert_eq!(a.cross(&b), -(b.cross(&a)));
        let ta = Tetrad::vector(s(c[0]), s(c[1]), s(c[2]));
        let tb = Tetrad::vector(s(c[3]), s(c[4]), s(c[5]));
        assert_eq!(ta.cross(&tb), -(tb.cross(&ta)));
    }
}

#[test]
fn cross_product_with_a_nan_equals_nothing() {
    let a = vector(f64::INFINITY, 0.0, 0.0);
    let b = vector(0.0, 0.0, 1.0);
    // infinity times zero is no number
    assert!(number(a.cross(&b).z()).is_nan());
    assert!(a.cross(&b) != -(b.cross(&a)));
}

#[test]
fn dot_product_commutes() {
    let a = vector(1.0, 2.0, 3.0);
    let b = vector(2.0, 3.0, 4.0);
    assert_eq!(a.dot(&b).to_bits(), b.dot(&a).to_bits());
    let d = draws(0x1357_9BDF_0246_8ACE, 6_000, 1.0e9);
    for c in d.chunks(6) {
        let a = vector(c[0], c[1], c[2]);
        let b = vector(c[3], c[4], c[5]);
        assert_eq!(a.dot(&b).to_bits(), b.dot(&a).to_bits());
    }
    let inf = vector(f64::INFINITY, 1.0, 0.0);
    let zero = vector(0.0, 1.0, 0.0);
    assert!(inf.dot(&zero).is_nan());
    assert!(zero.dot(&inf).is_nan());
}

#[test]
fn moving_there_and_back() {
    let p = point(3.0, -2.0, 5.0);
    let v = vector(-2.0, 3.0, 1.0);
    assert_eq!((p + v) - v, p);
    // sums of small integers are free of rounding
    let d = draws(0xA5A5_5A5A_1234_4321, 6_000, 2.0e6);
    for c in d.chunks(6) {
        let p = point(c[0].round(), c[1].round(), c[2].round());
        let v = vector(c[3].round(), c[4].round(), c[5].round());
        assert_eq!((p + v) - v, p);
    }
}

#[test]
fn moving_loses_what_rounding_drops() {
    // one is below the last place of ten to the sixteenth
    let p = point(1.0, 0.0, 0.0);
    let v = vector(1.0e16, 0.0, 0.0);
    assert_eq!(number((p + v).x()), 1.0e16);
    assert_eq!(number(((p + v) - v).x()), 0.0);
    assert!((p + v) - v != p);
}

#[test]
fn displacement_leads_back_to_the_point() {
    let p = point(3.0, -2.0, 5.0);
    let q = point(-2.0, 3.0, 1.0);
    let d = p - q;
    assert_eq!(d.w().to_bits(), 0.0_f64.to_bits());
    assert_eq!(d, vector(5.0, -5.0, 4.0));
    assert_eq!(q + (p - q), p);
    let d = draws(0x0BAD_CAFE_DEAD_BEEF, 6_000, 2.0e6);
    for c in d.chunks(6) {
        let p = point(c[0].round(), c[1].round(), c[2].round());
        let q = point(c[3].round(), c[4].round(), c[5].round());
        assert_eq!(q + (p - q), p);
    }
}

#[test]
fn displacement_loses_what_rounding_drops() {
    let p = point(1.0, 0.0, 0.0);
    let q = point(1.0e16, 0.0, 0.0);
    assert_eq!(number((p - q).x()), -1.0e16);
    assert!(q + (p - q) != p);
}

#[test]
fn tags_combine_as_points_and_vectors_do() {
    let p = Tetrad::point(s(1.0), s(2.0), s(3.0));
    let q = Tetrad::point(s(-4.0), s(0.5), s(9.0));
    let u = Tetrad::vector(s(7.0), s(-1.0), s(0.25));
    let v = Tetrad::vector(s(0.0), s(2.0), s(-6.0));
    assert!((p - q).is_vector() && !(p - q).is_point());
    assert!((p + v).is_point() && !(p + v).is_vector());
    assert!((p - v).is_point());
    assert!((u + v).is_vector());
    assert!((u - v).is_vector());
    // the sum of two points is neither
    assert!(!(p + q).is_point() && !(p + q).is_vector());
}
