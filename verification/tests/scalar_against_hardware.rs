//! The integer arithmetic of `Scalar` against the machine's own doubles.

use noray::Scalar;

fn next(state: &mut u64) -> u64 {
    let mut x = *state;
    x ^= x << 13;
    x ^= x >> 7;
    x ^= x << 17;
    *state = x;
    x
}

/// A sample of encodings: uniform bits, and bits whose exponent lies near
/// that of `other`.
fn sample(state: &mut u64, other: u64, round: usize) -> u64 {
    let raw = next(state);
    match round % 4 {
        0 => raw,
        1 => {
            let exponent = ((other >> 52) & 0x7FF) as i64 + (raw % 7) as i64 - 3;
            let exponent = exponent.clamp(0, 2046) as u64;
            (raw & 0x800F_FFFF_FFFF_FFFF) | (exponent << 52)
        }
        2 => {
            let exponent = ((other >> 52) & 0x7FF) as i64 + (raw % 140) as i64 - 70;
            let exponent = exponent.clamp(0, 2047) as u64;
            (raw & 0x800F_FFFF_FFFF_FFFF) | (exponent << 52)
        }
        _ => {
            // few significant bits, small exponents: exact and tied cases
            let exponent = (raw % 5) + 1021;
            let fraction = (raw >> 8) & 0x000F_0000_0000_0003;
            (raw & 0x8000_0000_0000_0000) | (exponent << 52) | fraction
        }
    }
}

fn agree(ours: Scalar, theirs: f64) -> bool {
    if theirs.is_nan() {
        ours.is_nan()
    } else {
        ours.to_bits() == theirs.to_bits()
    }
}

#[test]
fn sums_match_the_hardware() {
    let mut state: u64 = 0x9E37_79B9_7F4A_7C15;
    for round in 0..200_000 {
        let a = next(&mut state);
        let b = sample(&mut state, a, round);
        let ours = Scalar::from_bits(a).plus(&Scalar::from_bits(b));
        let theirs = f64::from_bits(a) + f64::from_bits(b);
        assert!(
            agree(ours, theirs),
            "{:#x} + {:#x}: {:#x} against {:#x}",
            a,
            b,
            ours.to_bits(),
            theirs.to_bits()
        );
    }
}

#[test]
fn differences_match_the_hardware() {
    let mut state: u64 = 0xD1B5_4A32_D192_ED03;
    for round in 0..200_000 {
        let a = next(&mut state);
        let b = sample(&mut state, a, round);
        let ours = Scalar::from_bits(a).minus(&Scalar::from_bits(b));
        let theirs = f64::from_bits(a) - f64::from_bits(b);
        assert!(
            agree(ours, theirs),
            "{:#x} - {:#x}: {:#x} against {:#x}",
            a,
            b,
            ours.to_bits(),
            theirs.to_bits()
        );
    }
}

#[test]
fn products_match_the_hardware() {
    let mut state: u64 = 0x2545_F491_4F6C_DD1D;
    for round in 0..200_000 {
        let a = next(&mut state);
        let b = sample(&mut state, a ^ 0x4000_0000_0000_0000, round);
        let ours = Scalar::from_bits(a).times(&Scalar::from_bits(b));
        let theirs = f64::from_bits(a) * f64::from_bits(b);
        assert!(
            agree(ours, theirs),
            "{:#x} * {:#x}: {:#x} against {:#x}",
            a,
            b,
            ours.to_bits(),
            theirs.to_bits()
        );
    }
}

#[test]
fn quotients_match_the_hardware() {
    let mut state: u64 = 0x94D0_49BB_1331_11EB;
    for round in 0..100_000 {
        let a = next(&mut state);
        let b = sample(&mut state, a, round);
        let ours = Scalar::from_bits(a).over(&Scalar::from_bits(b));
        let theirs = f64::from_bits(a) / f64::from_bits(b);
        assert!(
            agree(ours, theirs),
            "{:#x} / {:#x}: {:#x} against {:#x}",
            a,
            b,
            ours.to_bits(),
            theirs.to_bits()
        );
    }
}

#[test]
fn roots_match_the_hardware() {
    let mut state: u64 = 0xBF58_476D_1CE4_E5B9;
    for round in 0..100_000 {
        let raw = next(&mut state);
        let a = match round % 3 {
            0 => raw,
            1 => raw & 0x7FFF_FFFF_FFFF_FFFF,
            _ => {
                // squares of small integers and their neighbours
                let k = (raw % 94_906_265) as f64;
                (k * k).to_bits().wrapping_add((raw >> 60) % 3).wrapping_sub(1)
            }
        };
        let ours = Scalar::from_bits(a).sqrt();
        let theirs = f64::from_bits(a).sqrt();
        assert!(
            agree(ours, theirs),
            "sqrt {:#x}: {:#x} against {:#x}",
            a,
            ours.to_bits(),
            theirs.to_bits()
        );
    }
}

#[test]
fn comparisons_match_the_hardware() {
    let mut state: u64 = 0x853C_49E6_748F_EA9B;
    for round in 0..100_000 {
        let a = next(&mut state);
        let b = match round % 5 {
            0 => a,
            1 => a ^ 0x8000_0000_0000_0000,
            _ => sample(&mut state, a, round),
        };
        let (x, y) = (Scalar::from_bits(a), Scalar::from_bits(b));
        let (p, q) = (f64::from_bits(a), f64::from_bits(b));
        assert_eq!(x.same_number(&y), p == q, "{:#x} == {:#x}", a, b);
        assert_eq!(x == y, p == q, "{:#x} == {:#x}", a, b);
        assert_eq!(x.less_than(&y), p < q, "{:#x} < {:#x}", a, b);
        assert_eq!(x.is_nan(), p.is_nan());
        assert!(agree(x.abs(), p.abs()) || p.is_nan());
        assert!(agree(x.negate(), -p) || p.is_nan());
    }
}

#[test]
fn special_values_match_the_hardware() {
    let specials: [f64; 14] = [
        0.0, -0.0, 1.0, -1.0, f64::INFINITY, f64::NEG_INFINITY, f64::NAN, f64::MAX, f64::MIN,
        f64::MIN_POSITIVE, 5e-324, -5e-324, f64::EPSILON, 2.2250738585072009e-308,
    ];
    for &p in specials.iter() {
        let x = Scalar::from_bits(p.to_bits());
        assert!(agree(x.sqrt(), p.sqrt()), "sqrt {}", p);
        for &q in specials.iter() {
            let y = Scalar::from_bits(q.to_bits());
            assert!(agree(x + y, p + q), "{} + {}", p, q);
            assert!(agree(x - y, p - q), "{} - {}", p, q);
            assert!(agree(x * y, p * q), "{} * {}", p, q);
            assert!(agree(x / y, p / q), "{} / {}", p, q);
            assert_eq!(x == y, p == q, "{} == {}", p, q);
            assert_eq!(x.less_than(&y), p < q, "{} < {}", p, q);
        }
    }
}

#[test]
fn named_scalars_are_what_they_say() {
    assert_eq!(Scalar::zero().to_bits(), 0.0_f64.to_bits());
    assert_eq!(Scalar::one().to_bits(), 1.0_f64.to_bits());
    assert_eq!(Scalar::epsilon().to_bits(), f64::EPSILON.to_bits());
    assert!(Scalar::nan().is_nan());
    assert!(f64::from_bits(Scalar::nan().to_bits()).is_nan());
}
