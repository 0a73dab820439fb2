//! The pieces that the arithmetic is made of.

use noray::encode::{bit_length, finite_parts, join, power_of_two, round_dyadic, split};
use noray::root::integer_root;
use noray::Scalar;

fn next(state: &mut u64) -> u64 {
    let mut x = *state;
    x ^= x << 13;
    x ^= x >> 7;
    x ^= x << 17;
    *state = x;
    x
}

#[test]
fn bit_length_counts_to_the_leading_one() {
    assert_eq!(bit_length(0), 0);
    assert_eq!(bit_length(1), 1);
    assert_eq!(bit_length(2), 2);
    assert_eq!(bit_length(3), 2);
    assert_eq!(bit_length(255), 8);
    assert_eq!(bit_length(256), 9);
    assert_eq!(bit_length(u128::MAX), 128);
    for k in 0..128u32 {
        assert_eq!(bit_length(1u128 << k), k + 1);
        assert_eq!(bit_length((1u128 << k) | ((1u128 << k) - 1)), k + 1);
    }
}

#[test]
fn power_of_two_is_a_shift() {
    for k in 0..=127u32 {
        assert_eq!(power_of_two(k), 1u128 << k);
    }
}

#[test]
fn integer_root_is_the_floor() {
    assert_eq!(integer_root(0), 0);
    assert_eq!(integer_root(1), 1);
    assert_eq!(integer_root(3), 1);
    assert_eq!(integer_root(4), 2);
    assert_eq!(integer_root(99), 9);
    assert_eq!(integer_root(100), 10);
    assert_eq!(integer_root(u128::MAX), u64::MAX);
    let mut state: u64 = 0x6A09_E667_F3BC_C908;
    for round in 0..2_000 {
        let wide = ((next(&mut state) as u128) << 64) | next(&mut state) as u128;
        let n = wide >> (round % 128);
        let s = integer_root(n) as u128;
        assert!(s * s <= n);
        assert!(s == u64::MAX as u128 || (s + 1) * (s + 1) > n);
        assert_eq!(integer_root(s * s), s as u64);
    }
}

#[test]
fn split_and_join_are_inverse() {
    let mut state: u64 = 0xBB67_AE85_84CA_A73B;
    for _ in 0..1_000 {
        let bits = next(&mut state);
        let (negative, code) = split(bits);
        assert_eq!(negative, bits >> 63 == 1);
        assert_eq!(code, bits & 0x7FFF_FFFF_FFFF_FFFF);
        assert_eq!(join(negative, code).to_bits(), bits);
    }
}

#[test]
fn finite_parts_give_significand_and_power() {
    assert_eq!(finite_parts(0), (0, 0));
    assert_eq!(finite_parts(1), (1, 0));
    assert_eq!(finite_parts(0x000F_FFFF_FFFF_FFFF), (0x000F_FFFF_FFFF_FFFF, 0));
    assert_eq!(finite_parts(0x0010_0000_0000_0000), (0x0010_0000_0000_0000, 0));
    assert_eq!(finite_parts(0x0020_0000_0000_0001), (0x0010_0000_0000_0001, 1));
    assert_eq!(finite_parts(1.0_f64.to_bits()), (1 << 52, 1022));
    assert_eq!(finite_parts(f64::MAX.to_bits()), ((1 << 53) - 1, 2045));
}

#[test]
fn round_dyadic_rounds_integers_as_the_hardware_does() {
    // an integer is so many times 2^1074 units
    let mut state: u64 = 0x3C6E_F372_FE94_F82B;
    for round in 0..20_000 {
        let wide = ((next(&mut state) as u128) << 64) | next(&mut state) as u128;
        let n = wide >> (round % 128);
        assert_eq!(round_dyadic(false, n, 1074, 0).to_bits(), (n as f64).to_bits(), "{}", n);
        assert_eq!(round_dyadic(true, n, 1074, 0).to_bits(), (-(n as f64)).to_bits(), "{}", n);
        let small = n as u64;
        assert_eq!(
            round_dyadic(false, small as u128, 1074, 0).to_bits(),
            (small as f64).to_bits()
        );
    }
}

#[test]
fn round_dyadic_scales_by_powers_of_two() {
    // three quarters, written in several ways
    let expected = 0.75_f64.to_bits();
    assert_eq!(round_dyadic(false, 3, 1072, 0).to_bits(), expected);
    assert_eq!(round_dyadic(false, 3, 1074, 2).to_bits(), expected);
    assert_eq!(round_dyadic(false, 3 << 100, 1074, 102).to_bits(), expected);
    assert_eq!(round_dyadic(false, 3, 0, 0).to_bits(), 3);
    // ties go to the even significand
    assert_eq!(round_dyadic(false, 1, 0, 1).to_bits(), 0);
    assert_eq!(round_dyadic(false, 3, 0, 1).to_bits(), 2);
    assert_eq!(round_dyadic(false, 5, 0, 1).to_bits(), 2);
    assert_eq!(
        round_dyadic(false, (1 << 54) + 2, 1074, 0).to_bits(),
        ((1u64 << 54) as f64).to_bits()
    );
    assert_eq!(
        round_dyadic(false, (1 << 54) + 6, 1074, 0).to_bits(),
        (((1u64 << 54) + 8) as f64).to_bits()
    );
    // what is too small vanishes, what is too large is infinite
    assert_eq!(round_dyadic(false, 1, 0, 2).to_bits(), 0);
    assert_eq!(round_dyadic(true, 1, 0, 8000).to_bits(), (-0.0_f64).to_bits());
    assert_eq!(round_dyadic(false, u128::MAX, 0, 129).to_bits(), 0);
    assert_eq!(round_dyadic(false, u128::MAX, 0, 128).to_bits(), 1);
    assert_eq!(round_dyadic(false, 1, 2098, 0).to_bits(), f64::INFINITY.to_bits());
    assert_eq!(round_dyadic(true, 1, 8192, 0).to_bits(), f64::NEG_INFINITY.to_bits());
    assert_eq!(round_dyadic(false, (1 << 53) - 1, 2045, 0).to_bits(), f64::MAX.to_bits());
    assert_eq!(round_dyadic(false, (1 << 54) - 1, 2044, 0).to_bits(), f64::INFINITY.to_bits());
    assert_eq!(round_dyadic(false, (1 << 54) - 2, 2044, 0).to_bits(), f64::MAX.to_bits());
    assert_eq!(round_dyadic(false, 0, 5, 7), Scalar::zero());
}
