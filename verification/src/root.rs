//! Square roots: the integer root, and the rounding of an exact root.

use crate::encode::{
    bit_length, lemma_pow2_128, lemma_pow2_increases, power_of_two, round_dyadic,
};
use crate::rounding::{
    assemble, in_binade, lemma_jam_above, lemma_jam_below, lemma_jam_frame,
    lemma_quantum_exponent_is, lemma_round_ratio_cell, quantum_exponent, round_half,
    round_ratio,
};
use crate::scalar::Scalar;
use crate::value::{Value, HIDDEN_BIT, SIGNIFICAND_LIMIT};
use vstd::arithmetic::div_mod::{
    lemma_fundamental_div_mod, lemma_fundamental_div_mod_converse,
};
use vstd::arithmetic::power2::{
    lemma2_to64, lemma2_to64_rest, lemma_pow2_adds, lemma_pow2_pos, lemma_pow2_unfold, pow2,
};
use vstd::prelude::*;

verus! {

/// Whether `s` is the largest integer whose square is at most `n`.
pub open spec fn is_floor_root(n: nat, s: nat) -> bool {
    s * s <= n < (s + 1) * (s + 1)
}

/// The square root of `n`, rounded down to an integer.
pub open spec fn floor_root(n: nat) -> nat {
    choose|s: nat| is_floor_root(n, s)
}

/// The double nearest to the square root of `n`, where the root is counted
/// in units: the spacing is that of the floor root, and the root is rounded
/// up where it lies above the point half-way between two spacings.
pub open spec fn round_root(n: nat) -> Value {
    let exponent = quantum_exponent(floor_root(n), 1);
    let spacing = pow2(exponent);
    let below = floor_root(n) / spacing;
    let middle = (2 * below + 1) * spacing;
    let up = middle * middle < 4 * n || (middle * middle == 4 * n && below % 2 == 1);
    assemble(
        false,
        exponent,
        if up {
            below + 1
        } else {
            below
        },
    )
}

/// Squaring keeps the order of numbers that are not negative.
pub proof fn lemma_square_order(a: int, b: int)
    requires
        0 <= a,
        0 <= b,
    ensures
        a < b <==> a * a < b * b,
        a == b <==> a * a == b * b,
        a <= b <==> a * a <= b * b,
{
    if a < b {
        assert(a * a < b * b) by (nonlinear_arith)
            requires
                0 <= a < b,
        ;
    }
    if b < a {
        assert(b * b < a * a) by (nonlinear_arith)
            requires
                0 <= b < a,
        ;
    }
}

/// Every natural number has a floor root.
pub proof fn lemma_floor_root_exists(n: nat)
    ensures
        is_floor_root(n, floor_root(n)),
    decreases n,
{
    if n == 0 {
        assert(0nat * 0nat == 0 && (0nat + 1) * (0nat + 1) == 1) by (nonlinear_arith);
        assert(is_floor_root(0, 0));
    } else {
        lemma_floor_root_exists((n - 1) as nat);
        let s = floor_root((n - 1) as nat);
        assert((s + 2) * (s + 2) == (s + 1) * (s + 1) + 2 * s + 3) by (nonlinear_arith);
        if (s + 1) * (s + 1) <= n {
            assert(is_floor_root(n, s + 1));
        } else {
            assert(is_floor_root(n, s));
        }
    }
}

/// The floor root lies between any two numbers whose squares bound `n`.
pub proof fn lemma_floor_root_between(n: nat, lo: nat, hi: nat)
    requires
        lo * lo <= n < hi * hi,
    ensures
        lo <= floor_root(n) < hi,
{
    lemma_floor_root_exists(n);
    let s = floor_root(n);
    lemma_square_order(s as int + 1, lo as int);
    lemma_square_order(hi as int, s as int);
}

/// The floor root is the only number with its property.
pub proof fn lemma_floor_root_is(n: nat, s: nat)
    requires
        is_floor_root(n, s),
    ensures
        floor_root(n) == s,
{
    lemma_floor_root_between(n, s, s + 1);
}

/// The root of a perfect square rounds as the number squared does.
pub proof fn lemma_round_root_exact(t: nat)
    ensures
        round_root(t * t) == round_ratio(false, t, 1),
{
    let n = t * t;
    assert((t + 1) * (t + 1) == t * t + 2 * t + 1) by (nonlinear_arith);
    lemma_floor_root_is(n, t);
    let e = quantum_exponent(t, 1);
    let spacing = pow2(e);
    lemma_pow2_pos(e);
    assert(1 * spacing == spacing);
    let below = t / spacing;
    let rest = t % spacing;
    lemma_fundamental_div_mod(t as int, spacing as int);
    let middle = (2 * below + 1) * spacing;
    assert(middle == 2 * (spacing * below) + spacing) by (nonlinear_arith)
        requires
            middle == (2 * below + 1) * spacing,
    ;
    assert(middle == 2 * t + spacing - 2 * rest);
    lemma_square_order(middle as int, (2 * t) as int);
    assert((2 * t) * (2 * t) == 4 * (t * t)) by (nonlinear_arith);
}

/// The half spacing, in units, that a frame speaks of, and the bounds it
/// gives for whatever lies between the two neighbours.
proof fn lemma_root_cell(
    lo: int,
    hi: int,
    s: int,
    u: int,
    half: int,
    spacing: int,
    h: int,
    sig: int,
)
    requires
        u > 0,
        half > 0,
        h >= 0,
        spacing == 2 * u * half,
        lo == sig * u,
        hi == (sig + 1) * u,
        h * half <= sig,
        sig + 1 <= (h + 1) * half,
        lo <= s < hi,
    ensures
        h * (u * half) <= lo,
        hi <= (h + 1) * (u * half),
        s / spacing == h / 2,
        (2 * (h / 2) + 1) * spacing == 2 * ((2 * (h / 2) + 1) * (u * half)),
        h % 2 == 0 ==> (2 * (h / 2) + 1) * (u * half) >= hi,
        h % 2 == 1 ==> (2 * (h / 2) + 1) * (u * half) <= lo,
{
    let step = u * half;
    let k = h / 2;
    assert(step > 0) by (nonlinear_arith)
        requires
            step == u * half,
            u > 0,
            half > 0,
    ;
    assert(h * step == (h * half) * u) by (nonlinear_arith)
        requires
            step == u * half,
    ;
    assert((h + 1) * step == ((h + 1) * half) * u) by (nonlinear_arith)
        requires
            step == u * half,
    ;
    assert((h * half) * u <= sig * u) by (nonlinear_arith)
        requires
            h * half <= sig,
            u > 0,
    ;
    assert((sig + 1) * u <= ((h + 1) * half) * u) by (nonlinear_arith)
        requires
            sig + 1 <= (h + 1) * half,
            u > 0,
    ;
    assert(spacing == 2 * step) by (nonlinear_arith)
        requires
            spacing == 2 * u * half,
            step == u * half,
    ;
    assert((2 * k + 1) * spacing == 2 * ((2 * k + 1) * step)) by (nonlinear_arith)
        requires
            spacing == 2 * step,
    ;
    assert(k * spacing == (2 * k) * step) by (nonlinear_arith)
        requires
            spacing == 2 * step,
    ;
    assert((2 * k + 1) * step == (2 * k) * step + step) by (nonlinear_arith);
    assert((2 * k + 2) * step == (2 * k) * step + 2 * step) by (nonlinear_arith);
    let rest = s - k * spacing;
    assert(0 <= rest < spacing);
    assert(s == spacing * k + rest) by (nonlinear_arith)
        requires
            rest == s - k * spacing,
    ;
    lemma_fundamental_div_mod_converse(s, spacing, k, rest);
}

/// A root that is not an integer of the scale, and is known only to lie
/// strictly between two neighbours `sig` and `sig + 1` of at least 55
/// bits, rounds as the point half-way between them does.
pub proof fn lemma_round_root_jammed(n: nat, sig: nat, up: nat)
    requires
        sig >= 0x40_0000_0000_0000,
        (sig * pow2(up)) * (sig * pow2(up)) < n,
        n < ((sig + 1) * pow2(up)) * ((sig + 1) * pow2(up)),
    ensures
        round_root(n) == round_ratio(false, (2 * sig + 1) * pow2(up), 2 * pow2(0)),
{
    let frame = lemma_jam_frame(sig, up, 0);
    let e = frame.exponent;
    let h = frame.halves;
    let u = pow2(up) as int;
    let spacing = pow2(e) as int;
    let half = pow2(frame.excess) as int;
    let lo = sig * pow2(up);
    let hi = (sig + 1) * pow2(up);
    let stand_in = (2 * sig + 1) * pow2(up);
    lemma2_to64();
    lemma_pow2_pos(up);
    lemma_pow2_pos(e);
    lemma_pow2_pos(frame.excess);
    lemma_floor_root_between(n, lo, hi);
    let s = floor_root(n);
    let limit = SIGNIFICAND_LIMIT as int;
    let hidden = HIDDEN_BIT as int;
    assert(spacing * 1 == 2 * u * half);
    // the floor of the root lies in the binade of the stand-in
    assert((sig + 1) * u * 1 == hi) by (nonlinear_arith)
        requires
            hi == (sig + 1) * u,
    ;
    assert(sig * u * 1 == lo) by (nonlinear_arith)
        requires
            lo == sig * u,
    ;
    assert(limit * spacing * (2 * pow2(0)) == limit * spacing * (2 * 1));
    lemma_jam_below(s as int, 1, sig as int, u, 1, spacing, half, limit);
    assert(limit * spacing * 1 == limit * spacing) by (nonlinear_arith);
    if e > 0 {
        assert(hidden * spacing * (2 * pow2(0)) == hidden * spacing * (2 * 1));
        lemma_jam_above(s as int, 1, sig as int, u, 1, spacing, half, hidden);
        assert(hidden * spacing * 1 == hidden * spacing) by (nonlinear_arith);
    } else {
        assert(limit * spacing == limit * 1) by (nonlinear_arith)
            requires
                spacing == 1,
        ;
    }
    assert(in_binade(s, 1, e));
    lemma_quantum_exponent_is(s, 1, e);
    // and in the same half cell
    lemma_root_cell(lo as int, hi as int, s as int, u, half, spacing, h as int, sig as int);
    let below = s / (spacing as nat);
    let k = (h / 2) as int;
    assert(below == k);
    let middle = (2 * below + 1) * spacing;
    let reach = (2 * k + 1) * (u * half);
    assert(middle == 2 * reach);
    assert(middle * middle == 4 * (reach * reach)) by (nonlinear_arith)
        requires
            middle == 2 * reach,
    ;
    assert(reach >= 0) by (nonlinear_arith)
        requires
            reach == (2 * k + 1) * (u * half),
            k >= 0,
            u > 0,
            half > 0,
    ;
    if h % 2 == 0 {
        lemma_square_order(hi as int, reach);
        assert(middle * middle > 4 * n);
    } else {
        lemma_square_order(reach, lo as int);
        assert(middle * middle < 4 * n);
    }
    assert(round_root(n) == assemble(false, e, round_half(h, false)));
    lemma_round_ratio_cell(false, stand_in, 2 * pow2(0), e, h, false);
}

/// The square root of `n`, rounded down.
pub fn integer_root(n: u128) -> (s: u64)
    ensures
        is_floor_root(n as nat, s as nat),
{
    let mut lo: u128 = 0;
    let mut hi: u128 = 0x1_0000_0000_0000_0000;
    assert(0x1_0000_0000_0000_0000int * 0x1_0000_0000_0000_0000int
        == 0x1_0000_0000_0000_0000_0000_0000_0000_0000int) by (nonlinear_arith);
    assert(0int * 0 == 0);
    while hi - lo > 1
        invariant
            lo < hi <= 0x1_0000_0000_0000_0000,
            lo * lo <= n,
            n < hi * hi,
        decreases hi - lo,
    {
        let mid: u128 = lo + (hi - lo) / 2;
        assert(mid * mid <= 0xFFFF_FFFF_FFFF_FFFF * 0xFFFF_FFFF_FFFF_FFFF) by (nonlinear_arith)
            requires
                0 <= mid <= 0xFFFF_FFFF_FFFF_FFFF,
        ;
        if mid * mid <= n {
            lo = mid;
        } else {
            hi = mid;
        }
    }
    lo as u64
}

/// The root of a positive finite number given by significand and power of
/// two.
pub fn root_of_parts(m: u64, e: u32) -> (r: Scalar)
    requires
        0 < m < 0x20_0000_0000_0000,
        e <= 2045,
    ensures
        r@ == round_root((m as nat * pow2(e as nat)) * pow2(1074)),
{
    // the radicand is moved up, by a power of two that leaves an even one
    // behind, until its leading bit is bit 126 or 127
    let len: u32 = bit_length(m as u128);
    proof {
        lemma2_to64();
        lemma2_to64_rest();
        if len > 53 {
            lemma_pow2_increases(53, (len - 1) as nat);
        }
    }
    let whole: u32 = e + 1074;
    let least: u32 = 127 - len;
    let lift: u32 = if (whole - least) % 2 == 0 {
        least
    } else {
        least + 1
    };
    let g: u32 = (whole - lift) / 2;
    let ghost scale = pow2(lift as nat);
    let ghost side = pow2(g as nat);
    let ghost n = (m as nat * pow2(e as nat)) * pow2(1074);
    proof {
        lemma_pow2_pos(lift as nat);
        lemma_pow2_pos(g as nat);
        lemma_pow2_128();
        lemma_pow2_adds(len as nat, lift as nat);
        lemma_pow2_adds((len - 1) as nat, lift as nat);
        lemma_pow2_increases((len + lift) as nat, 128);
        lemma_pow2_increases(126, (len - 1 + lift) as nat);
        assert(m * scale < pow2(len as nat) * scale) by (nonlinear_arith)
            requires
                m < pow2(len as nat),
                scale > 0,
        ;
        assert(pow2((len - 1) as nat) * scale <= m * scale) by (nonlinear_arith)
            requires
                pow2((len - 1) as nat) <= m,
                scale > 0,
        ;
    }
    let radicand: u128 = (m as u128) * power_of_two(lift);
    let root: u64 = integer_root(radicand);
    proof {
        lemma_pow2_adds(e as nat, 1074);
        lemma_pow2_adds(g as nat, g as nat);
        lemma_pow2_adds(lift as nat, (g + g) as nat);
        assert(n == radicand * (side * side)) by (nonlinear_arith)
            requires
                n == (m as nat * pow2(e as nat)) * pow2(1074),
                pow2(e as nat) * pow2(1074) == scale * (side * side),
                radicand == m * scale,
        ;
        // the root has 64 bits
        if root < 0x8000_0000_0000_0000 {
            assert((root + 1) * (root + 1) <= 0x8000_0000_0000_0000 * 0x8000_0000_0000_0000)
                by (nonlinear_arith)
                requires
                    0 <= root + 1 <= 0x8000_0000_0000_0000,
            ;
        }
        assert(root * root <= 0xFFFF_FFFF_FFFF_FFFF * 0xFFFF_FFFF_FFFF_FFFF) by (nonlinear_arith)
            requires
                0 <= root <= 0xFFFF_FFFF_FFFF_FFFF,
        ;
        lemma_root_scaled(radicand as int, root as int, side as int);
    }
    let square: u128 = (root as u128) * (root as u128);
    if square == radicand {
        proof {
            lemma_round_root_exact(root as nat * side);
        }
        round_dyadic(false, root as u128, g, 0)
    } else {
        proof {
            lemma_round_root_jammed(n, root as nat, g as nat);
            lemma_pow2_unfold(1);
        }
        round_dyadic(false, 2 * (root as u128) + 1, g, 1)
    }
}

/// Scaling a radicand by a square scales the bounds of its root.
proof fn lemma_root_scaled(radicand: int, root: int, side: int)
    requires
        0 <= root,
        side > 0,
        root * root <= radicand < (root + 1) * (root + 1),
    ensures
        (root * side) * (root * side) <= radicand * (side * side),
        radicand * (side * side) < ((root + 1) * side) * ((root + 1) * side),
        root * root == radicand ==> (root * side) * (root * side) == radicand * (side * side),
        root * root != radicand ==> (root * side) * (root * side) < radicand * (side * side),
{
    let area = side * side;
    assert(area > 0) by (nonlinear_arith)
        requires
            area == side * side,
            side > 0,
    ;
    assert((root * side) * (root * side) == (root * root) * area) by (nonlinear_arith)
        requires
            area == side * side,
    ;
    assert(((root + 1) * side) * ((root + 1) * side) == ((root + 1) * (root + 1)) * area)
        by (nonlinear_arith)
        requires
            area == side * side,
    ;
    assert((root * root) * area <= radicand * area) by (nonlinear_arith)
        requires
            root * root <= radicand,
            area > 0,
    ;
    assert(radicand * area < ((root + 1) * (root + 1)) * area) by (nonlinear_arith)
        requires
            radicand < (root + 1) * (root + 1),
            area > 0,
    ;
    if root * root != radicand {
        assert((root * root) * area < radicand * area) by (nonlinear_arith)
            requires
                root * root < radicand,
                area > 0,
        ;
    }
}

} // verus!
