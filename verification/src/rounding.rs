//! Rounding to the nearest double, ties to the even significand.
//!
//! A non-negative exact result is given as a ratio `n / d` of natural
//! numbers, measured in units of 2^-1074.  Its rounding is described in two
//! steps: the spacing of the doubles around it, and the nearest multiple of
//! that spacing.

use crate::value::{code_units, Value, HIDDEN_BIT, INFINITY_CODE, SIGNIFICAND_LIMIT};
use vstd::arithmetic::div_mod::{
    lemma_fundamental_div_mod, lemma_fundamental_div_mod_converse,
};
use vstd::arithmetic::mul::lemma_mul_strict_inequality_converse;
use vstd::arithmetic::power2::{
    lemma2_to64, lemma_pow2_adds, lemma_pow2_pos, lemma_pow2_strictly_increases,
    lemma_pow2_unfold, pow2,
};
use vstd::prelude::*;

verus! {

/// The exponent `e` of the spacing 2^e (in units) of the doubles around
/// `n / d`: zero below 2^53 units, where every integer is a double, and one
/// more for each doubling above.
pub open spec fn quantum_exponent(n: nat, d: nat) -> nat
    decreases n,
{
    if d == 0 || n < SIGNIFICAND_LIMIT * d {
        0
    } else {
        1 + quantum_exponent(n / 2, d)
    }
}

/// The integer nearest to `n / d`; of two equally near, the even one.
pub open spec fn nearest_even(n: nat, d: nat) -> nat {
    let quotient = n / d;
    let remainder = n % d;
    if 2 * remainder > d || (2 * remainder == d && quotient % 2 == 1) {
        quotient + 1
    } else {
        quotient
    }
}

/// The value with significand `significand` at spacing 2^`exponent`, or an
/// infinity when that is beyond the largest finite double.
pub open spec fn assemble(negative: bool, exponent: nat, significand: nat) -> Value {
    if exponent * HIDDEN_BIT + significand >= INFINITY_CODE {
        Value::Infinite { negative }
    } else {
        Value::Finite { negative, units: significand * pow2(exponent) }
    }
}

/// The double nearest to `n / d` units, with the given sign.
pub open spec fn round_ratio(negative: bool, n: nat, d: nat) -> Value {
    let exponent = quantum_exponent(n, d);
    assemble(negative, exponent, nearest_even(n, d * pow2(exponent)))
}

/// Halves `h`, a count of half spacings, to the nearest integer.  When the
/// count is not `exact`, the number counted lies strictly above it.
pub open spec fn round_half(h: nat, exact: bool) -> nat {
    let quotient = h / 2;
    if h % 2 == 1 && (!exact || quotient % 2 == 1) {
        quotient + 1
    } else {
        quotient
    }
}

/// Whether `n / d` lies in the range whose spacing is 2^`e`.
pub open spec fn in_binade(n: nat, d: nat, e: nat) -> bool {
    if e == 0 {
        n < SIGNIFICAND_LIMIT * d
    } else {
        HIDDEN_BIT * pow2(e) * d <= n < SIGNIFICAND_LIMIT * pow2(e) * d
    }
}

/// Whether `h` counts the whole half spacings `big / 2` in `n`, exactly or
/// with something left over.
pub open spec fn in_half_cell(n: nat, big: nat, h: nat, exact: bool) -> bool {
    if exact {
        2 * n == h * big
    } else {
        h * big < 2 * n < (h + 1) * big
    }
}

/// The spacing of a ratio that lies in a known binade.
pub proof fn lemma_quantum_exponent_is(n: nat, d: nat, e: nat)
    requires
        d > 0,
        in_binade(n, d, e),
    ensures
        quantum_exponent(n, d) == e,
    decreases e,
{
    if e > 0 {
        let lower = (e - 1) as nat;
        lemma_pow2_unfold(e);
        lemma_pow2_pos(lower);
        let p = pow2(lower) as int;
        let dd = d as int;
        assert(pow2(e) == 2 * p);
        assert(HIDDEN_BIT * (2 * p) * dd == 2 * (HIDDEN_BIT * p * dd)) by (nonlinear_arith);
        assert(SIGNIFICAND_LIMIT * (2 * p) * dd == 2 * (SIGNIFICAND_LIMIT * p * dd))
            by (nonlinear_arith);
        assert(HIDDEN_BIT * p * dd >= HIDDEN_BIT * dd) by (nonlinear_arith)
            requires
                p >= 1,
                dd >= 1,
        ;
        assert(2 * (HIDDEN_BIT * dd) == SIGNIFICAND_LIMIT * dd) by (nonlinear_arith);
        assert(n >= SIGNIFICAND_LIMIT * d);
        if lower == 0 {
            lemma2_to64();
            assert(SIGNIFICAND_LIMIT * p * dd == SIGNIFICAND_LIMIT * dd) by (nonlinear_arith)
                requires
                    p == 1,
            ;
        }
        lemma_quantum_exponent_is(n / 2, d, lower);
    }
}

/// Every ratio lies in the binade that its spacing names.
pub proof fn lemma_quantum_exponent_bounds(n: nat, d: nat)
    requires
        d > 0,
    ensures
        in_binade(n, d, quantum_exponent(n, d)),
    decreases n,
{
    if n >= SIGNIFICAND_LIMIT * d {
        assert(SIGNIFICAND_LIMIT * d >= 1) by (nonlinear_arith)
            requires
                d >= 1,
        ;
        lemma_quantum_exponent_bounds(n / 2, d);
        let lower = quantum_exponent(n / 2, d);
        let e = lower + 1;
        lemma_pow2_unfold(e);
        lemma_pow2_pos(lower);
        let p = pow2(lower) as int;
        let dd = d as int;
        assert(HIDDEN_BIT * (2 * p) * dd == 2 * (HIDDEN_BIT * p * dd)) by (nonlinear_arith);
        assert(SIGNIFICAND_LIMIT * (2 * p) * dd == 2 * (SIGNIFICAND_LIMIT * p * dd))
            by (nonlinear_arith);
        if lower == 0 {
            lemma2_to64();
            assert(SIGNIFICAND_LIMIT * p * dd == SIGNIFICAND_LIMIT * dd) by (nonlinear_arith)
                requires
                    p == 1,
            ;
            assert(HIDDEN_BIT * p * dd == HIDDEN_BIT * dd) by (nonlinear_arith)
                requires
                    p == 1,
            ;
            assert(2 * (HIDDEN_BIT * dd) == SIGNIFICAND_LIMIT * dd) by (nonlinear_arith);
        }
    }
}

/// A ratio strictly inside a half cell rounds towards the whole spacing
/// that bounds the cell.
pub proof fn lemma_nearest_even_inside(n: nat, big: nat, h: nat)
    requires
        big > 0,
        in_half_cell(n, big, h, false),
    ensures
        nearest_even(n, big) == round_half(h, false),
{
    let k = h / 2;
    let b = big as int;
    let kk = k as int;
    if h % 2 == 0 {
        assert(h == 2 * k);
        assert((2 * kk) * b == 2 * (kk * b)) by (nonlinear_arith);
        assert((2 * kk + 1) * b == 2 * (kk * b) + b) by (nonlinear_arith);
        let r = n - kk * b;
        assert(0 < r && 2 * r < b);
        assert(n == kk * b + r);
        lemma_fundamental_div_mod_converse(n as int, b, kk, r);
    } else {
        assert(h == 2 * k + 1);
        assert((2 * kk + 1) * b == 2 * (kk * b) + b) by (nonlinear_arith);
        assert((2 * kk + 2) * b == 2 * (kk * b) + 2 * b) by (nonlinear_arith);
        let r = n - kk * b;
        assert(2 * r > b && r < b);
        lemma_fundamental_div_mod_converse(n as int, b, kk, r);
    }
}

/// A ratio on the boundary of a half cell is either a whole spacing, or
/// half-way between two, where the even one is taken.
pub proof fn lemma_nearest_even_on_grid(n: nat, big: nat, h: nat)
    requires
        big > 0,
        in_half_cell(n, big, h, true),
    ensures
        nearest_even(n, big) == round_half(h, true),
{
    let k = h / 2;
    let b = big as int;
    let kk = k as int;
    if h % 2 == 0 {
        assert(h == 2 * k);
        assert((2 * kk) * b == 2 * (kk * b)) by (nonlinear_arith);
        assert(n == kk * b);
        lemma_fundamental_div_mod_converse(n as int, b, kk, 0);
    } else {
        assert(h == 2 * k + 1);
        assert((2 * kk + 1) * b == 2 * (kk * b) + b) by (nonlinear_arith);
        let r = n - kk * b;
        assert(2 * r == b);
        lemma_fundamental_div_mod_converse(n as int, b, kk, r);
    }
}

/// The rounding of a ratio whose binade and half cell are known.
pub proof fn lemma_round_ratio_cell(negative: bool, n: nat, d: nat, e: nat, h: nat, exact: bool)
    requires
        d > 0,
        in_binade(n, d, e),
        in_half_cell(n, d * pow2(e), h, exact),
    ensures
        round_ratio(negative, n, d) == assemble(negative, e, round_half(h, exact)),
{
    lemma_quantum_exponent_is(n, d, e);
    lemma_pow2_pos(e);
    assert(d * pow2(e) > 0) by (nonlinear_arith)
        requires
            d > 0,
            pow2(e) > 0,
    ;
    if exact {
        lemma_nearest_even_on_grid(n, d * pow2(e), h);
    } else {
        lemma_nearest_even_inside(n, d * pow2(e), h);
    }
}

/// The encoding with exponent field and significand added up stands for
/// the significand at the spacing of that exponent.
pub proof fn lemma_code_units_assembled(e: nat, m: nat)
    requires
        if e == 0 {
            m <= SIGNIFICAND_LIMIT
        } else {
            HIDDEN_BIT <= m <= SIGNIFICAND_LIMIT
        },
    ensures
        code_units((e * HIDDEN_BIT + m) as nat) == m * pow2(e),
{
    let code = (e * HIDDEN_BIT + m) as nat;
    lemma_pow2_pos(e);
    if m < HIDDEN_BIT {
        lemma2_to64();
        assert(code == m);
        assert(m * pow2(0) == m) by (nonlinear_arith)
            requires
                pow2(0) == 1,
        ;
    } else if m < SIGNIFICAND_LIMIT {
        assert(code == (e + 1) * HIDDEN_BIT + (m - HIDDEN_BIT));
        lemma_fundamental_div_mod_converse(
            code as int,
            HIDDEN_BIT as int,
            (e + 1) as int,
            (m - HIDDEN_BIT) as int,
        );
    } else {
        assert(code == (e + 2) * HIDDEN_BIT);
        lemma_fundamental_div_mod_converse(code as int, HIDDEN_BIT as int, (e + 2) as int, 0);
        lemma_pow2_unfold(e + 1);
        let p = pow2(e) as int;
        assert(HIDDEN_BIT * (2 * p) == SIGNIFICAND_LIMIT * p) by (nonlinear_arith);
    }
}

/// Two ratios that are equal as fractions compare alike with every
/// integer: here, for a ratio that is at least the integer.
pub proof fn lemma_cross_le(n1: nat, d1: nat, n2: nat, d2: nat, k: nat)
    requires
        d1 > 0,
        d2 > 0,
        n1 * d2 == n2 * d1,
        k * d1 <= n1,
    ensures
        k * d2 <= n2,
{
    assert((k * d1) * d2 <= n1 * d2) by (nonlinear_arith)
        requires
            k * d1 <= n1,
            d2 > 0,
    ;
    assert((k * d1) * d2 == (k * d2) * d1) by (nonlinear_arith);
    assert(k * d2 <= n2) by (nonlinear_arith)
        requires
            (k * d2) * d1 <= n2 * d1,
            d1 > 0,
    ;
}

/// The same, for a ratio below the integer.
pub proof fn lemma_cross_lt(n1: nat, d1: nat, n2: nat, d2: nat, k: nat)
    requires
        d1 > 0,
        d2 > 0,
        n1 * d2 == n2 * d1,
        n1 < k * d1,
    ensures
        n2 < k * d2,
{
    assert(n1 * d2 < (k * d1) * d2) by (nonlinear_arith)
        requires
            n1 < k * d1,
            d2 > 0,
    ;
    assert((k * d1) * d2 == (k * d2) * d1) by (nonlinear_arith);
    assert(n2 < k * d2) by (nonlinear_arith)
        requires
            n2 * d1 < (k * d2) * d1,
            d1 > 0,
    ;
}

/// The same, for a ratio above the integer.
pub proof fn lemma_cross_gt(n1: nat, d1: nat, n2: nat, d2: nat, k: nat)
    requires
        d1 > 0,
        d2 > 0,
        n1 * d2 == n2 * d1,
        k * d1 < n1,
    ensures
        k * d2 < n2,
{
    assert((k * d1) * d2 < n1 * d2) by (nonlinear_arith)
        requires
            k * d1 < n1,
            d2 > 0,
    ;
    assert((k * d1) * d2 == (k * d2) * d1) by (nonlinear_arith);
    assert(k * d2 < n2) by (nonlinear_arith)
        requires
            (k * d2) * d1 < n2 * d1,
            d1 > 0,
    ;
}

/// The same, for a ratio that is the integer.
pub proof fn lemma_cross_eq(n1: nat, d1: nat, n2: nat, d2: nat, k: nat)
    requires
        d1 > 0,
        d2 > 0,
        n1 * d2 == n2 * d1,
        n1 == k * d1,
    ensures
        n2 == k * d2,
{
    lemma_cross_le(n1, d1, n2, d2, k);
    if n2 > k * d2 {
        lemma_cross_gt(n2, d2, n1, d1, k);
    }
}

/// Rounding depends on the fraction alone, not on how it is written.
pub proof fn lemma_round_ratio_same_fraction(negative: bool, n1: nat, d1: nat, n2: nat, d2: nat)
    requires
        d1 > 0,
        d2 > 0,
        n1 * d2 == n2 * d1,
    ensures
        round_ratio(negative, n1, d1) == round_ratio(negative, n2, d2),
{
    let e = quantum_exponent(n1, d1);
    let p = pow2(e);
    lemma_quantum_exponent_bounds(n1, d1);
    lemma_pow2_pos(e);
    // the binade carries over
    if e == 0 {
        lemma_cross_lt(n1, d1, n2, d2, SIGNIFICAND_LIMIT as nat);
    } else {
        assert(HIDDEN_BIT * p * d1 == (HIDDEN_BIT * p) * d1);
        assert(HIDDEN_BIT * p * d2 == (HIDDEN_BIT * p) * d2);
        assert(SIGNIFICAND_LIMIT * p * d1 == (SIGNIFICAND_LIMIT * p) * d1);
        assert(SIGNIFICAND_LIMIT * p * d2 == (SIGNIFICAND_LIMIT * p) * d2);
        lemma_cross_le(n1, d1, n2, d2, HIDDEN_BIT as nat * p);
        lemma_cross_lt(n1, d1, n2, d2, SIGNIFICAND_LIMIT as nat * p);
    }
    // and so does the half cell
    let big1 = d1 * p;
    let big2 = d2 * p;
    assert(big1 > 0 && big2 > 0) by (nonlinear_arith)
        requires
            big1 == d1 * p,
            big2 == d2 * p,
            d1 > 0,
            d2 > 0,
            p > 0,
    ;
    let h = (2 * n1) / big1;
    let exact = (2 * n1) % big1 == 0;
    lemma_fundamental_div_mod((2 * n1) as int, big1 as int);
    assert(big1 * h == h * big1) by (nonlinear_arith);
    assert((h + 1) * big1 == h * big1 + big1) by (nonlinear_arith);
    assert(in_half_cell(n1, big1, h, exact));
    assert((2 * n1) * d2 == (2 * n2) * d1) by (nonlinear_arith)
        requires
            n1 * d2 == n2 * d1,
    ;
    assert(h * big1 == (h * p) * d1) by (nonlinear_arith)
        requires
            big1 == d1 * p,
    ;
    assert(h * big2 == (h * p) * d2) by (nonlinear_arith)
        requires
            big2 == d2 * p,
    ;
    assert((h + 1) * big1 == ((h + 1) * p) * d1) by (nonlinear_arith)
        requires
            big1 == d1 * p,
    ;
    assert((h + 1) * big2 == ((h + 1) * p) * d2) by (nonlinear_arith)
        requires
            big2 == d2 * p,
    ;
    if exact {
        lemma_cross_eq(2 * n1, d1, 2 * n2, d2, h * p);
    } else {
        lemma_cross_gt(2 * n1, d1, 2 * n2, d2, h * p);
        lemma_cross_lt(2 * n1, d1, 2 * n2, d2, (h + 1) * p);
    }
    assert(in_half_cell(n2, big2, h, exact));
    lemma_round_ratio_cell(negative, n1, d1, e, h, exact);
    lemma_round_ratio_cell(negative, n2, d2, e, h, exact);
}

/// The half cell of the number that stands in for an inexact result:
/// `sig` and a half, in the scale `u / w`, with cells `half` wide.
proof fn lemma_jam_stand_in_cell(sig: int, u: int, w: int, p: int, half: int, h: int)
    requires
        u > 0,
        h >= 0,
        h * half <= sig,
        sig + 1 <= (h + 1) * half,
        p * w == 2 * u * half,
    ensures
        h * (2 * w * p) < 2 * ((2 * sig + 1) * u) < (h + 1) * (2 * w * p),
{
    let a = h * half;
    let b = (h + 1) * half;
    assert(h * (2 * w * p) == 4 * (u * a)) by (nonlinear_arith)
        requires
            p * w == 2 * u * half,
            a == h * half,
    ;
    assert((h + 1) * (2 * w * p) == 4 * (u * b)) by (nonlinear_arith)
        requires
            p * w == 2 * u * half,
            b == (h + 1) * half,
    ;
    assert(u * a <= u * sig) by (nonlinear_arith)
        requires
            a <= sig,
            u > 0,
    ;
    assert(u * (sig + 1) <= u * b) by (nonlinear_arith)
        requires
            sig + 1 <= b,
            u > 0,
    ;
    assert(2 * ((2 * sig + 1) * u) == 4 * (u * sig) + 2 * u) by (nonlinear_arith);
    assert(u * (sig + 1) == u * sig + u) by (nonlinear_arith);
}

/// The half cell of the inexact result itself.
proof fn lemma_jam_result_cell(n: int, d: int, sig: int, u: int, w: int, p: int, half: int, h: int)
    requires
        d > 0,
        u > 0,
        w > 0,
        h >= 0,
        h * half <= sig,
        sig + 1 <= (h + 1) * half,
        p * w == 2 * u * half,
        sig * u * d < n * w,
        n * w < (sig + 1) * u * d,
    ensures
        h * (d * p) < 2 * n < (h + 1) * (d * p),
{
    let a = h * half;
    let b = (h + 1) * half;
    let ud = u * d;
    assert(ud > 0) by (nonlinear_arith)
        requires
            ud == u * d,
            u > 0,
            d > 0,
    ;
    assert((h * (d * p)) * w == 2 * (a * ud)) by (nonlinear_arith)
        requires
            p * w == 2 * u * half,
            a == h * half,
            ud == u * d,
    ;
    assert(((h + 1) * (d * p)) * w == 2 * (b * ud)) by (nonlinear_arith)
        requires
            p * w == 2 * u * half,
            b == (h + 1) * half,
            ud == u * d,
    ;
    assert(a * ud <= sig * ud) by (nonlinear_arith)
        requires
            a <= sig,
            ud > 0,
    ;
    assert((sig + 1) * ud <= b * ud) by (nonlinear_arith)
        requires
            sig + 1 <= b,
            ud > 0,
    ;
    assert(sig * u * d == sig * ud) by (nonlinear_arith)
        requires
            ud == u * d,
    ;
    assert((sig + 1) * u * d == (sig + 1) * ud) by (nonlinear_arith)
        requires
            ud == u * d,
    ;
    assert((2 * n) * w == 2 * (n * w)) by (nonlinear_arith);
    assert((h * (d * p)) * w < (2 * n) * w);
    assert((2 * n) * w < ((h + 1) * (d * p)) * w);
    lemma_mul_strict_inequality_converse(h * (d * p), 2 * n, w);
    lemma_mul_strict_inequality_converse(2 * n, (h + 1) * (d * p), w);
}

/// The inexact result lies below a power-of-two bound that its stand-in
/// lies below.
pub proof fn lemma_jam_below(n: int, d: int, sig: int, u: int, w: int, p: int, half: int, k: int)
    requires
        d > 0,
        u > 0,
        w > 0,
        k > 0,
        p * w == 2 * u * half,
        n * w < (sig + 1) * u * d,
        (2 * sig + 1) * u < k * p * (2 * w),
    ensures
        n < k * p * d,
{
    let kh = k * half;
    assert(k * p * (2 * w) == (4 * kh) * u) by (nonlinear_arith)
        requires
            p * w == 2 * u * half,
            kh == k * half,
    ;
    lemma_mul_strict_inequality_converse(2 * sig + 1, 4 * kh, u);
    assert(sig + 1 <= 2 * kh);
    let ud = u * d;
    assert(ud > 0) by (nonlinear_arith)
        requires
            ud == u * d,
            u > 0,
            d > 0,
    ;
    assert((sig + 1) * u * d == (sig + 1) * ud) by (nonlinear_arith)
        requires
            ud == u * d,
    ;
    assert((sig + 1) * ud <= (2 * kh) * ud) by (nonlinear_arith)
        requires
            sig + 1 <= 2 * kh,
            ud > 0,
    ;
    assert((2 * kh) * ud == (k * p * d) * w) by (nonlinear_arith)
        requires
            p * w == 2 * u * half,
            kh == k * half,
            ud == u * d,
    ;
    lemma_mul_strict_inequality_converse(n, k * p * d, w);
}

/// A number no smaller than the lower neighbour lies above a power-of-two
/// bound that the stand-in does not lie below.
pub proof fn lemma_jam_above(n: int, d: int, sig: int, u: int, w: int, p: int, half: int, k: int)
    requires
        d > 0,
        u > 0,
        w > 0,
        k > 0,
        p * w == 2 * u * half,
        sig * u * d <= n * w,
        k * p * (2 * w) <= (2 * sig + 1) * u,
    ensures
        k * p * d <= n,
{
    let kh = k * half;
    assert(k * p * (2 * w) == (4 * kh) * u) by (nonlinear_arith)
        requires
            p * w == 2 * u * half,
            kh == k * half,
    ;
    assert(4 * kh <= 2 * sig + 1) by (nonlinear_arith)
        requires
            (4 * kh) * u <= (2 * sig + 1) * u,
            u > 0,
    ;
    assert(2 * kh <= sig);
    let ud = u * d;
    assert(ud > 0) by (nonlinear_arith)
        requires
            ud == u * d,
            u > 0,
            d > 0,
    ;
    assert(sig * u * d == sig * ud) by (nonlinear_arith)
        requires
            ud == u * d,
    ;
    assert((2 * kh) * ud <= sig * ud) by (nonlinear_arith)
        requires
            2 * kh <= sig,
            ud > 0,
    ;
    assert((2 * kh) * ud == (k * p * d) * w) by (nonlinear_arith)
        requires
            p * w == 2 * u * half,
            kh == k * half,
            ud == u * d,
    ;
    assert(k * p * d <= n) by (nonlinear_arith)
        requires
            (k * p * d) * w <= n * w,
            w > 0,
    ;
}

/// What is known of the point half-way between two neighbours `sig` and
/// `sig + 1` of at least 55 bits, in the scale 2^`up` / 2^`down`.
pub struct JamFrame {
    /// The exponent of the spacing around the point.
    pub exponent: nat,
    /// The power of two by which half a spacing exceeds the scale.
    pub excess: nat,
    /// The number of whole half spacings below the point.
    pub halves: nat,
}

/// What a frame says of the point half-way between `sig` and `sig + 1` at
/// the given scale.
pub open spec fn jam_frame_holds(frame: JamFrame, sig: nat, up: nat, down: nat) -> bool {
    let stand_in = (2 * sig + 1) * pow2(up);
    let over = 2 * pow2(down);
    let spacing = pow2(frame.exponent);
    let half = pow2(frame.excess);
    &&& frame.exponent == quantum_exponent(stand_in, over)
    &&& in_binade(stand_in, over, frame.exponent)
    &&& stand_in < SIGNIFICAND_LIMIT * spacing * over
    &&& frame.excess >= 1
    &&& spacing * pow2(down) == 2 * pow2(up) * half
    &&& frame.halves * half <= sig
    &&& sig + 1 <= (frame.halves + 1) * half
    &&& in_half_cell(stand_in, over * spacing, frame.halves, false)
}

/// Between two neighbours of at least 55 bits, at least two bits are
/// rounded away: the half-way point has a frame.
pub proof fn lemma_jam_frame(sig: nat, up: nat, down: nat) -> (frame: JamFrame)
    requires
        sig >= 0x40_0000_0000_0000,
    ensures
        jam_frame_holds(frame, sig, up, down),
{
    let u = pow2(up);
    let w = pow2(down);
    let ny = (2 * sig + 1) * u;
    let dy = 2 * w;
    let e = quantum_exponent(ny, dy);
    let p = pow2(e);
    lemma_pow2_pos(up);
    lemma_pow2_pos(down);
    lemma_pow2_pos(e);
    lemma_quantum_exponent_bounds(ny, dy);
    lemma2_to64();
    let limit = SIGNIFICAND_LIMIT as int;
    if e == 0 {
        assert(limit * p * dy == limit * dy) by (nonlinear_arith)
            requires
                p == 1,
        ;
    }
    assert(ny < limit * p * dy);
    // the stand-in has at least 56 bits, so at least two are rounded away
    assert(2 * u < p * w) by (nonlinear_arith)
        requires
            ny == (2 * sig + 1) * u,
            sig >= 0x40_0000_0000_0000,
            ny < limit * p * dy,
            limit == 0x20_0000_0000_0000,
            dy == 2 * w,
            u > 0,
    ;
    lemma_pow2_adds(e, down);
    lemma_pow2_unfold(up + 1);
    if e + down < up + 1 {
        lemma_pow2_strictly_increases(e + down, up + 1);
    }
    assert(e + down >= up + 2);
    let r = (e + down - up - 1) as nat;
    let half = pow2(r);
    lemma_pow2_adds(up + 1, r);
    lemma_pow2_pos(r);
    assert(p * w == 2 * u * half) by (nonlinear_arith)
        requires
            p * w == (2 * u) * half,
    ;
    let h = sig / half;
    lemma_fundamental_div_mod(sig as int, half as int);
    assert(half * h == h * half) by (nonlinear_arith);
    assert((h + 1) * half == h * half + half) by (nonlinear_arith);
    lemma_jam_stand_in_cell(sig as int, u as int, w as int, p as int, half as int, h as int);
    assert(dy * p == 2 * w * p) by (nonlinear_arith)
        requires
            dy == 2 * w,
    ;
    JamFrame { exponent: e, excess: r, halves: h }
}

/// An inexact result known only to lie strictly between two neighbours
/// `sig` and `sig + 1` of at least 55 bits, in the scale 2^`up` / 2^`down`,
/// rounds as the point half-way between them does.
pub proof fn lemma_round_ratio_jammed(
    negative: bool,
    n: nat,
    d: nat,
    sig: nat,
    up: nat,
    down: nat,
)
    requires
        d > 0,
        sig >= 0x40_0000_0000_0000,
        sig * pow2(up) * d < n * pow2(down),
        n * pow2(down) < (sig + 1) * pow2(up) * d,
    ensures
        round_ratio(negative, n, d) == round_ratio(
            negative,
            (2 * sig + 1) * pow2(up),
            2 * pow2(down),
        ),
{
    let frame = lemma_jam_frame(sig, up, down);
    let e = frame.exponent;
    let h = frame.halves;
    let u = pow2(up) as int;
    let w = pow2(down) as int;
    let p = pow2(e) as int;
    let half = pow2(frame.excess) as int;
    let ny = (2 * sig + 1) * pow2(up);
    let dy = 2 * pow2(down);
    lemma_pow2_pos(up);
    lemma_pow2_pos(down);
    lemma_pow2_pos(e);
    lemma2_to64();
    let limit = SIGNIFICAND_LIMIT as int;
    let hidden = HIDDEN_BIT as int;
    lemma_jam_result_cell(n as int, d as int, sig as int, u, w, p, half, h as int);
    lemma_jam_below(n as int, d as int, sig as int, u, w, p, half, limit);
    if e > 0 {
        lemma_jam_above(n as int, d as int, sig as int, u, w, p, half, hidden);
    } else {
        assert(limit * p * d == limit * d) by (nonlinear_arith)
            requires
                p == 1,
        ;
    }
    assert(in_binade(n, d, e));
    assert(in_half_cell(n, (d * p) as nat, h, false));
    lemma_round_ratio_cell(negative, n, d, e, h, false);
    lemma_round_ratio_cell(negative, ny, dy, e, h, false);
}

} // verus!
