//! How far a rounded result lies from the exact one: at most half a
//! spacing, which is at most one part in 2^53 of a result in the normal
//! range.

use crate::encode::lemma_pow2_increases;
use crate::nearest::{
    beyond_range, lemma_round_ratio_overflow, lemma_rounding_frame, off_by, rounded_significand,
};
use crate::root::{floor_root, lemma_floor_root_exists, lemma_square_order, round_root};
use crate::rounding::{
    lemma_code_units_assembled, lemma_quantum_exponent_bounds, quantum_exponent, round_ratio,
};
use crate::value::{decode, Value, HIDDEN_BIT, INFINITY_CODE, SIGNIFICAND_LIMIT, SIGN_BIT};
use vstd::arithmetic::div_mod::lemma_fundamental_div_mod;
use vstd::arithmetic::power2::{lemma2_to64, lemma_pow2_pos, lemma_pow2_unfold, pow2};
use vstd::prelude::*;

verus! {

/// A finite value whose magnitude is a significand within 53 bits at a
/// spacing within range is a double.
pub proof fn lemma_assembled_is_double(negative: bool, e: nat, m: nat)
    requires
        if e == 0 {
            m <= SIGNIFICAND_LIMIT
        } else {
            HIDDEN_BIT <= m <= SIGNIFICAND_LIMIT
        },
        e * HIDDEN_BIT + m < INFINITY_CODE,
    ensures
        (Value::Finite { negative, units: m * pow2(e) }).is_double(),
{
    let code = (e * HIDDEN_BIT + m) as u64;
    let bits = if negative {
        (code + SIGN_BIT) as u64
    } else {
        code
    };
    lemma_code_units_assembled(e, m);
    assert(decode(bits) == (Value::Finite { negative, units: m * pow2(e) }));
}

/// The rounding of a ratio within range is a double of the given sign, at
/// most half a spacing off the ratio.
pub proof fn lemma_round_ratio_error(negative: bool, n: nat, d: nat)
    requires
        d > 0,
        !beyond_range(n, d),
    ensures
        round_ratio(negative, n, d) == (Value::Finite {
            negative,
            units: round_ratio(negative, n, d).magnitude(),
        }),
        round_ratio(negative, n, d).is_double(),
        2 * off_by(n, d, round_ratio(negative, n, d).magnitude()) <= d * pow2(
            quantum_exponent(n, d),
        ),
{
    let e = quantum_exponent(n, d);
    let spacing = pow2(e) as int;
    let big = (d * pow2(e)) as int;
    let q = (n / (big as nat)) as int;
    let rest = (n % (big as nat)) as int;
    let m = rounded_significand(n, d) as int;
    let r = round_ratio(negative, n, d).magnitude() as int;
    let dd = d as int;
    lemma_round_ratio_overflow(negative, n, d);
    lemma_rounding_frame(n, d);
    assert(r == m * spacing);
    assert(r * dd == m * big) by (nonlinear_arith)
        requires
            r == m * spacing,
            big == dd * spacing,
    ;
    assert((q + 1) * big == q * big + big) by (nonlinear_arith);
    lemma_assembled_is_double(negative, e, m as nat);
}

/// The rounding of a ratio in the normal range, or of a whole number of
/// units, is off by at most one part in 2^53.
pub proof fn lemma_round_ratio_relative(negative: bool, n: nat, d: nat)
    requires
        d > 0,
        !beyond_range(n, d),
        d == 1 || n >= HIDDEN_BIT * d,
    ensures
        SIGNIFICAND_LIMIT * off_by(n, d, round_ratio(negative, n, d).magnitude()) <= n,
{
    let e = quantum_exponent(n, d);
    let spacing = pow2(e) as int;
    let big = (d * pow2(e)) as int;
    let off = off_by(n, d, round_ratio(negative, n, d).magnitude()) as int;
    let dd = d as int;
    let hidden = HIDDEN_BIT as int;
    lemma_round_ratio_error(negative, n, d);
    lemma_quantum_exponent_bounds(n, d);
    lemma_pow2_pos(e);
    lemma2_to64();
    if e == 0 {
        assert(big == dd) by (nonlinear_arith)
            requires
                big == dd * spacing,
                spacing == 1,
        ;
    } else {
        assert(hidden * spacing * dd == hidden * big) by (nonlinear_arith)
            requires
                big == dd * spacing,
        ;
    }
}

/// The rounding of a ratio below 2^(53 + `k`) units is finite and off by
/// at most half of 2^`k` units.
pub proof fn lemma_round_ratio_below(negative: bool, n: nat, d: nat, k: nat)
    requires
        d > 0,
        k <= 2044,
        n < SIGNIFICAND_LIMIT * pow2(k) * d,
    ensures
        !beyond_range(n, d),
        quantum_exponent(n, d) <= k,
        2 * off_by(n, d, round_ratio(negative, n, d).magnitude()) <= d * pow2(k),
{
    let e = quantum_exponent(n, d);
    let spacing = pow2(e) as int;
    let wide = pow2(k) as int;
    let top = pow2(2045) as int;
    let dd = d as int;
    let hidden = HIDDEN_BIT as int;
    let limit = SIGNIFICAND_LIMIT as int;
    lemma_quantum_exponent_bounds(n, d);
    lemma_pow2_pos(e);
    lemma_pow2_pos(k);
    // the ratio is within range
    lemma_pow2_increases(k + 1, 2045);
    lemma_pow2_unfold(k + 1);
    assert(limit * wide * dd == limit * (wide * dd)) by (nonlinear_arith);
    assert((2 * limit - 1) * top * dd == (2 * limit - 1) * (top * dd)) by (nonlinear_arith);
    assert(wide * dd > 0) by (nonlinear_arith)
        requires
            wide > 0,
            dd > 0,
    ;
    assert(2 * (wide * dd) <= top * dd) by (nonlinear_arith)
        requires
            2 * wide <= top,
            dd > 0,
    ;
    assert(2 * (limit * (wide * dd)) <= (2 * limit - 1) * (top * dd)) by (nonlinear_arith)
        requires
            2 * (wide * dd) <= top * dd,
            wide * dd > 0,
            limit >= 1,
    ;
    lemma_round_ratio_error(negative, n, d);
    // and its spacing is at most 2^k
    if e > k {
        lemma_pow2_increases(k + 1, e);
        assert(hidden * spacing * dd >= hidden * (2 * wide) * dd) by (nonlinear_arith)
            requires
                spacing >= 2 * wide,
                dd > 0,
                hidden > 0,
        ;
        assert(hidden * (2 * wide) * dd == limit * (wide * dd)) by (nonlinear_arith)
            requires
                limit == 2 * hidden,
        ;
        assert(false);
    }
    lemma_pow2_increases(e, k);
    assert(dd * spacing <= dd * wide) by (nonlinear_arith)
        requires
            spacing <= wide,
            dd > 0,
    ;
}

/// A whole number of units that is a multiple of 2^`k` and below
/// 2^(53 + `k`) is a double: its rounding is itself.
pub proof fn lemma_round_on_grid(negative: bool, n: nat, k: nat)
    requires
        k <= 2044,
        n % pow2(k) == 0,
        n < SIGNIFICAND_LIMIT * pow2(k),
    ensures
        round_ratio(negative, n, 1) == (Value::Finite { negative, units: n }),
        round_ratio(negative, n, 1).is_double(),
{
    let e = quantum_exponent(n, 1);
    let spacing = pow2(e) as int;
    let wide = pow2(k) as int;
    let m = rounded_significand(n, 1) as int;
    let r = round_ratio(negative, n, 1).magnitude() as int;
    lemma_pow2_pos(e);
    lemma_pow2_pos(k);
    assert(SIGNIFICAND_LIMIT * pow2(k) * 1 == SIGNIFICAND_LIMIT * pow2(k));
    lemma_round_ratio_below(negative, n, 1, k);
    lemma_round_ratio_error(negative, n, 1);
    assert(r == m * spacing);
    // the number is a whole number of spacings, as its rounding is
    let gap = (k - e) as nat;
    let step = pow2(gap) as int;
    vstd::arithmetic::power2::lemma_pow2_adds(gap, e);
    lemma_fundamental_div_mod(n as int, wide);
    let j = (n as int) / wide;
    assert(n == (j * step) * spacing) by (nonlinear_arith)
        requires
            n == wide * j,
            wide == step * spacing,
    ;
    let whole = j * step;
    let off = off_by(n, 1, r as nat) as int;
    assert((r as nat) * 1nat == r);
    assert(1 * spacing == spacing);
    if m > whole {
        assert((m - whole) * spacing >= spacing) by (nonlinear_arith)
            requires
                m - whole >= 1,
                spacing > 0,
        ;
        assert(m * spacing - whole * spacing == (m - whole) * spacing) by (nonlinear_arith);
    }
    if m < whole {
        assert((whole - m) * spacing >= spacing) by (nonlinear_arith)
            requires
                whole - m >= 1,
                spacing > 0,
        ;
        assert(whole * spacing - m * spacing == (whole - m) * spacing) by (nonlinear_arith);
    }
}

/// The rounding of the root of a number other than zero, within range, is
/// a positive double at most half a spacing off the root; and the spacing
/// is at most one part in 2^52 of a rounded root in the normal range.
pub proof fn lemma_round_root_error(n: nat)
    requires
        n > 0,
        floor_root(n) < SIGNIFICAND_LIMIT * pow2(2044),
    ensures
        ({
            let r = round_root(n).magnitude();
            let p = pow2(quantum_exponent(floor_root(n), 1));
            &&& round_root(n) == (Value::Finite { negative: false, units: r })
            &&& round_root(n).is_double()
            &&& 2 * r >= p
            &&& (2 * r - p) * (2 * r - p) <= 4 * n
            &&& 4 * n <= (2 * r + p) * (2 * r + p)
            &&& floor_root(n) >= HIDDEN_BIT ==> HIDDEN_BIT * p <= r
        }),
{
    let s = floor_root(n) as int;
    let e = quantum_exponent(floor_root(n), 1);
    let spacing = pow2(e) as int;
    let below = (floor_root(n) / pow2(e)) as int;
    let middle = (2 * below + 1) * spacing;
    let up = middle * middle < 4 * n || (middle * middle == 4 * n && below % 2 == 1);
    let m = if up {
        below + 1
    } else {
        below
    };
    let hidden = HIDDEN_BIT as int;
    let limit = SIGNIFICAND_LIMIT as int;
    lemma_floor_root_exists(n);
    lemma_quantum_exponent_bounds(floor_root(n), 1);
    lemma_pow2_pos(e);
    lemma2_to64();
    lemma_fundamental_div_mod(s, spacing);
    let lo = below * spacing;
    let hi = (below + 1) * spacing;
    assert(spacing * below == lo) by (nonlinear_arith)
        requires
            lo == below * spacing,
    ;
    assert(hi == lo + spacing) by (nonlinear_arith)
        requires
            lo == below * spacing,
            hi == (below + 1) * spacing,
    ;
    assert(middle == lo + hi) by (nonlinear_arith)
        requires
            lo == below * spacing,
            hi == (below + 1) * spacing,
            middle == (2 * below + 1) * spacing,
    ;
    assert(lo <= s < hi);
    // the root is at least one, so at least one spacing lies below it
    if s == 0 {
        assert((s + 1) * (s + 1) == 1) by (nonlinear_arith)
            requires
                s == 0,
        ;
    }
    assert(s >= 1);
    // the binade of the floor bounds the number of spacings
    if e > 0 {
        assert(hidden * spacing * 1 == hidden * spacing) by (nonlinear_arith);
        assert(limit * spacing * 1 == limit * spacing) by (nonlinear_arith);
        if below < hidden {
            assert((below + 1) * spacing <= hidden * spacing) by (nonlinear_arith)
                requires
                    below + 1 <= hidden,
                    spacing > 0,
            ;
        }
        if below >= limit {
            assert(limit * spacing <= below * spacing) by (nonlinear_arith)
                requires
                    limit <= below,
                    spacing > 0,
            ;
        }
        assert(hidden * spacing <= below * spacing) by (nonlinear_arith)
            requires
                hidden <= below,
                spacing > 0,
        ;
    } else {
        assert(lo == below) by (nonlinear_arith)
            requires
                lo == below * spacing,
                spacing == 1,
        ;
    }
    assert(below >= 1);
    assert(below < limit);
    assert(lo >= spacing) by (nonlinear_arith)
        requires
            lo == below * spacing,
            below >= 1,
            spacing > 0,
    ;
    // and the exponent is within range
    if e > 2044 {
        lemma_pow2_increases(2045, e);
        lemma_pow2_unfold(2045);
        let under = pow2(2044) as int;
        assert(hidden * spacing >= limit * under) by (nonlinear_arith)
            requires
                spacing >= 2 * under,
                limit == 2 * hidden,
                hidden > 0,
        ;
        assert(false);
    }
    assert(e * hidden + m < INFINITY_CODE);
    let r = m * spacing;
    assert(round_root(n) == (Value::Finite { negative: false, units: r as nat }));
    lemma_assembled_is_double(false, e, m as nat);
    assert((2 * s) * (2 * s) == 4 * (s * s)) by (nonlinear_arith);
    assert((2 * (s + 1)) * (2 * (s + 1)) == 4 * ((s + 1) * (s + 1))) by (nonlinear_arith);
    if up {
        assert(r == hi);
        assert(2 * r - spacing == middle);
        lemma_square_order(2 * (s + 1), 2 * r + spacing);
    } else {
        assert(r == lo);
        assert(2 * r + spacing == middle);
        lemma_square_order(2 * r - spacing, 2 * s);
    }
}

} // verus!
