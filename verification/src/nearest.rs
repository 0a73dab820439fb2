//! That the rounding is what its name says: no double lies nearer to the
//! exact result than the rounded one, and of two that lie equally near the
//! one with the even significand is taken.

use crate::encode::lemma_pow2_increases;
use crate::root::{
    floor_root, lemma_floor_root_exists, lemma_square_order, round_root,
};
use crate::rounding::{
    lemma_quantum_exponent_bounds, nearest_even, quantum_exponent, round_ratio,
};
use crate::value::{code_units, HIDDEN_BIT, INFINITY_CODE, SIGNIFICAND_LIMIT};
use vstd::arithmetic::div_mod::lemma_fundamental_div_mod;
use vstd::arithmetic::power2::{lemma2_to64, lemma_pow2_pos, lemma_pow2_unfold, pow2};
use vstd::prelude::*;

verus! {

/// How far `units` lies from `n / d`, in `d`-ths of a unit.
pub open spec fn off_by(n: nat, d: nat, units: nat) -> nat {
    if units * d >= n {
        (units * d - n) as nat
    } else {
        (n - units * d) as nat
    }
}

/// The significand of the rounding of `n / d`: the number of spacings that
/// the rounded value holds.
pub open spec fn rounded_significand(n: nat, d: nat) -> nat {
    nearest_even(n, d * pow2(quantum_exponent(n, d)))
}

/// A double in the binade whose spacing is 2^`e` is a whole number of
/// spacings.
proof fn lemma_double_on_grid(code: nat, e: nat) -> (k: nat)
    requires
        code < INFINITY_CODE,
        e > 0,
        HIDDEN_BIT * pow2(e) <= code_units(code) < SIGNIFICAND_LIMIT * pow2(e),
    ensures
        code_units(code) == k * pow2(e),
{
    let hidden = HIDDEN_BIT as int;
    let field = code / (HIDDEN_BIT as nat);
    let fraction = (code % (HIDDEN_BIT as nat)) as int;
    let spacing = pow2(e) as int;
    lemma_pow2_pos(e);
    assert(hidden <= hidden * spacing) by (nonlinear_arith)
        requires
            spacing >= 1,
            hidden > 0,
    ;
    assert(field >= 1);
    let g = (field - 1) as nat;
    let own = pow2(g) as int;
    let m = hidden + fraction;
    lemma_pow2_pos(g);
    if g < e {
        lemma_pow2_unfold(g + 1);
        lemma_pow2_increases(g + 1, e);
        assert(m * own < hidden * (2 * own)) by (nonlinear_arith)
            requires
                m < 2 * hidden,
                own > 0,
        ;
        assert(hidden * (2 * own) <= hidden * spacing) by (nonlinear_arith)
            requires
                2 * own <= spacing,
                hidden > 0,
        ;
    }
    if g > e {
        lemma_pow2_unfold(e + 1);
        lemma_pow2_increases(e + 1, g);
        assert(hidden * own <= m * own) by (nonlinear_arith)
            requires
                hidden <= m,
                own > 0,
        ;
        assert((2 * hidden) * spacing <= hidden * own) by (nonlinear_arith)
            requires
                2 * spacing <= own,
                hidden > 0,
        ;
    }
    m as nat
}

/// What the division that the rounding makes says of the exact result:
/// it lies between two neighbouring multiples of the spacing, and the
/// rounded value is the nearer of the two.
pub proof fn lemma_rounding_frame(n: nat, d: nat)
    requires
        d > 0,
    ensures
        ({
            let e = quantum_exponent(n, d);
            let big = d * pow2(e);
            let q = n / big;
            let rest = n % big;
            let m = rounded_significand(n, d);
            &&& big > 0
            &&& n == q * big + rest
            &&& rest < big
            &&& m == q || m == q + 1
            &&& m == q ==> 2 * rest <= big
            &&& m == q + 1 ==> 2 * rest >= big
            &&& 2 * rest == big ==> m % 2 == 0
            &&& e > 0 ==> HIDDEN_BIT <= q
            &&& q < SIGNIFICAND_LIMIT
        }),
{
    let e = quantum_exponent(n, d);
    let spacing = pow2(e) as int;
    let big = (d * pow2(e)) as int;
    let q = (n / (big as nat)) as int;
    lemma_pow2_pos(e);
    assert(big > 0) by (nonlinear_arith)
        requires
            big == d * spacing,
            d > 0,
            spacing > 0,
    ;
    lemma_fundamental_div_mod(n as int, big);
    assert(big * q == q * big) by (nonlinear_arith);
    lemma_quantum_exponent_bounds(n, d);
    if e == 0 {
        let limit = SIGNIFICAND_LIMIT as int;
        lemma2_to64();
        assert(big == d) by (nonlinear_arith)
            requires
                big == d * spacing,
                spacing == 1,
        ;
        if q >= limit {
            assert(limit * big <= q * big) by (nonlinear_arith)
                requires
                    limit <= q,
                    big > 0,
            ;
        }
    }
    if e > 0 {
        let hidden = HIDDEN_BIT as int;
        let limit = SIGNIFICAND_LIMIT as int;
        assert(hidden * spacing * d == hidden * big) by (nonlinear_arith)
            requires
                big == d * spacing,
        ;
        assert(limit * spacing * d == limit * big) by (nonlinear_arith)
            requires
                big == d * spacing,
        ;
        if q < hidden {
            assert((q + 1) * big <= hidden * big) by (nonlinear_arith)
                requires
                    q + 1 <= hidden,
                    big > 0,
            ;
            assert((q + 1) * big == q * big + big) by (nonlinear_arith);
        }
        if q >= limit {
            assert(limit * big <= q * big) by (nonlinear_arith)
                requires
                    limit <= q,
                    big > 0,
            ;
        }
    }
}

/// No double lies nearer to `n / d` than its rounding does, and a double
/// that lies as near is passed over only for an even significand.
pub proof fn lemma_round_ratio_nearest(negative: bool, n: nat, d: nat, code: nat)
    requires
        d > 0,
        code < INFINITY_CODE,
        round_ratio(negative, n, d).is_finite(),
    ensures
        off_by(n, d, round_ratio(negative, n, d).magnitude()) <= off_by(n, d, code_units(code)),
        off_by(n, d, round_ratio(negative, n, d).magnitude()) == off_by(n, d, code_units(code))
            && code_units(code) != round_ratio(negative, n, d).magnitude()
            ==> rounded_significand(n, d) % 2 == 0,
{
    let e = quantum_exponent(n, d);
    let spacing = pow2(e) as int;
    let big = (d * pow2(e)) as int;
    let q = (n / (big as nat)) as int;
    let rest = (n % (big as nat)) as int;
    let m = rounded_significand(n, d) as int;
    let r = round_ratio(negative, n, d).magnitude() as int;
    let u = code_units(code) as int;
    let dd = d as int;
    let hidden = HIDDEN_BIT as int;
    let limit = SIGNIFICAND_LIMIT as int;
    lemma_rounding_frame(n, d);
    lemma_quantum_exponent_bounds(n, d);
    lemma_pow2_pos(e);
    lemma2_to64();
    assert(r == m * spacing);
    assert(r * dd == m * big) by (nonlinear_arith)
        requires
            r == m * spacing,
            big == dd * spacing,
    ;
    assert((q + 1) * big == q * big + big) by (nonlinear_arith);
    // the double is a whole number of spacings, or lies outside the binade
    if u * dd <= n {
        // at or below the exact result: at or below the lower neighbour
        assert(u * dd <= q * big) by {
            if e == 0 {
                assert(big == dd) by (nonlinear_arith)
                    requires
                        big == dd * spacing,
                        spacing == 1,
                ;
                if u > q {
                    assert((q + 1) * dd <= u * dd) by (nonlinear_arith)
                        requires
                            q + 1 <= u,
                            dd > 0,
                    ;
                }
                assert(u <= q);
                assert(u * dd <= q * dd) by (nonlinear_arith)
                    requires
                        u <= q,
                        dd > 0,
                ;
                assert(u * dd <= q * big);
            } else if u < hidden * spacing {
                assert(u * dd <= (hidden * spacing) * dd) by (nonlinear_arith)
                    requires
                        u <= hidden * spacing,
                        dd > 0,
                ;
                assert((hidden * spacing) * dd == hidden * big) by (nonlinear_arith)
                    requires
                        big == dd * spacing,
                ;
                assert(hidden * big <= q * big) by (nonlinear_arith)
                    requires
                        hidden <= q,
                        big > 0,
                ;
                assert(u * dd <= q * big);
            } else {
                if u >= limit * spacing {
                    assert((limit * spacing) * dd <= u * dd) by (nonlinear_arith)
                        requires
                            limit * spacing <= u,
                            dd > 0,
                    ;
                    assert((limit * spacing) * dd == limit * spacing * dd);
                }
                let k = lemma_double_on_grid(code, e) as int;
                assert(u * dd == k * big) by (nonlinear_arith)
                    requires
                        u == k * spacing,
                        big == dd * spacing,
                ;
                if k > q {
                    assert((q + 1) * big <= k * big) by (nonlinear_arith)
                        requires
                            q + 1 <= k,
                            big > 0,
                    ;
                }
                assert(k <= q);
                assert(k * big <= q * big) by (nonlinear_arith)
                    requires
                        k <= q,
                        big > 0,
                ;
                assert(u * dd <= q * big);
            }
        }
    } else {
        // above the exact result: at or above the upper neighbour
        assert(u * dd >= (q + 1) * big) by {
            if e == 0 {
                assert(big == dd) by (nonlinear_arith)
                    requires
                        big == dd * spacing,
                        spacing == 1,
                ;
                if u <= q {
                    assert(u * dd <= q * dd) by (nonlinear_arith)
                        requires
                            u <= q,
                            dd > 0,
                    ;
                }
                assert(u >= q + 1);
                assert(u * dd >= (q + 1) * dd) by (nonlinear_arith)
                    requires
                        u >= q + 1,
                        dd > 0,
                ;
                assert(u * dd >= (q + 1) * big);
            } else if u >= limit * spacing {
                assert((limit * spacing) * dd <= u * dd) by (nonlinear_arith)
                    requires
                        limit * spacing <= u,
                        dd > 0,
                ;
                assert((limit * spacing) * dd == limit * big) by (nonlinear_arith)
                    requires
                        big == dd * spacing,
                ;
                assert((q + 1) * big <= limit * big) by (nonlinear_arith)
                    requires
                        q + 1 <= limit,
                        big > 0,
                ;
                assert(u * dd >= (q + 1) * big);
            } else {
                if u < hidden * spacing {
                    assert(u * dd <= (hidden * spacing) * dd) by (nonlinear_arith)
                        requires
                            u <= hidden * spacing,
                            dd > 0,
                    ;
                    assert((hidden * spacing) * dd == hidden * spacing * dd);
                }
                let k = lemma_double_on_grid(code, e) as int;
                assert(u * dd == k * big) by (nonlinear_arith)
                    requires
                        u == k * spacing,
                        big == dd * spacing,
                ;
                if k <= q {
                    assert(k * big <= q * big) by (nonlinear_arith)
                        requires
                            k <= q,
                            big > 0,
                    ;
                }
                assert(k >= q + 1);
                assert(k * big >= (q + 1) * big) by (nonlinear_arith)
                    requires
                        k >= q + 1,
                        big > 0,
                ;
                assert(u * dd >= (q + 1) * big);
            }
        }
    }
    if u != r && u * dd == r * dd {
        assert(u == r) by (nonlinear_arith)
            requires
                u * dd == r * dd,
                dd > 0,
        ;
    }
}

/// Whether `n / d` is at least half a spacing above the largest finite
/// double, which is 2^53 - 1 spacings of 2^2045 units.
pub open spec fn beyond_range(n: nat, d: nat) -> bool {
    2 * n >= (2 * SIGNIFICAND_LIMIT - 1) * pow2(2045) * d
}

/// The rounding is infinite exactly from half a spacing above the largest
/// finite double on.
pub proof fn lemma_round_ratio_overflow(negative: bool, n: nat, d: nat)
    requires
        d > 0,
    ensures
        round_ratio(negative, n, d).is_finite() <==> !beyond_range(n, d),
        !round_ratio(negative, n, d).is_nan(),
{
    let e = quantum_exponent(n, d);
    let spacing = pow2(e) as int;
    let top = pow2(2045) as int;
    let big = (d * pow2(e)) as int;
    let q = (n / (big as nat)) as int;
    let rest = (n % (big as nat)) as int;
    let m = rounded_significand(n, d) as int;
    let dd = d as int;
    let hidden = HIDDEN_BIT as int;
    let limit = SIGNIFICAND_LIMIT as int;
    let edge = (2 * limit - 1) * top * dd;
    lemma_rounding_frame(n, d);
    lemma_quantum_exponent_bounds(n, d);
    lemma_pow2_pos(e);
    lemma_pow2_pos(2045);
    lemma2_to64();
    assert(edge == (2 * limit - 1) * (top * dd)) by (nonlinear_arith)
        requires
            edge == (2 * limit - 1) * top * dd,
    ;
    assert(top * dd > 0) by (nonlinear_arith)
        requires
            top > 0,
            dd > 0,
    ;
    let finite = round_ratio(negative, n, d).is_finite();
    let beyond = beyond_range(n, d);
    assert(finite == (e * hidden + m < INFINITY_CODE));
    assert(beyond == (2 * n >= edge));
    if e > 2045 {
        lemma_pow2_increases(2046, e);
        lemma_pow2_unfold(2046);
        assert(hidden * spacing * dd >= (2 * hidden) * (top * dd)) by (nonlinear_arith)
            requires
                spacing >= 2 * top,
                dd > 0,
                hidden > 0,
        ;
        assert(e * hidden + m >= 2046 * hidden + hidden);
        assert(!finite);
        assert(2 * ((2 * hidden) * (top * dd)) >= edge) by (nonlinear_arith)
            requires
                edge == (2 * limit - 1) * (top * dd),
                2 * hidden == limit,
                top * dd > 0,
        ;
        assert(beyond);
    } else if e == 2045 {
        assert(big == top * dd) by (nonlinear_arith)
            requires
                big == dd * spacing,
                spacing == top,
        ;
        assert((2 * limit - 1) * big == 2 * (q * big) + (2 * limit - 1 - 2 * q) * big)
            by (nonlinear_arith);
        if q < limit - 1 {
            assert((2 * limit - 1 - 2 * q) * big >= 3 * big) by (nonlinear_arith)
                requires
                    2 * limit - 1 - 2 * q >= 3,
                    big > 0,
            ;
        } else {
            assert((2 * limit - 1 - 2 * q) * big == big) by (nonlinear_arith)
                requires
                    2 * limit - 1 - 2 * q == 1,
            ;
            assert(beyond == (2 * rest >= big));
            assert(q % 2 == 1);
            assert(finite == (m == q));
        }
        assert(finite == !beyond);
    } else {
        lemma_pow2_increases(e, 2044);
        lemma_pow2_unfold(2045);
        let under = pow2(2044) as int;
        if e == 0 {
            assert(limit * dd <= limit * (under * dd)) by (nonlinear_arith)
                requires
                    under >= 1,
                    dd > 0,
                    limit > 0,
            ;
        } else {
            assert(limit * spacing * dd <= limit * (under * dd)) by (nonlinear_arith)
                requires
                    spacing <= under,
                    dd > 0,
                    limit > 0,
            ;
        }
        assert(n < limit * (under * dd));
        assert((2 * limit - 1) * (top * dd) >= 2 * (limit * (under * dd))) by (nonlinear_arith)
            requires
                top == 2 * under,
                under > 0,
                dd > 0,
                limit >= 1,
        ;
        assert(e * hidden + m <= 2044 * hidden + limit);
        assert(finite);
        assert(!beyond);
    }
}

/// The significand of the rounding of the square root of `n`.
pub open spec fn rounded_root_significand(n: nat) -> nat {
    let spacing = pow2(quantum_exponent(floor_root(n), 1));
    let below = floor_root(n) / spacing;
    let middle = (2 * below + 1) * spacing;
    if middle * middle < 4 * n || (middle * middle == 4 * n && below % 2 == 1) {
        below + 1
    } else {
        below
    }
}

/// No double lies nearer to the square root of `n` than its rounding does:
/// the point half-way to a smaller double is not above the root, and the
/// point half-way to a larger one is not below it.  A double that lies as
/// near is passed over only for an even significand.
pub proof fn lemma_round_root_nearest(n: nat, code: nat)
    requires
        code < INFINITY_CODE,
        round_root(n).is_finite(),
    ensures
        ({
            let r = round_root(n).magnitude();
            let u = code_units(code);
            &&& u < r ==> (r + u) * (r + u) <= 4 * n
            &&& u > r ==> (r + u) * (r + u) >= 4 * n
            &&& u != r && (r + u) * (r + u) == 4 * n ==> rounded_root_significand(n) % 2 == 0
        }),
{
    let s = floor_root(n) as int;
    let e = quantum_exponent(floor_root(n), 1);
    let spacing = pow2(e) as int;
    let below = (floor_root(n) / pow2(e)) as int;
    let middle = (2 * below + 1) * spacing;
    let m = rounded_root_significand(n) as int;
    let r = round_root(n).magnitude() as int;
    let u = code_units(code) as int;
    let nn = n as int;
    let hidden = HIDDEN_BIT as int;
    let limit = SIGNIFICAND_LIMIT as int;
    lemma_floor_root_exists(n);
    lemma_quantum_exponent_bounds(floor_root(n), 1);
    lemma_pow2_pos(e);
    lemma2_to64();
    lemma_fundamental_div_mod(s, spacing);
    let lo = below * spacing;
    let hi = (below + 1) * spacing;
    assert(spacing * below == lo) by (nonlinear_arith)
        requires
            lo == below * spacing,
    ;
    assert(hi == lo + spacing) by (nonlinear_arith)
        requires
            lo == below * spacing,
            hi == (below + 1) * spacing,
    ;
    assert(middle == lo + hi) by (nonlinear_arith)
        requires
            lo == below * spacing,
            hi == (below + 1) * spacing,
            middle == (2 * below + 1) * spacing,
    ;
    assert(lo <= s < hi);
    assert(r == m * spacing);
    assert(lo >= 0) by (nonlinear_arith)
        requires
            lo == below * spacing,
            below >= 0,
            spacing > 0,
    ;
    // no double lies strictly between the two neighbours
    if lo < u < hi {
        if e == 0 {
            assert(false);
        } else {
            assert(hidden * spacing * 1 == hidden * spacing) by (nonlinear_arith);
            assert(limit * spacing * 1 == limit * spacing) by (nonlinear_arith);
            if below < hidden {
                assert((below + 1) * spacing <= hidden * spacing) by (nonlinear_arith)
                    requires
                        below + 1 <= hidden,
                        spacing > 0,
                ;
            }
            if below >= limit {
                assert(limit * spacing <= below * spacing) by (nonlinear_arith)
                    requires
                        limit <= below,
                        spacing > 0,
                ;
            }
            assert(hidden * spacing <= below * spacing) by (nonlinear_arith)
                requires
                    hidden <= below,
                    spacing > 0,
            ;
            assert((below + 1) * spacing <= limit * spacing) by (nonlinear_arith)
                requires
                    below + 1 <= limit,
                    spacing > 0,
            ;
            let k = lemma_double_on_grid(code, e) as int;
            if k <= below {
                assert(k * spacing <= below * spacing) by (nonlinear_arith)
                    requires
                        k <= below,
                        spacing > 0,
                ;
            } else {
                assert((below + 1) * spacing <= k * spacing) by (nonlinear_arith)
                    requires
                        below + 1 <= k,
                        spacing > 0,
                ;
            }
            assert(false);
        }
    }
    assert((2 * s) * (2 * s) == 4 * (s * s)) by (nonlinear_arith);
    assert((2 * (s + 1)) * (2 * (s + 1)) == 4 * ((s + 1) * (s + 1))) by (nonlinear_arith);
    if u >= 0 {
        lemma_square_order(r + u, 2 * s);
        lemma_square_order(2 * (s + 1), r + u);
        lemma_square_order(r + u, middle);
        lemma_square_order(middle, r + u);
    }
}

} // verus!
