//! The length of a normalised vector: within four machine epsilons of
//! one, wherever no square leaves the normal range.

use crate::encode::lemma_pow2_increases;
use crate::error::{
    lemma_round_ratio_below, lemma_round_ratio_error, lemma_round_ratio_relative,
    lemma_round_root_error,
};
use crate::laws::lemma_double_rounds_to_itself;
use crate::math::Vector;
use crate::nearest::{lemma_round_root_nearest, off_by};
use crate::quad::Quad;
use crate::quotient::lemma_round_ratio_of_zero;
use crate::root::{floor_root, lemma_floor_root_between, lemma_square_order, round_root};
use crate::sum::lemma_plus_is_finite_sum;
use crate::tetrad::Tetrad;
use crate::value::{code_units, decode, Value, HIDDEN_BIT, ONE, SIGNIFICAND_LIMIT};
use vstd::arithmetic::power2::{
    lemma2_to64, lemma2_to64_rest, lemma_pow2_adds, lemma_pow2_pos,
    lemma_pow2_strictly_increases, lemma_pow2_unfold, pow2,
};
use vstd::prelude::*;

verus! {

/// A finite value that is not negative, of the given magnitude.
pub open spec fn positive(units: nat) -> Value {
    Value::Finite { negative: false, units }
}

/// Whether a coordinate is zero, or at least 2^-500 and at most 2^500 in
/// magnitude: then neither its square nor what is made of it leaves the
/// normal range.
pub open spec fn moderate(c: Value) -> bool {
    c.is_finite() && (c.magnitude() == 0 || pow2(574) <= c.magnitude() <= pow2(1574))
}

/// Whether a value lies within eight parts in 2^53, which is four times the
/// machine epsilon, of one.
pub open spec fn about_one(v: Value) -> bool {
    &&& v == positive(v.magnitude())
    &&& pow2(1074) - 8 * pow2(1021) <= v.magnitude() <= pow2(1074) + 8 * pow2(1021)
}

/// 2^53 times `x`.
pub open spec fn level(x: int) -> int {
    0x20_0000_0000_0000 * x
}

/// 2^53 + 1 times `x`.
pub open spec fn raised(x: int) -> int {
    0x20_0000_0000_0001 * x
}

/// 2^53 - 1 times `x`.
pub open spec fn lowered(x: int) -> int {
    0x1F_FFFF_FFFF_FFFF * x
}

/// Whether `x` is off `y` by at most one part in 2^53 of `y`.
pub open spec fn within_a_part(x: int, y: int) -> bool {
    lowered(y) <= level(x) <= raised(y)
}

/// What a rounding error of one part in 2^53 says of the rounded value.
pub proof fn lemma_within_a_part(n: nat, d: nat, r: nat)
    requires
        SIGNIFICAND_LIMIT * off_by(n, d, r) <= n,
    ensures
        within_a_part((r * d) as int, n as int),
{
    let off = off_by(n, d, r) as int;
    let rd = (r * d) as int;
    assert(off == if rd >= n {
        rd - n
    } else {
        n - rd
    });
    assert(0x20_0000_0000_0000 * off <= n);
}

/// A bound of one part in 2^53 holds at every scale.
pub proof fn lemma_within_a_part_scaled(x: int, y: int, scale: int)
    requires
        within_a_part(x, y),
        scale >= 0,
    ensures
        within_a_part(x * scale, y * scale),
{
    assert(0x20_0000_0000_0000 * (x * scale) <= 0x20_0000_0000_0001 * (y * scale))
        by (nonlinear_arith)
        requires
            0x20_0000_0000_0000 * x <= 0x20_0000_0000_0001 * y,
            scale >= 0,
    ;
    assert(0x1F_FFFF_FFFF_FFFF * (y * scale) <= 0x20_0000_0000_0000 * (x * scale))
        by (nonlinear_arith)
        requires
            0x1F_FFFF_FFFF_FFFF * y <= 0x20_0000_0000_0000 * x,
            scale >= 0,
    ;
}

/// Squaring a bound of one part in 2^53 gives one of two parts.
pub proof fn lemma_within_a_part_squared(x: int, y: int)
    requires
        within_a_part(x, y),
        x >= 0,
        y >= 0,
    ensures
        lowered(lowered(y * y)) <= level(level(x * x)) <= raised(raised(y * y)),
{
    lemma_square_order(level(x), raised(y));
    lemma_square_order(lowered(y), level(x));
    assert(level(x) * level(x) == level(level(x * x))) by (nonlinear_arith)
        requires
            level(x) == 0x20_0000_0000_0000 * x,
            level(level(x * x)) == 0x20_0000_0000_0000 * (0x20_0000_0000_0000 * (x * x)),
    ;
    assert(raised(y) * raised(y) == raised(raised(y * y))) by (nonlinear_arith)
        requires
            raised(y) == 0x20_0000_0000_0001 * y,
            raised(raised(y * y)) == 0x20_0000_0000_0001 * (0x20_0000_0000_0001 * (y * y)),
    ;
    assert(lowered(y) * lowered(y) == lowered(lowered(y * y))) by (nonlinear_arith)
        requires
            lowered(y) == 0x1F_FFFF_FFFF_FFFF * y,
            lowered(lowered(y * y)) == 0x1F_FFFF_FFFF_FFFF * (0x1F_FFFF_FFFF_FFFF * (y * y)),
    ;
}

/// Positive zero is a double.
pub proof fn lemma_zero_is_a_double()
    ensures
        Value::zero().is_double(),
{
    assert(decode(0u64) == Value::zero());
}

/// Adding positive zero to a double that is not negative changes nothing.
pub proof fn lemma_plus_zero(a: Value)
    requires
        a.is_double(),
        a.is_finite(),
        !a.is_negative(),
    ensures
        a.plus(Value::zero()) == a,
{
    lemma_plus_is_finite_sum(false, a.magnitude(), false, 0);
    if a.magnitude() > 0 {
        lemma_double_rounds_to_itself(a);
    }
}

/// The square of a moderate value: a double that is not negative, off the
/// exact square by at most one part in 2^53, and below 2^1001.
pub proof fn lemma_square_relative(c: Value)
    requires
        moderate(c),
    ensures
        c.times(c) == positive(c.times(c).magnitude()),
        c.times(c).is_double(),
        within_a_part(
            (c.times(c).magnitude() * pow2(1074)) as int,
            (c.magnitude() * c.magnitude()) as int,
        ),
        c.times(c).magnitude() <= pow2(2075),
        c.magnitude() > 0 ==> c.times(c).magnitude() > 0,
{
    let cu = c.magnitude() as int;
    let n = c.magnitude() * c.magnitude();
    let unit = pow2(1074);
    let su = c.times(c).magnitude() as int;
    let b = SIGNIFICAND_LIMIT as int;
    lemma_pow2_pos(1074);
    lemma2_to64();
    lemma2_to64_rest();
    if cu == 0 {
        assert(n == 0) by (nonlinear_arith)
            requires
                n == cu * cu,
                cu == 0,
        ;
        lemma_round_ratio_of_zero(false, unit);
        lemma_zero_is_a_double();
        lemma_pow2_pos(2075);
        assert(0 * unit == 0) by (nonlinear_arith);
        assert(su * unit == 0);
    } else {
        // 2^1148 <= n <= 2^3148, and the unit is 2^1074
        lemma_pow2_adds(574, 574);
        lemma_pow2_adds(1574, 1574);
        lemma_pow2_adds(52, 1074);
        lemma_pow2_adds(1126, 22);
        lemma_pow2_pos(1126);
        lemma_pow2_adds(53, 2022);
        lemma_pow2_adds(2075, 1074);
        lemma_pow2_adds(2074, 1074);
        lemma_pow2_adds(2074, 1);
        lemma_pow2_pos(2074);
        lemma_pow2_pos(574);
        lemma_pow2_unfold(3149);
        let low = pow2(574) as int;
        let high = pow2(1574) as int;
        assert(low * low <= cu * cu) by (nonlinear_arith)
            requires
                0 < low <= cu,
        ;
        assert(cu * cu <= high * high) by (nonlinear_arith)
            requires
                0 < cu <= high,
        ;
        assert(HIDDEN_BIT * unit <= n);
        assert(SIGNIFICAND_LIMIT * pow2(2022) * unit == pow2(2075) * unit);
        lemma_pow2_pos(3148);
        assert(n < SIGNIFICAND_LIMIT * pow2(2022) * unit);
        lemma_round_ratio_below(false, n, unit, 2022);
        lemma_round_ratio_error(false, n, unit);
        lemma_round_ratio_relative(false, n, unit);
        lemma_within_a_part(n, unit, su as nat);
        // the rounded square is at most twice the exact one
        assert(su * unit <= 2 * n);
        assert(su <= pow2(2075)) by {
            assert(su * unit <= pow2(2075) * unit);
            if su > pow2(2075) {
                assert(su * unit > pow2(2075) * unit) by (nonlinear_arith)
                    requires
                        su > pow2(2075),
                        unit > 0,
                ;
            }
        }
        if su == 0 {
            assert(su * unit == 0) by (nonlinear_arith)
                requires
                    su == 0,
            ;
        }
    }
}

/// The sum of two values that are not negative: a double that is not
/// negative, off the exact sum by at most one part in 2^53.
pub proof fn lemma_sum_relative(au: nat, bu: nat)
    requires
        au + bu < SIGNIFICAND_LIMIT * pow2(2044),
    ensures
        positive(au).plus(positive(bu)) == positive(positive(au).plus(positive(bu)).magnitude()),
        positive(au).plus(positive(bu)).is_double(),
        within_a_part(positive(au).plus(positive(bu)).magnitude() as int, (au + bu) as int),
        au + bu > 0 ==> positive(au).plus(positive(bu)).magnitude() > 0,
{
    let n = au + bu;
    lemma_plus_is_finite_sum(false, au, false, bu);
    if n == 0 {
        lemma_zero_is_a_double();
    } else {
        assert(SIGNIFICAND_LIMIT * pow2(2044) * 1 == SIGNIFICAND_LIMIT * pow2(2044));
        lemma_round_ratio_below(false, n, 1, 2044);
        lemma_round_ratio_error(false, n, 1);
        lemma_round_ratio_relative(false, n, 1);
        let r = positive(au).plus(positive(bu)).magnitude();
        lemma_within_a_part(n, 1, r);
        assert(r * 1 == r);
    }
}

/// The sum of two values that are not negative and add up to less than
/// two: off the exact sum by at most 2^-53.
pub proof fn lemma_sum_absolute(au: nat, bu: nat)
    requires
        au + bu < 2 * pow2(1074),
    ensures
        positive(au).plus(positive(bu)) == positive(positive(au).plus(positive(bu)).magnitude()),
        positive(au).plus(positive(bu)).is_double(),
        off_by(au + bu, 1, positive(au).plus(positive(bu)).magnitude()) <= pow2(1021),
{
    let n = au + bu;
    lemma_plus_is_finite_sum(false, au, false, bu);
    lemma2_to64_rest();
    lemma_pow2_adds(53, 1022);
    lemma_pow2_adds(1, 1074);
    lemma_pow2_adds(1, 1021);
    lemma2_to64();
    if n == 0 {
        lemma_zero_is_a_double();
    } else {
        assert(SIGNIFICAND_LIMIT * pow2(1022) * 1 == SIGNIFICAND_LIMIT * pow2(1022));
        lemma_round_ratio_below(false, n, 1, 1022);
        lemma_round_ratio_error(false, n, 1);
        assert(1 * pow2(1022) == pow2(1022));
    }
}

/// The square of a value below the root of two in magnitude: off the exact
/// square by at most 2^-53.
pub proof fn lemma_square_absolute(c: Value)
    requires
        c.is_finite(),
        c.magnitude() * c.magnitude() < 2 * (pow2(1074) * pow2(1074)),
    ensures
        c.times(c) == positive(c.times(c).magnitude()),
        c.times(c).is_double(),
        off_by(c.magnitude() * c.magnitude(), pow2(1074), c.times(c).magnitude()) <= pow2(1074)
            * pow2(1021),
{
    let n = c.magnitude() * c.magnitude();
    let unit = pow2(1074);
    lemma_pow2_pos(1074);
    lemma2_to64();
    lemma2_to64_rest();
    lemma_pow2_adds(53, 1022);
    lemma_pow2_adds(1, 1074);
    lemma_pow2_adds(1, 1021);
    assert(SIGNIFICAND_LIMIT * pow2(1022) * unit == 2 * (unit * unit)) by (nonlinear_arith)
        requires
            SIGNIFICAND_LIMIT * pow2(1022) == 2 * unit,
    ;
    lemma_round_ratio_below(false, n, unit, 1022);
    lemma_round_ratio_error(false, n, unit);
    assert(unit * pow2(1022) == 2 * (unit * pow2(1021))) by (nonlinear_arith)
        requires
            pow2(1022) == 2 * pow2(1021),
    ;
}

/// The quotient of a value by a positive one, where it lies in the normal
/// range: a double of the sign of the first, off the exact quotient by at
/// most one part in 2^53.
pub proof fn lemma_quotient_relative(negative: bool, xu: nat, mu: nat)
    requires
        mu > 0,
        HIDDEN_BIT * mu <= xu * pow2(1074),
        xu * pow2(1074) < SIGNIFICAND_LIMIT * pow2(2044) * mu,
    ensures
        ({
            let r = (Value::Finite { negative, units: xu }).over(positive(mu));
            &&& r == (Value::Finite { negative, units: r.magnitude() })
            &&& r.is_double()
            &&& within_a_part((r.magnitude() * mu) as int, (xu * pow2(1074)) as int)
        }),
{
    let n = xu * pow2(1074);
    lemma_round_ratio_below(negative, n, mu, 2044);
    lemma_round_ratio_error(negative, n, mu);
    lemma_round_ratio_relative(negative, n, mu);
    let r = (Value::Finite { negative, units: xu }).over(positive(mu));
    lemma_within_a_part(n, mu, r.magnitude());
}

/// The root of a positive value below 2^1016: a positive double whose
/// square is off the value by at most two parts in 2^53, either way.
pub proof fn lemma_root_relative(au: nat)
    requires
        0 < au < pow2(2090),
    ensures
        ({
            let r = positive(au).root();
            let ru = r.magnitude();
            &&& r == positive(ru)
            &&& r.is_double()
            &&& ru > 0
            &&& lowered(lowered((ru * ru) as int)) <= level(level((au * pow2(1074)) as int))
            &&& level(level((au * pow2(1074)) as int)) <= raised(raised((ru * ru) as int))
        }),
{
    let unit = pow2(1074);
    let n = au * unit;
    let b = SIGNIFICAND_LIMIT as int;
    let hidden = HIDDEN_BIT as int;
    lemma_pow2_pos(1074);
    lemma2_to64();
    lemma2_to64_rest();
    // the floor of the root has between 538 and 1582 bits
    lemma_pow2_adds(537, 537);
    lemma_pow2_adds(1582, 1582);
    lemma_pow2_adds(2090, 1074);
    lemma_pow2_increases(52, 537);
    lemma_pow2_increases(1582, 2097);
    lemma_pow2_adds(53, 2044);
    assert(unit <= n) by (nonlinear_arith)
        requires
            n == au * unit,
            au >= 1,
            unit > 0,
    ;
    assert(n < pow2(2090) * unit) by (nonlinear_arith)
        requires
            n == au * unit,
            au < pow2(2090),
            unit > 0,
    ;
    lemma_floor_root_between(n, pow2(537), pow2(1582));
    lemma_round_root_error(n);
    let r = round_root(n).magnitude() as int;
    let p = pow2(crate::rounding::quantum_exponent(floor_root(n), 1)) as int;
    // half a spacing is at most one part in 2^53 of the rounded root
    assert(hidden * p <= r);
    let under = (2 * r - p) * b;
    let over = (2 * r + p) * b;
    let shrunk = 2 * r * (b - 1);
    let grown = 2 * r * (b + 1);
    assert(shrunk <= under) by (nonlinear_arith)
        requires
            shrunk == 2 * r * (b - 1),
            under == (2 * r - p) * b,
            b == 2 * hidden,
            hidden * p <= r,
    ;
    assert(over <= grown) by (nonlinear_arith)
        requires
            grown == 2 * r * (b + 1),
            over == (2 * r + p) * b,
            b == 2 * hidden,
            hidden * p <= r,
    ;
    assert(shrunk >= 0) by (nonlinear_arith)
        requires
            shrunk == 2 * r * (b - 1),
            r >= 0,
            b >= 1,
    ;
    assert(over >= 0) by (nonlinear_arith)
        requires
            over == (2 * r + p) * b,
            r >= 0,
            p >= 0,
            b >= 1,
    ;
    lemma_square_order(shrunk, under);
    lemma_square_order(over, grown);
    assert(shrunk * shrunk == 4 * ((r * r) * ((b - 1) * (b - 1)))) by (nonlinear_arith)
        requires
            shrunk == 2 * r * (b - 1),
    ;
    assert(grown * grown == 4 * ((r * r) * ((b + 1) * (b + 1)))) by (nonlinear_arith)
        requires
            grown == 2 * r * (b + 1),
    ;
    assert(under * under == ((2 * r - p) * (2 * r - p)) * (b * b)) by (nonlinear_arith)
        requires
            under == (2 * r - p) * b,
    ;
    assert(over * over == ((2 * r + p) * (2 * r + p)) * (b * b)) by (nonlinear_arith)
        requires
            over == (2 * r + p) * b,
    ;
    assert(((2 * r - p) * (2 * r - p)) * (b * b) <= (4 * n) * (b * b)) by (nonlinear_arith)
        requires
            (2 * r - p) * (2 * r - p) <= 4 * n,
            b * b >= 0,
    ;
    assert((4 * n) * (b * b) <= ((2 * r + p) * (2 * r + p)) * (b * b)) by (nonlinear_arith)
        requires
            4 * n <= (2 * r + p) * (2 * r + p),
            b * b >= 0,
    ;
    assert((4 * n) * (b * b) == 4 * (n * (b * b))) by (nonlinear_arith);
    assert(lowered(lowered(r * r)) == (r * r) * ((b - 1) * (b - 1))) by (nonlinear_arith)
        requires
            lowered(lowered(r * r)) == 0x1F_FFFF_FFFF_FFFF * (0x1F_FFFF_FFFF_FFFF * (r * r)),
            b == 0x20_0000_0000_0000,
    ;
    assert(raised(raised(r * r)) == (r * r) * ((b + 1) * (b + 1))) by (nonlinear_arith)
        requires
            raised(raised(r * r)) == 0x20_0000_0000_0001 * (0x20_0000_0000_0001 * (r * r)),
            b == 0x20_0000_0000_0000,
    ;
    assert(level(level(n as int)) == n * (b * b)) by (nonlinear_arith)
        requires
            level(level(n as int)) == 0x20_0000_0000_0000 * (0x20_0000_0000_0000 * n),
            b == 0x20_0000_0000_0000,
    ;
    if r == 0 {
        assert(hidden * p > 0) by (nonlinear_arith)
            requires
                hidden > 0,
                p > 0,
        ;
    }
    lemma_pow2_pos(crate::rounding::quantum_exponent(floor_root(n), 1));
}

/// The root of a value within thirteen parts in 2^53 of one lies within
/// eight parts in 2^53 of one.
pub proof fn lemma_root_near_one(au: nat)
    requires
        pow2(1074) - 13 * pow2(1021) <= au <= pow2(1074) + 13 * pow2(1021),
    ensures
        about_one(positive(au).root()),
{
    let unit = pow2(1074) as int;
    let h = pow2(1021) as int;
    let b = SIGNIFICAND_LIMIT as int;
    let n = au * pow2(1074);
    lemma_pow2_pos(1021);
    lemma2_to64();
    lemma2_to64_rest();
    lemma_pow2_adds(53, 1021);
    lemma_pow2_adds(1, 1021);
    lemma_pow2_adds(52, 1022);
    lemma_pow2_adds(52, 1021);
    lemma_pow2_increases(1075, 2090);
    lemma_pow2_adds(1, 1074);
    assert(unit == b * h);
    lemma_root_relative(au);
    let ru = positive(au).root().magnitude() as int;
    assert(positive(au).root() == round_root(n));
    // the doubles eight parts in 2^53 above and below one
    let above = (ONE + 4) as nat;
    let below = (ONE - 8) as nat;
    assert(above / (HIDDEN_BIT as nat) == 1023 && above % (HIDDEN_BIT as nat) == 4);
    assert(below / (HIDDEN_BIT as nat) == 1022 && below % (HIDDEN_BIT as nat) == HIDDEN_BIT - 8);
    let c = unit + 8 * h;
    let f = unit - 8 * h;
    assert(code_units(above) == c) by {
        assert((HIDDEN_BIT + 4) * pow2(1022) == HIDDEN_BIT * pow2(1022) + 4 * pow2(1022))
            by (nonlinear_arith);
    }
    assert(code_units(below) == f) by {
        assert((HIDDEN_BIT + (HIDDEN_BIT - 8)) * pow2(1021) == 2 * (HIDDEN_BIT * pow2(1021)) - 8
            * pow2(1021)) by (nonlinear_arith);
    }
    lemma_round_root_nearest(n, above);
    lemma_round_root_nearest(n, below);
    let hu = h * unit;
    let hh = h * h;
    let uu = unit * unit;
    assert(hu == b * hh) by (nonlinear_arith)
        requires
            hu == h * unit,
            hh == h * h,
            unit == b * h,
    ;
    assert(hh > 0) by (nonlinear_arith)
        requires
            hh == h * h,
            h > 0,
    ;
    assert(c * c == uu + 16 * hu + 64 * hh) by (nonlinear_arith)
        requires
            c == unit + 8 * h,
            hu == h * unit,
            hh == h * h,
            uu == unit * unit,
    ;
    assert(f * f == uu - 16 * hu + 64 * hh) by (nonlinear_arith)
        requires
            f == unit - 8 * h,
            hu == h * unit,
            hh == h * h,
            uu == unit * unit,
    ;
    assert(au * unit <= uu + 13 * hu) by (nonlinear_arith)
        requires
            au <= unit + 13 * h,
            hu == h * unit,
            uu == unit * unit,
            unit > 0,
    ;
    assert(au * unit >= uu - 13 * hu) by (nonlinear_arith)
        requires
            au >= unit - 13 * h,
            hu == h * unit,
            uu == unit * unit,
            unit > 0,
    ;
    if ru > c {
        lemma_square_order(2 * c, ru + c);
        assert((2 * c) * (2 * c) == 4 * (c * c)) by (nonlinear_arith);
        assert(false);
    }
    if ru < f {
        lemma_square_order(ru + f, 2 * f);
        assert((2 * f) * (2 * f) == 4 * (f * f)) by (nonlinear_arith);
        assert(false);
    }
}

/// The sum of the squares of three magnitudes.
pub open spec fn square_sum(x: Value, y: Value, z: Value) -> nat {
    x.magnitude() * x.magnitude() + y.magnitude() * y.magnitude() + z.magnitude() * z.magnitude()
}

/// The sum of the squares of the coordinates, as it is computed: the dot
/// product of a vector with itself, off the exact sum by at most three
/// parts in 2^53 either way, at the scale of the squares.
proof fn lemma_dot_relative(x: Value, y: Value, z: Value)
    requires
        moderate(x),
        moderate(y),
        moderate(z),
        square_sum(x, y, z) > 0,
    ensures
        ({
            let d = Quad::vector(x, y, z).dot(Quad::vector(x, y, z));
            let p = (d.magnitude() * pow2(1074)) as int;
            let s = square_sum(x, y, z) as int;
            &&& d == positive(d.magnitude())
            &&& 0 < d.magnitude() < pow2(2090)
            &&& level(level(level(p))) <= raised(raised(raised(s)))
            &&& level(level(level(p))) >= lowered(lowered(lowered(s)))
        }),
{
    let unit = pow2(1074) as int;
    let x2 = (x.magnitude() * x.magnitude()) as int;
    let y2 = (y.magnitude() * y.magnitude()) as int;
    let z2 = (z.magnitude() * z.magnitude()) as int;
    let zero = Value::zero();
    lemma_pow2_pos(1074);
    lemma2_to64();
    lemma2_to64_rest();
    // the squares
    lemma_square_relative(x);
    lemma_square_relative(y);
    lemma_square_relative(z);
    lemma_round_ratio_of_zero(false, pow2(1074));
    assert(0nat * 0nat == 0);
    assert(zero.times(zero) == zero);
    let sx = x.times(x).magnitude() as int;
    let sy = y.times(y).magnitude() as int;
    let sz = z.times(z).magnitude() as int;
    let px = sx * unit;
    let py = sy * unit;
    let pz = sz * unit;
    // their sums, which stay below 2^1006
    lemma_pow2_adds(1, 2075);
    lemma_pow2_adds(2, 2075);
    lemma_pow2_adds(3, 2075);
    lemma_pow2_adds(4, 2075);
    lemma_pow2_adds(53, 2044);
    lemma_pow2_increases(2079, 2090);
    lemma_pow2_increases(2090, 2097);
    lemma_pow2_pos(2075);
    lemma_sum_relative(sx as nat, sy as nat);
    let first = x.times(x).plus(y.times(y));
    let t1 = first.magnitude() as int;
    lemma_within_a_part_scaled(t1, sx + sy, unit);
    lemma_sum_relative(t1 as nat, sz as nat);
    let second = first.plus(z.times(z));
    let t2 = second.magnitude() as int;
    lemma_within_a_part_scaled(t2, t1 + sz, unit);
    lemma_plus_zero(second);
    assert(Quad::vector(x, y, z).dot(Quad::vector(x, y, z)) == second);
    let p1 = t1 * unit;
    let p2 = t2 * unit;
    assert((sx + sy) * unit == px + py) by (nonlinear_arith)
        requires
            px == sx * unit,
            py == sy * unit,
    ;
    assert((t1 + sz) * unit == p1 + pz) by (nonlinear_arith)
        requires
            p1 == t1 * unit,
            pz == sz * unit,
    ;
    // some square is positive, and so are the sums
    assert(x2 > 0 ==> x.magnitude() > 0) by (nonlinear_arith)
        requires
            x2 == x.magnitude() * x.magnitude(),
    ;
    assert(y2 > 0 ==> y.magnitude() > 0) by (nonlinear_arith)
        requires
            y2 == y.magnitude() * y.magnitude(),
    ;
    assert(z2 > 0 ==> z.magnitude() > 0) by (nonlinear_arith)
        requires
            z2 == z.magnitude() * z.magnitude(),
    ;
    assert(x2 >= 0 && y2 >= 0 && z2 >= 0) by (nonlinear_arith)
        requires
            x2 == x.magnitude() * x.magnitude(),
            y2 == y.magnitude() * y.magnitude(),
            z2 == z.magnitude() * z.magnitude(),
    ;
    assert(t1 <= 2 * (sx + sy));
    assert(t2 <= 2 * (t1 + sz));
    assert(t2 > 0);
    // one part in 2^53 for each of the three roundings on the way
    assert(within_a_part(px, x2) && within_a_part(py, y2) && within_a_part(pz, z2));
    assert(within_a_part(p1, px + py));
    assert(within_a_part(p2, p1 + pz));
    assert(level(level(p1)) <= raised(raised(x2 + y2)));
    assert(level(level(p1)) >= lowered(lowered(x2 + y2)));
    assert(level(level(pz)) <= raised(raised(z2)));
    assert(level(level(pz)) >= lowered(lowered(z2)));
}

/// The length of a vector of moderate coordinates, not all zero: a
/// positive double whose square is off the sum of the squares by at most
/// five parts in 2^53, either way.
pub proof fn lemma_length_relative(x: Value, y: Value, z: Value)
    requires
        moderate(x),
        moderate(y),
        moderate(z),
        square_sum(x, y, z) > 0,
    ensures
        ({
            let m = Quad::vector(x, y, z).length();
            let m2 = (m.magnitude() * m.magnitude()) as int;
            let s = square_sum(x, y, z) as int;
            &&& m == positive(m.magnitude())
            &&& m.magnitude() > 0
            &&& level(lowered(lowered(m2))) <= raised(raised(raised(s)))
            &&& level(raised(raised(m2))) >= lowered(lowered(lowered(s)))
        }),
{
    lemma_dot_relative(x, y, z);
    let d = Quad::vector(x, y, z).dot(Quad::vector(x, y, z));
    lemma_root_relative(d.magnitude());
}

/// What the bounds on the square of the length say of the length itself:
/// it is below 2^502, and at least half of each coordinate.
proof fn lemma_length_bounds(x: Value, y: Value, z: Value, mu: nat)
    requires
        moderate(x),
        moderate(y),
        moderate(z),
        level(lowered(lowered((mu * mu) as int))) <= raised(
            raised(raised(square_sum(x, y, z) as int)),
        ),
        level(raised(raised((mu * mu) as int))) >= lowered(
            lowered(lowered(square_sum(x, y, z) as int)),
        ),
    ensures
        mu < pow2(1576),
        x.magnitude() <= 2 * mu,
        y.magnitude() <= 2 * mu,
        z.magnitude() <= 2 * mu,
{
    let m2 = (mu * mu) as int;
    let xu = x.magnitude() as int;
    let yu = y.magnitude() as int;
    let zu = z.magnitude() as int;
    let x2 = xu * xu;
    let y2 = yu * yu;
    let z2 = zu * zu;
    let high = pow2(1574) as int;
    let top = pow2(1576) as int;
    lemma2_to64();
    lemma_pow2_pos(1574);
    lemma_pow2_adds(1574, 1574);
    lemma_pow2_adds(1576, 1576);
    lemma_pow2_adds(4, 3148);
    lemma_pow2_pos(3148);
    assert(x2 >= 0 && y2 >= 0 && z2 >= 0) by (nonlinear_arith)
        requires
            x2 == xu * xu,
            y2 == yu * yu,
            z2 == zu * zu,
    ;
    assert(x2 <= high * high) by (nonlinear_arith)
        requires
            x2 == xu * xu,
            0 <= xu <= high,
    ;
    assert(y2 <= high * high) by (nonlinear_arith)
        requires
            y2 == yu * yu,
            0 <= yu <= high,
    ;
    assert(z2 <= high * high) by (nonlinear_arith)
        requires
            z2 == zu * zu,
            0 <= zu <= high,
    ;
    // the square of the length is at most twice, and at least a quarter
    // of, the sum of the squares
    assert(m2 <= 2 * (x2 + y2 + z2));
    assert(4 * m2 >= x2 + y2 + z2);
    assert(m2 < top * top);
    lemma_square_order(mu as int, top);
    assert((2 * mu) * (2 * mu) == 4 * m2) by (nonlinear_arith)
        requires
            m2 == mu * mu,
    ;
    lemma_square_order(xu, (2 * mu) as int);
    lemma_square_order(yu, (2 * mu) as int);
    lemma_square_order(zu, (2 * mu) as int);
}

/// A moderate coordinate over the length: its square, times the square
/// of the length, is off the square of the coordinate by at most two
/// parts in 2^53, either way.
proof fn lemma_component_relative(c: Value, mu: nat)
    requires
        moderate(c),
        0 < mu < pow2(1576),
        c.magnitude() <= 2 * mu,
    ensures
        ({
            let r = c.over(positive(mu));
            let ru = r.magnitude();
            let cu = c.magnitude();
            let w = pow2(1074) * pow2(1074);
            let left = ((ru * ru) * (mu * mu)) as int;
            let right = ((cu * cu) * w) as int;
            &&& r.is_finite()
            &&& lowered(lowered(right)) <= level(level(left)) <= raised(raised(right))
        }),
{
    let r = c.over(positive(mu));
    let ru = r.magnitude() as int;
    let cu = c.magnitude() as int;
    let unit = pow2(1074) as int;
    let mm = mu as int;
    lemma_pow2_pos(1074);
    lemma2_to64();
    lemma2_to64_rest();
    if cu == 0 {
        assert(c.magnitude() * pow2(1074) == 0) by (nonlinear_arith)
            requires
                c.magnitude() == 0,
        ;
        lemma_round_ratio_of_zero(c.is_negative() != false, mu);
        assert(ru == 0);
        assert((ru * ru) * (mm * mm) == 0) by (nonlinear_arith)
            requires
                ru == 0,
        ;
        assert((cu * cu) * (unit * unit) == 0) by (nonlinear_arith)
            requires
                cu == 0,
        ;
    } else {
        // the quotient lies in the normal range
        lemma_pow2_adds(52, 1576);
        lemma_pow2_adds(574, 1074);
        lemma_pow2_increases(1628, 1648);
        lemma_pow2_adds(1, 1074);
        lemma_pow2_adds(53, 2044);
        lemma_pow2_strictly_increases(1075, 2097);
        lemma_pow2_pos(1075);
        assert(HIDDEN_BIT * mm <= HIDDEN_BIT * pow2(1576)) by (nonlinear_arith)
            requires
                mm <= pow2(1576),
        ;
        assert(pow2(574) * unit <= cu * unit) by (nonlinear_arith)
            requires
                pow2(574) <= cu,
                unit > 0,
        ;
        assert(cu * unit <= (2 * mm) * unit) by (nonlinear_arith)
            requires
                cu <= 2 * mm,
                unit > 0,
        ;
        assert((2 * mm) * unit == pow2(1075) * mm) by (nonlinear_arith)
            requires
                pow2(1075) == 2 * unit,
        ;
        assert(pow2(1075) * mm < pow2(2097) * mm) by (nonlinear_arith)
            requires
                pow2(1075) < pow2(2097),
                mm > 0,
        ;
        lemma_quotient_relative(c.is_negative(), c.magnitude(), mu);
        assert(c == (Value::Finite { negative: c.is_negative(), units: c.magnitude() }));
        let a = ru * mm;
        let n = cu * unit;
        assert(within_a_part(a, n));
        assert(a >= 0 && n >= 0) by (nonlinear_arith)
            requires
                a == ru * mm,
                n == cu * unit,
                ru >= 0,
                mm >= 0,
                cu >= 0,
                unit >= 0,
        ;
        lemma_within_a_part_squared(a, n);
        assert(a * a == (ru * ru) * (mm * mm)) by (nonlinear_arith)
            requires
                a == ru * mm,
        ;
        assert(n * n == (cu * cu) * (unit * unit)) by (nonlinear_arith)
            requires
                n == cu * unit,
        ;
    }
}

/// A bound between multiples of two products with the same positive
/// number holds for the multiples of the numbers themselves.
proof fn lemma_bound_cancelled(k: int, a: int, l: int, b: int, m: int)
    requires
        k * (a * m) <= l * (b * m),
        m > 0,
    ensures
        k * a <= l * b,
{
    assert(k * (a * m) == (k * a) * m) by (nonlinear_arith);
    assert(l * (b * m) == (l * b) * m) by (nonlinear_arith);
    assert(k * a <= l * b) by (nonlinear_arith)
        requires
            (k * a) * m <= (l * b) * m,
            m > 0,
    ;
}

/// From the coordinates over the length, each within two parts in 2^53
/// in the square, and the square of the length within five: the sum of
/// the squares of the quotients is within eight parts in 2^53 of one.
proof fn lemma_unit_square_sum(
    xq: int,
    yq: int,
    zq: int,
    x2: int,
    y2: int,
    z2: int,
    m2: int,
    w: int,
)
    requires
        m2 > 0,
        w >= 0,
        lowered(lowered(x2 * w)) <= level(level(xq * m2)) <= raised(raised(x2 * w)),
        lowered(lowered(y2 * w)) <= level(level(yq * m2)) <= raised(raised(y2 * w)),
        lowered(lowered(z2 * w)) <= level(level(zq * m2)) <= raised(raised(z2 * w)),
        level(lowered(lowered(m2))) <= raised(raised(raised(x2 + y2 + z2))),
        level(raised(raised(m2))) >= lowered(lowered(lowered(x2 + y2 + z2))),
    ensures
        level(xq + yq + zq) <= 0x20_0000_0000_0008 * w,
        level(xq + yq + zq) >= 0x1F_FFFF_FFFF_FFF8 * w,
{
    let s = x2 + y2 + z2;
    let q = xq + yq + zq;
    let t = q * m2;
    let sw = s * w;
    let mw = m2 * w;
    assert(t == xq * m2 + yq * m2 + zq * m2) by (nonlinear_arith)
        requires
            t == (xq + yq + zq) * m2,
    ;
    assert(sw == x2 * w + y2 * w + z2 * w) by (nonlinear_arith)
        requires
            sw == (x2 + y2 + z2) * w,
    ;
    assert(lowered(lowered(sw)) <= level(level(t)) <= raised(raised(sw)));
    // the bounds on the square of the length, at the scale of the squares
    assert(0x20_0000_0000_0000 * (0x1F_FFFF_FFFF_FFFF * (0x1F_FFFF_FFFF_FFFF * (m2 * w)))
        <= 0x20_0000_0000_0001 * (0x20_0000_0000_0001 * (0x20_0000_0000_0001 * (s * w))))
        by (nonlinear_arith)
        requires
            0x20_0000_0000_0000 * (0x1F_FFFF_FFFF_FFFF * (0x1F_FFFF_FFFF_FFFF * m2))
                <= 0x20_0000_0000_0001 * (0x20_0000_0000_0001 * (0x20_0000_0000_0001 * s)),
            w >= 0,
    ;
    assert(0x20_0000_0000_0000 * (0x20_0000_0000_0001 * (0x20_0000_0000_0001 * (m2 * w)))
        >= 0x1F_FFFF_FFFF_FFFF * (0x1F_FFFF_FFFF_FFFF * (0x1F_FFFF_FFFF_FFFF * (s * w))))
        by (nonlinear_arith)
        requires
            0x20_0000_0000_0000 * (0x20_0000_0000_0001 * (0x20_0000_0000_0001 * m2))
                >= 0x1F_FFFF_FFFF_FFFF * (0x1F_FFFF_FFFF_FFFF * (0x1F_FFFF_FFFF_FFFF * s)),
            w >= 0,
    ;
    assert(level(lowered(lowered(mw))) <= raised(raised(raised(sw))));
    assert(level(raised(raised(mw))) >= lowered(lowered(lowered(sw))));
    // four parts up and three parts down make less than eight up, and
    // the other way round
    assert(level(t) <= 0x20_0000_0000_0008 * mw);
    assert(level(t) >= 0x1F_FFFF_FFFF_FFF8 * mw);
    assert(mw == w * m2) by (nonlinear_arith)
        requires
            mw == m2 * w,
    ;
    lemma_bound_cancelled(0x20_0000_0000_0000, q, 0x20_0000_0000_0008, w, m2);
    lemma_bound_cancelled(0x1F_FFFF_FFFF_FFF8, w, 0x20_0000_0000_0000, q, m2);
}

/// The length of a vector whose squares add up to within eight parts in
/// 2^53 of one lies within eight parts in 2^53 of one.
proof fn lemma_length_near_one(x: Value, y: Value, z: Value)
    requires
        x.is_finite(),
        y.is_finite(),
        z.is_finite(),
        level(square_sum(x, y, z) as int) <= 0x20_0000_0000_0008 * (pow2(1074) * pow2(1074)),
        level(square_sum(x, y, z) as int) >= 0x1F_FFFF_FFFF_FFF8 * (pow2(1074) * pow2(1074)),
    ensures
        about_one(Quad::vector(x, y, z).length()),
{
    let unit = pow2(1074) as int;
    let h = pow2(1021) as int;
    let w = unit * unit;
    let uh = unit * h;
    let x2 = (x.magnitude() * x.magnitude()) as int;
    let y2 = (y.magnitude() * y.magnitude()) as int;
    let z2 = (z.magnitude() * z.magnitude()) as int;
    let q = x2 + y2 + z2;
    let zero = Value::zero();
    lemma_pow2_pos(1021);
    lemma_pow2_pos(1074);
    lemma2_to64();
    lemma2_to64_rest();
    lemma_pow2_adds(53, 1021);
    assert(unit == 0x20_0000_0000_0000 * h);
    assert(w == 0x20_0000_0000_0000 * uh) by (nonlinear_arith)
        requires
            w == unit * unit,
            uh == unit * h,
            unit == 0x20_0000_0000_0000 * h,
    ;
    assert(uh > 0) by (nonlinear_arith)
        requires
            uh == unit * h,
            unit > 0,
            h > 0,
    ;
    // the exact sum of the squares lies within eight parts of one
    assert(q <= w + 8 * uh);
    assert(q >= w - 8 * uh);
    assert(x2 >= 0 && y2 >= 0 && z2 >= 0) by (nonlinear_arith)
        requires
            x2 == x.magnitude() * x.magnitude(),
            y2 == y.magnitude() * y.magnitude(),
            z2 == z.magnitude() * z.magnitude(),
    ;
    // each rounded square within one part of the exact one
    lemma_square_absolute(x);
    lemma_square_absolute(y);
    lemma_square_absolute(z);
    lemma_round_ratio_of_zero(false, pow2(1074));
    assert(0nat * 0nat == 0);
    assert(zero.times(zero) == zero);
    let sx = x.times(x).magnitude() as int;
    let sy = y.times(y).magnitude() as int;
    let sz = z.times(z).magnitude() as int;
    let total = sx + sy + sz;
    assert(total * unit == sx * unit + sy * unit + sz * unit) by (nonlinear_arith)
        requires
            total == sx + sy + sz,
    ;
    assert(total * unit <= w + 11 * uh);
    assert(total * unit >= w - 11 * uh);
    assert(w + 11 * uh == (unit + 11 * h) * unit) by (nonlinear_arith)
        requires
            w == unit * unit,
            uh == unit * h,
    ;
    assert(w - 11 * uh == (unit - 11 * h) * unit) by (nonlinear_arith)
        requires
            w == unit * unit,
            uh == unit * h,
    ;
    assert(total <= unit + 11 * h) by (nonlinear_arith)
        requires
            total * unit <= (unit + 11 * h) * unit,
            unit > 0,
    ;
    assert(total >= unit - 11 * h) by (nonlinear_arith)
        requires
            total * unit >= (unit - 11 * h) * unit,
            unit > 0,
    ;
    // and each rounded sum within one part of the exact one
    lemma_sum_absolute(sx as nat, sy as nat);
    let first = x.times(x).plus(y.times(y));
    let t1 = first.magnitude() as int;
    assert((t1 as nat) * 1nat == t1);
    lemma_sum_absolute(t1 as nat, sz as nat);
    let second = first.plus(z.times(z));
    let t2 = second.magnitude() as int;
    assert((t2 as nat) * 1nat == t2);
    lemma_plus_zero(second);
    assert(Quad::vector(x, y, z).dot(Quad::vector(x, y, z)) == second);
    lemma_root_near_one(t2 as nat);
}

/// The magnitude of a normalised vector lies within eight parts in 2^53,
/// which is four times the machine epsilon, of one, wherever every
/// coordinate of the vector is zero or at least 2^-500 and at most 2^500
/// in magnitude, and not all are zero.
pub proof fn unit_vector_has_length_one(v: Vector)
    requires
        v.valid(),
        moderate(v@.x),
        moderate(v@.y),
        moderate(v@.z),
        square_sum(v@.x, v@.y, v@.z) > 0,
    ensures
        about_one(v@.unit().as_vector().length()),
{
    let x = v@.x;
    let y = v@.y;
    let z = v@.z;
    assert(v@ == Quad::vector(x, y, z));
    lemma_length_relative(x, y, z);
    let m = v@.length();
    let mu = m.magnitude();
    lemma_length_bounds(x, y, z, mu);
    lemma_component_relative(x, mu);
    lemma_component_relative(y, mu);
    lemma_component_relative(z, mu);
    let xn = x.over(m);
    let yn = y.over(m);
    let zn = z.over(m);
    assert(v@.unit().as_vector() == Quad::vector(xn, yn, zn));
    let m2 = (mu * mu) as int;
    assert(m2 > 0) by (nonlinear_arith)
        requires
            m2 == mu * mu,
            mu > 0,
    ;
    let w = (pow2(1074) * pow2(1074)) as int;
    lemma_unit_square_sum(
        (xn.magnitude() * xn.magnitude()) as int,
        (yn.magnitude() * yn.magnitude()) as int,
        (zn.magnitude() * zn.magnitude()) as int,
        (x.magnitude() * x.magnitude()) as int,
        (y.magnitude() * y.magnitude()) as int,
        (z.magnitude() * z.magnitude()) as int,
        m2,
        w,
    );
    lemma_length_near_one(xn, yn, zn);
}

/// The same of a tetrad that is a vector: the magnitude of what
/// `normalize` gives lies within four times the machine epsilon of one.
pub proof fn unit_tetrad_has_length_one(t: Tetrad)
    requires
        t@.tagged_vector(),
        moderate(t@.x),
        moderate(t@.y),
        moderate(t@.z),
        square_sum(t@.x, t@.y, t@.z) > 0,
    ensures
        about_one(t@.unit().length()),
{
    let x = t@.x;
    let y = t@.y;
    let z = t@.z;
    assert(t@ == Quad::vector(x, y, z));
    lemma_length_relative(x, y, z);
    let m = t@.length();
    let mu = m.magnitude();
    // zero over the length is zero
    assert(0nat * pow2(1074) == 0) by (nonlinear_arith);
    lemma_round_ratio_of_zero(false, mu);
    assert(Value::zero().over(m) == Value::zero());
    assert(t@.unit() == t@.unit().as_vector());
    lemma_length_bounds(x, y, z, mu);
    lemma_component_relative(x, mu);
    lemma_component_relative(y, mu);
    lemma_component_relative(z, mu);
    let xn = x.over(m);
    let yn = y.over(m);
    let zn = z.over(m);
    let m2 = (mu * mu) as int;
    assert(m2 > 0) by (nonlinear_arith)
        requires
            m2 == mu * mu,
            mu > 0,
    ;
    let w = (pow2(1074) * pow2(1074)) as int;
    lemma_unit_square_sum(
        (xn.magnitude() * xn.magnitude()) as int,
        (yn.magnitude() * yn.magnitude()) as int,
        (zn.magnitude() * zn.magnitude()) as int,
        (x.magnitude() * x.magnitude()) as int,
        (y.magnitude() * y.magnitude()) as int,
        (z.magnitude() * z.magnitude()) as int,
        m2,
        w,
    );
    lemma_length_near_one(xn, yn, zn);
}

} // verus!
