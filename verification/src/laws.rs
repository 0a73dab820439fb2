//! What holds of the arithmetic for all inputs.

use crate::encode::lemma_pow2_increases;
use crate::error::lemma_round_on_grid;
use crate::math::{Point, Vector};
use crate::quad::Quad;
use crate::color::RGB;
use crate::rounding::{
    assemble, in_binade, in_half_cell, lemma_code_units_assembled, lemma_round_ratio_cell,
    lemma_round_ratio_same_fraction, round_ratio,
};
use crate::tetrad::Tetrad;
use crate::value::{code_units, decode, Value, HIDDEN_BIT, SIGNIFICAND_LIMIT, SIGN_BIT};
use vstd::arithmetic::div_mod::lemma_fundamental_div_mod;
use vstd::arithmetic::power2::{
    lemma2_to64, lemma2_to64_rest, lemma_pow2_adds, lemma_pow2_pos, pow2,
};
use vstd::prelude::*;

verus! {

/// The product of two values does not depend on their order.
pub proof fn lemma_times_commutes(a: Value, b: Value)
    ensures
        a.times(b) == b.times(a),
{
    assert(a.magnitude() * b.magnitude() == b.magnitude() * a.magnitude()) by (nonlinear_arith);
}

/// The sum of two values does not depend on their order.
pub proof fn lemma_plus_commutes(a: Value, b: Value)
    ensures
        a.plus(b) == b.plus(a),
{
}

/// Negating twice gives the value back.
pub proof fn lemma_negated_twice(a: Value)
    ensures
        a.negated().negated() == a,
{
}

/// A double times one is itself.
pub proof fn lemma_times_one(a: Value)
    requires
        a.is_double(),
    ensures
        a.times(Value::one()) == a,
        Value::one().times(a) == a,
{
    lemma_times_commutes(a, Value::one());
    lemma_pow2_pos(1074);
    if a.is_finite() {
        assert((a.magnitude() * pow2(1074)) * 1 == a.magnitude() * pow2(1074));
        lemma_round_ratio_same_fraction(
            a.is_negative(),
            a.magnitude() * pow2(1074),
            pow2(1074),
            a.magnitude(),
            1,
        );
        lemma_double_rounds_to_itself(a);
    }
}

/// Rounding the same magnitude with the other sign gives the opposite
/// value.
pub proof fn lemma_round_ratio_negated(negative: bool, n: nat, d: nat)
    ensures
        round_ratio(negative, n, d).negated() == round_ratio(!negative, n, d),
{
}

/// Unless it is a NaN, a difference is the opposite of the difference
/// taken the other way round, as a number.
pub proof fn lemma_minus_antisymmetric(a: Value, b: Value)
    requires
        !a.minus(b).is_nan(),
    ensures
        a.minus(b).same_number(b.minus(a).negated()),
{
    if a.is_finite() && b.is_finite() {
        let forth = a.signed_units() + b.negated().signed_units();
        let back = b.signed_units() + a.negated().signed_units();
        assert(back == -forth);
        if forth < 0 {
            lemma_round_ratio_negated(false, (-forth) as nat, 1);
        } else if forth > 0 {
            lemma_round_ratio_negated(true, forth as nat, 1);
        }
    }
}

/// A double is its own rounding.
pub proof fn lemma_double_rounds_to_itself(v: Value)
    requires
        v.is_double(),
        v.is_finite(),
    ensures
        round_ratio(v.is_negative(), v.magnitude(), 1) == v,
{
    let bits = choose|bits: u64| decode(bits) == v;
    let code = if bits >= SIGN_BIT {
        (bits - SIGN_BIT) as nat
    } else {
        bits as nat
    };
    let field = code / (HIDDEN_BIT as nat);
    let fraction = code % (HIDDEN_BIT as nat);
    lemma_fundamental_div_mod(code as int, HIDDEN_BIT as int);
    let e = if field == 0 {
        0nat
    } else {
        (field - 1) as nat
    };
    let m = if field == 0 {
        fraction
    } else {
        HIDDEN_BIT as nat + fraction
    };
    let spacing = pow2(e);
    lemma_pow2_pos(e);
    lemma2_to64();
    assert(decode(bits) == v);
    assert(v.magnitude() == code_units(code));
    if field == 0 {
        assert(m * spacing == m) by (nonlinear_arith)
            requires
                spacing == 1,
        ;
    }
    assert(v.magnitude() == m * spacing);
    assert(in_binade(m * spacing, 1, e)) by {
        let limit = 0x20_0000_0000_0000int;
        let hidden = HIDDEN_BIT as int;
        if e == 0 {
            assert(m * spacing == m) by (nonlinear_arith)
                requires
                    spacing == 1,
            ;
            assert(limit * 1 == limit);
        } else {
            assert(hidden * spacing * 1 <= m * spacing) by (nonlinear_arith)
                requires
                    hidden <= m,
                    spacing > 0,
            ;
            assert(m * spacing < limit * spacing * 1) by (nonlinear_arith)
                requires
                    m < limit,
                    spacing > 0,
            ;
        }
    }
    assert(in_half_cell(m * spacing, 1 * spacing, 2 * m, true)) by {
        assert(2 * (m * spacing) == (2 * m) * (1 * spacing)) by (nonlinear_arith);
    }
    lemma_round_ratio_cell(v.is_negative(), m * spacing, 1, e, 2 * m, true);
    lemma_code_units_assembled(e, m);
    assert(e * HIDDEN_BIT + m == code);
    assert(assemble(v.is_negative(), e, m) == v);
}

/// The sum of two values that are whole multiples of 2^`k` units, and add
/// up to less than 2^(53 + `k`) units either way, is free of rounding: so
/// are, for one, the sums of whole numbers below 2^53.
pub proof fn lemma_sum_on_grid_is_exact(a: Value, b: Value, k: nat)
    requires
        a.is_finite(),
        b.is_finite(),
        k <= 2044,
        a.magnitude() % pow2(k) == 0,
        b.magnitude() % pow2(k) == 0,
        -(SIGNIFICAND_LIMIT * pow2(k)) < a.signed_units() + b.signed_units() < SIGNIFICAND_LIMIT
            * pow2(k),
    ensures
        a.adds_exactly(b),
{
    let exact = a.signed_units() + b.signed_units();
    let wide = pow2(k) as int;
    lemma_pow2_pos(k);
    let n = if exact < 0 {
        -exact
    } else {
        exact
    };
    // sums and differences of multiples are multiples
    let i = (a.magnitude() as int) / wide;
    let j = (b.magnitude() as int) / wide;
    lemma_fundamental_div_mod(a.magnitude() as int, wide);
    lemma_fundamental_div_mod(b.magnitude() as int, wide);
    let si = if a.is_negative() {
        -i
    } else {
        i
    };
    let sj = if b.is_negative() {
        -j
    } else {
        j
    };
    assert(wide * (-i) == -(wide * i)) by (nonlinear_arith);
    assert(wide * (-j) == -(wide * j)) by (nonlinear_arith);
    assert(exact == wide * (si + sj)) by (nonlinear_arith)
        requires
            exact == a.signed_units() + b.signed_units(),
            a.signed_units() == wide * si,
            b.signed_units() == wide * sj,
    ;
    let c = if exact < 0 {
        -(si + sj)
    } else {
        si + sj
    };
    assert(n == wide * c) by (nonlinear_arith)
        requires
            exact == wide * (si + sj),
            n == if exact < 0 {
                -exact
            } else {
                exact
            },
            c == if exact < 0 {
                -(si + sj)
            } else {
                si + sj
            },
    ;
    vstd::arithmetic::div_mod::lemma_fundamental_div_mod_converse(n, wide, c, 0);
    if exact != 0 {
        lemma_round_on_grid(exact < 0, n as nat, k);
    }
}

/// Where a sum is free of rounding, taking the second term away again
/// gives the first back, as a number.
pub proof fn lemma_add_then_subtract(a: Value, b: Value)
    requires
        a.is_double(),
        a.adds_exactly(b),
    ensures
        a.plus(b).minus(b).same_number(a),
{
    let sum = a.plus(b);
    let back = sum.signed_units() + b.negated().signed_units();
    assert(back == a.signed_units());
    if back != 0 {
        lemma_double_rounds_to_itself(a);
    }
}

/// Where a difference is free of rounding, adding it to what was taken
/// away gives the first value back, as a number.
pub proof fn lemma_subtract_then_add(a: Value, b: Value)
    requires
        a.is_double(),
        a.subtracts_exactly(b),
    ensures
        b.plus(a.minus(b)).same_number(a),
{
    let difference = a.minus(b);
    let back = b.signed_units() + difference.signed_units();
    assert(back == a.signed_units());
    if back != 0 {
        lemma_double_rounds_to_itself(a);
    }
}

/// The dot product of two vectors does not depend on their order.
pub proof fn dot_commutes(a: Vector, b: Vector)
    ensures
        a@.dot(b@) == b@.dot(a@),
{
    lemma_times_commutes(a@.x, b@.x);
    lemma_times_commutes(a@.y, b@.y);
    lemma_times_commutes(a@.z, b@.z);
    lemma_times_commutes(a@.w, b@.w);
}

/// The dot product of two tetrads does not depend on their order.
pub proof fn tetrad_dot_commutes(a: Tetrad, b: Tetrad)
    ensures
        a@.dot(b@) == b@.dot(a@),
{
    lemma_times_commutes(a@.x, b@.x);
    lemma_times_commutes(a@.y, b@.y);
    lemma_times_commutes(a@.z, b@.z);
    lemma_times_commutes(a@.w, b@.w);
}

/// The sum of two vectors does not depend on their order.
pub proof fn sum_commutes(a: Vector, b: Vector)
    ensures
        a@.plus(b@).as_vector() == b@.plus(a@).as_vector(),
{
    lemma_plus_commutes(a@.x, b@.x);
    lemma_plus_commutes(a@.y, b@.y);
    lemma_plus_commutes(a@.z, b@.z);
}

/// The sum and the product of two colours do not depend on their order.
pub proof fn colours_commute(a: RGB, b: RGB)
    ensures
        a@.plus(b@) == b@.plus(a@),
        a@.times(b@) == b@.times(a@),
{
    lemma_plus_commutes(a@.r, b@.r);
    lemma_plus_commutes(a@.g, b@.g);
    lemma_plus_commutes(a@.b, b@.b);
    lemma_times_commutes(a@.r, b@.r);
    lemma_times_commutes(a@.g, b@.g);
    lemma_times_commutes(a@.b, b@.b);
}

/// Scaling a vector by one leaves it as it is.
pub proof fn scaling_by_one(v: Vector)
    requires
        v.valid(),
    ensures
        v@.scaled(Value::one()).as_vector() == v@,
{
    lemma_times_one(v@.x);
    lemma_times_one(v@.y);
    lemma_times_one(v@.z);
}

/// Negating a vector twice gives the vector back.
pub proof fn negating_twice(v: Vector)
    requires
        v.valid(),
    ensures
        v@.negated().as_vector().negated().as_vector() == v@,
{
    lemma_negated_twice(v@.x);
    lemma_negated_twice(v@.y);
    lemma_negated_twice(v@.z);
}

/// The cross product of two vectors is the negation of the cross product
/// taken the other way round, wherever it holds no NaN: a NaN equals
/// nothing, itself included.
pub proof fn cross_anticommutes(a: Vector, b: Vector)
    requires
        !a@.cross(b@).has_nan(),
    ensures
        a@.cross(b@).same_numbers(b@.cross(a@).negated().as_vector()),
{
    lemma_times_commutes(a@.y, b@.z);
    lemma_times_commutes(a@.z, b@.y);
    lemma_times_commutes(a@.z, b@.x);
    lemma_times_commutes(a@.x, b@.z);
    lemma_times_commutes(a@.x, b@.y);
    lemma_times_commutes(a@.y, b@.x);
    lemma_minus_antisymmetric(a@.y.times(b@.z), a@.z.times(b@.y));
    lemma_minus_antisymmetric(a@.z.times(b@.x), a@.x.times(b@.z));
    lemma_minus_antisymmetric(a@.x.times(b@.y), a@.y.times(b@.x));
}

/// The cross product of two tetrads is the negation of the cross product
/// taken the other way round, wherever it holds no NaN.
pub proof fn tetrad_cross_anticommutes(a: Tetrad, b: Tetrad)
    requires
        !a@.cross(b@).has_nan(),
    ensures
        a@.cross(b@).same_numbers(b@.cross(a@).negated()),
{
    lemma_times_commutes(a@.y, b@.z);
    lemma_times_commutes(a@.z, b@.y);
    lemma_times_commutes(a@.z, b@.x);
    lemma_times_commutes(a@.x, b@.z);
    lemma_times_commutes(a@.x, b@.y);
    lemma_times_commutes(a@.y, b@.x);
    lemma_minus_antisymmetric(a@.y.times(b@.z), a@.z.times(b@.y));
    lemma_minus_antisymmetric(a@.z.times(b@.x), a@.x.times(b@.z));
    lemma_minus_antisymmetric(a@.x.times(b@.y), a@.y.times(b@.x));
}

/// Moving a point along a vector and back again gives the point, wherever
/// the move itself is free of rounding.
pub proof fn move_round_trip(p: Point, v: Vector)
    requires
        p.valid(),
        p@.adds_exactly(v@),
    ensures
        p@.plus(v@).as_point().minus(v@).as_point().same_numbers(p@),
{
    lemma_add_then_subtract(p@.x, v@.x);
    lemma_add_then_subtract(p@.y, v@.y);
    lemma_add_then_subtract(p@.z, v@.z);
    lemma_one_is_a_number();
}

/// The difference of two points is a vector, and added to the second point
/// it gives the first, wherever it is free of rounding.
pub proof fn displacement_round_trip(p: Point, q: Point)
    requires
        p.valid(),
        p@.subtracts_exactly(q@),
    ensures
        p@.minus(q@).as_vector().tagged_vector(),
        q@.plus(p@.minus(q@).as_vector()).as_point().same_numbers(p@),
{
    lemma_subtract_then_add(p@.x, q@.x);
    lemma_subtract_then_add(p@.y, q@.y);
    lemma_subtract_then_add(p@.z, q@.z);
    lemma_one_is_a_number();
}

/// Whether a value is a whole multiple of 2^`k` units.
pub open spec fn on_grid(c: Value, k: nat) -> bool {
    c.is_finite() && c.magnitude() % pow2(k) == 0
}

/// Whether a number of units counts fewer than 2^53 multiples of 2^`k`.
pub open spec fn within_grid(units: int, k: nat) -> bool {
    -(SIGNIFICAND_LIMIT * pow2(k)) < units < SIGNIFICAND_LIMIT * pow2(k)
}

/// Moving a point along a vector and back again gives the point, where
/// all coordinates are whole multiples of one power of two and the moved
/// point counts fewer than 2^53 of them: so it does, for one, with whole
/// coordinates that add up to less than 2^53.
pub proof fn move_round_trip_on_grid(p: Point, v: Vector, k: nat)
    requires
        p.valid(),
        k <= 2044,
        on_grid(p@.x, k) && on_grid(p@.y, k) && on_grid(p@.z, k),
        on_grid(v@.x, k) && on_grid(v@.y, k) && on_grid(v@.z, k),
        within_grid(p@.x.signed_units() + v@.x.signed_units(), k),
        within_grid(p@.y.signed_units() + v@.y.signed_units(), k),
        within_grid(p@.z.signed_units() + v@.z.signed_units(), k),
    ensures
        p@.plus(v@).as_point().minus(v@).as_point().same_numbers(p@),
{
    lemma_sum_on_grid_is_exact(p@.x, v@.x, k);
    lemma_sum_on_grid_is_exact(p@.y, v@.y, k);
    lemma_sum_on_grid_is_exact(p@.z, v@.z, k);
    move_round_trip(p, v);
}

/// The difference of two points added to the second gives the first,
/// where all coordinates are whole multiples of one power of two and the
/// difference counts fewer than 2^53 of them.
pub proof fn displacement_round_trip_on_grid(p: Point, q: Point, k: nat)
    requires
        p.valid(),
        k <= 2044,
        on_grid(p@.x, k) && on_grid(p@.y, k) && on_grid(p@.z, k),
        on_grid(q@.x, k) && on_grid(q@.y, k) && on_grid(q@.z, k),
        within_grid(p@.x.signed_units() - q@.x.signed_units(), k),
        within_grid(p@.y.signed_units() - q@.y.signed_units(), k),
        within_grid(p@.z.signed_units() - q@.z.signed_units(), k),
    ensures
        q@.plus(p@.minus(q@).as_vector()).as_point().same_numbers(p@),
{
    lemma_sum_on_grid_is_exact(p@.x, q@.x.negated(), k);
    lemma_sum_on_grid_is_exact(p@.y, q@.y.negated(), k);
    lemma_sum_on_grid_is_exact(p@.z, q@.z.negated(), k);
    displacement_round_trip(p, q);
}

/// One equals itself.
proof fn lemma_one_is_a_number()
    ensures
        Value::one().same_number(Value::one()),
{
}

/// One is a double.
pub proof fn lemma_one_is_a_double()
    ensures
        Value::one().is_double(),
{
    let bits: u64 = 0x3FF0_0000_0000_0000;
    lemma2_to64_rest();
    lemma_pow2_adds(52, 1022);
    assert(bits / HIDDEN_BIT == 1023);
    assert(bits % HIDDEN_BIT == 0);
    assert(decode(bits) == Value::one());
}

/// How the two tags combine: what the sums and differences of ones and
/// zeros are.
pub proof fn lemma_tag_arithmetic()
    ensures
        Value::one().minus(Value::one()) == Value::zero(),
        Value::one().minus(Value::zero()) == Value::one(),
        Value::one().plus(Value::zero()) == Value::one(),
        Value::zero().plus(Value::zero()) == Value::zero(),
        Value::zero().minus(Value::zero()) == Value::zero(),
        Value::zero().minus(Value::one()) == Value::one().negated(),
{
    lemma_one_is_a_double();
    lemma_double_rounds_to_itself(Value::one());
    lemma_round_ratio_negated(false, pow2(1074), 1);
    lemma_pow2_pos(1074);
}

/// A tuple tagged as a point is told as a point and not as a vector.
pub proof fn tagged_point_is_point(q: Quad)
    requires
        q.tagged_point(),
    ensures
        q.is_point(),
        !q.is_vector(),
{
    lemma_tag_arithmetic();
    lemma_pow2_pos(1022);
    lemma_pow2_increases(1022, 1074);
}

/// A tuple tagged as a vector is told as a vector and not as a point.
pub proof fn tagged_vector_is_vector(q: Quad)
    requires
        q.tagged_vector(),
    ensures
        q.is_vector(),
        !q.is_point(),
{
    lemma_tag_arithmetic();
    lemma_pow2_pos(1022);
    lemma_pow2_increases(1022, 1074);
}

/// Points and vectors are closed under the operations that mean
/// something: the difference of two points is a vector, a point moved by a
/// vector either way is a point, and the sum and the difference of two
/// vectors are vectors.
pub proof fn tags_are_closed(p: Quad, q: Quad, u: Quad, v: Quad)
    requires
        p.tagged_point(),
        q.tagged_point(),
        u.tagged_vector(),
        v.tagged_vector(),
    ensures
        p.minus(q).tagged_vector(),
        p.plus(v).tagged_point(),
        p.minus(v).tagged_point(),
        u.plus(v).tagged_vector(),
        u.minus(v).tagged_vector(),
{
    lemma_tag_arithmetic();
}

} // verus!
