//! The sum of two finite numbers.

use crate::encode::{join, lemma_pow2_increases, power_of_two, round_dyadic};
use crate::rounding::{lemma_round_ratio_jammed, round_ratio};
use crate::scalar::Scalar;
use crate::value::{Value, HIDDEN_BIT};
use vstd::arithmetic::power2::{
    lemma2_to64, lemma2_to64_rest, lemma_pow2_adds, lemma_pow2_pos, pow2,
};
use vstd::prelude::*;

verus! {

/// The sum of two finite values, told by their signs and magnitudes.
pub open spec fn finite_sum(s1: bool, x: nat, s2: bool, y: nat) -> Value {
    if s1 == s2 {
        if x + y == 0 {
            Value::Finite { negative: s1, units: 0 }
        } else {
            round_ratio(s1, x + y, 1)
        }
    } else if x == y {
        Value::Finite { negative: false, units: 0 }
    } else if x > y {
        round_ratio(s1, (x - y) as nat, 1)
    } else {
        round_ratio(s2, (y - x) as nat, 1)
    }
}

/// The sum does not depend on the order of its terms.
pub proof fn lemma_plus_is_finite_sum(s1: bool, x: nat, s2: bool, y: nat)
    ensures
        (Value::Finite { negative: s1, units: x }).plus(Value::Finite { negative: s2, units: y })
            == finite_sum(s1, x, s2, y),
        (Value::Finite { negative: s2, units: y }).plus(Value::Finite { negative: s1, units: x })
            == finite_sum(s1, x, s2, y),
{
}

/// The sum of two finite numbers given by sign, significand and power of
/// two, the first with the larger power.
pub fn sum_of_parts(s1: bool, m1: u64, e1: u32, s2: bool, m2: u64, e2: u32) -> (r: Scalar)
    requires
        m1 < 0x20_0000_0000_0000,
        m2 < 0x20_0000_0000_0000,
        e2 <= e1 <= 2045,
        e1 > 0 ==> m1 >= HIDDEN_BIT,
    ensures
        r@ == finite_sum(s1, m1 as nat * pow2(e1 as nat), s2, m2 as nat * pow2(e2 as nat)),
{
    let ghost x = m1 as nat * pow2(e1 as nat);
    let ghost y = m2 as nat * pow2(e2 as nat);
    proof {
        lemma2_to64();
        lemma_pow2_pos(e1 as nat);
        lemma_pow2_pos(e2 as nat);
        lemma_product_sign(m1 as int, pow2(e1 as nat) as int);
        lemma_product_sign(m2 as int, pow2(e2 as nat) as int);
    }
    if m2 == 0 {
        if m1 == 0 {
            join(s1 && s2, 0)
        } else {
            round_dyadic(s1, m1 as u128, e1, 0)
        }
    } else if e1 - e2 > 64 {
        // the smaller term only decides on which side of the larger the sum lies
        let wide: u128 = (m1 as u128) * 16;
        let stand_in: u128 = if s1 == s2 {
            wide + 1
        } else {
            wide - 1
        };
        proof {
            lemma_far_sum(s1, s1 == s2, m1 as nat, e1 as nat, m2 as nat, e2 as nat);
        }
        round_dyadic(s1, stand_in, e1 - 3, 1)
    } else {
        sum_of_near_parts(s1, m1, e1, s2, m2, e2)
    }
}

/// A product of a natural number and a positive one is zero only when the
/// first is.
proof fn lemma_product_sign(m: int, p: int)
    requires
        m >= 0,
        p > 0,
    ensures
        m == 0 ==> m * p == 0,
        m > 0 ==> m * p > 0,
{
    assert(m == 0 ==> m * p == 0) by (nonlinear_arith);
    assert(m > 0 ==> m * p > 0) by (nonlinear_arith)
        requires
            p > 0,
    ;
}

/// The exact sum of two numbers at most 64 binary places apart, as a
/// multiple of the smaller power of two.
proof fn lemma_near_sum(m1: int, e1: nat, m2: int, e2: nat, lifted: int)
    requires
        e2 <= e1,
        lifted == m1 * pow2((e1 - e2) as nat),
    ensures
        m1 * pow2(e1) == lifted * pow2(e2),
        m1 * pow2(e1) + m2 * pow2(e2) == (lifted + m2) * pow2(e2),
        m1 * pow2(e1) - m2 * pow2(e2) == (lifted - m2) * pow2(e2),
        m2 * pow2(e2) - m1 * pow2(e1) == (m2 - lifted) * pow2(e2),
{
    let low = pow2(e2) as int;
    let gap = pow2((e1 - e2) as nat) as int;
    lemma_pow2_adds((e1 - e2) as nat, e2);
    assert(m1 * pow2(e1) == lifted * low) by (nonlinear_arith)
        requires
            pow2(e1) == gap * low,
            lifted == m1 * gap,
    ;
    assert((lifted + m2) * low == lifted * low + m2 * low) by (nonlinear_arith);
    assert((lifted - m2) * low == lifted * low - m2 * low) by (nonlinear_arith);
    assert((m2 - lifted) * low == m2 * low - lifted * low) by (nonlinear_arith);
}

/// The sum of two finite numbers at most 64 binary places apart.
fn sum_of_near_parts(s1: bool, m1: u64, e1: u32, s2: bool, m2: u64, e2: u32) -> (r: Scalar)
    requires
        m1 < 0x20_0000_0000_0000,
        0 < m2 < 0x20_0000_0000_0000,
        e2 <= e1 <= 2045,
        e1 - e2 <= 64,
    ensures
        r@ == finite_sum(s1, m1 as nat * pow2(e1 as nat), s2, m2 as nat * pow2(e2 as nat)),
{
    let gap: u32 = e1 - e2;
    proof {
        lemma2_to64();
        lemma2_to64_rest();
        lemma_pow2_pos(gap as nat);
        lemma_pow2_increases(gap as nat, 64);
        assert(m1 * pow2(gap as nat) < 0x20_0000_0000_0000 * pow2(64)) by (nonlinear_arith)
            requires
                m1 < 0x20_0000_0000_0000,
                0 < pow2(gap as nat) <= pow2(64),
        ;
    }
    let lifted: u128 = (m1 as u128) * power_of_two(gap);
    let negative: bool;
    let total: u128;
    if s1 == s2 {
        negative = s1;
        total = lifted + m2 as u128;
    } else if lifted >= m2 as u128 {
        negative = s1;
        total = lifted - m2 as u128;
    } else {
        negative = s2;
        total = m2 as u128 - lifted;
    }
    proof {
        lemma_near_sum(m1 as int, e1 as nat, m2 as int, e2 as nat, lifted as int);
        lemma_pow2_pos(e2 as nat);
        lemma_product_sign(total as int, pow2(e2 as nat) as int);
    }
    if total == 0 {
        join(false, 0)
    } else {
        round_dyadic(negative, total, e2, 0)
    }
}

/// A term more than 64 binary places below the other moves the sum off the
/// larger term by less than an eighth of its last place.
proof fn lemma_far_sum(negative: bool, same_sign: bool, m1: nat, e1: nat, m2: nat, e2: nat)
    requires
        HIDDEN_BIT <= m1 < 0x20_0000_0000_0000,
        0 < m2 < 0x20_0000_0000_0000,
        e1 > e2 + 64,
    ensures
        m1 * pow2(e1) > m2 * pow2(e2),
        same_sign ==> round_ratio(negative, m1 * pow2(e1) + m2 * pow2(e2), 1) == round_ratio(
            negative,
            (16 * m1 + 1) as nat * pow2((e1 - 3) as nat),
            pow2(1),
        ),
        !same_sign ==> round_ratio(negative, (m1 * pow2(e1) - m2 * pow2(e2)) as nat, 1)
            == round_ratio(negative, (16 * m1 - 1) as nat * pow2((e1 - 3) as nat), pow2(1)),
{
    let up = (e1 - 3) as nat;
    let u = pow2(up) as int;
    let x = (m1 * pow2(e1)) as int;
    let y = (m2 * pow2(e2)) as int;
    let low = pow2(e2) as int;
    lemma2_to64();
    lemma2_to64_rest();
    lemma_pow2_pos(up);
    lemma_pow2_pos(e2);
    lemma_pow2_adds(3, up);
    lemma_pow2_adds(53, e2);
    lemma_pow2_increases(53 + e2, up);
    assert(x == (8 * m1) * u) by (nonlinear_arith)
        requires
            x == m1 * pow2(e1),
            pow2(e1) == 8 * u,
    ;
    assert(0 < y < u) by (nonlinear_arith)
        requires
            y == m2 * low,
            0 < m2 < 0x20_0000_0000_0000,
            low > 0,
            0x20_0000_0000_0000 * low <= u,
    ;
    assert(((8 * m1) + 1) * u == x + u) by (nonlinear_arith)
        requires
            x == (8 * m1) * u,
    ;
    assert(((8 * m1) - 1) * u == x - u) by (nonlinear_arith)
        requires
            x == (8 * m1) * u,
    ;
    assert(x >= u) by (nonlinear_arith)
        requires
            x == (8 * m1) * u,
            m1 >= 1,
            u > 0,
    ;
    let sig = if same_sign {
        8 * m1
    } else {
        (8 * m1 - 1) as nat
    };
    let n = if same_sign {
        (x + y) as nat
    } else {
        (x - y) as nat
    };
    assert(sig * pow2(up) * 1 == sig * u) by (nonlinear_arith)
        requires
            u == pow2(up),
    ;
    assert((sig + 1) * pow2(up) * 1 == (sig + 1) * u) by (nonlinear_arith)
        requires
            u == pow2(up),
    ;
    assert(n * pow2(0) == n) by (nonlinear_arith)
        requires
            pow2(0) == 1,
    ;
    lemma_round_ratio_jammed(negative, n, 1, sig, up, 0);
}

} // verus!
