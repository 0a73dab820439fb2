//! The quotient of two finite numbers.

use crate::encode::{
    bit_length, lemma_pow2_128, lemma_pow2_increases, power_of_two, round_dyadic,
};
use crate::rounding::{
    lemma_round_ratio_cell, lemma_round_ratio_jammed, lemma_round_ratio_same_fraction,
    round_ratio,
};
use crate::scalar::Scalar;
use crate::value::{Value, SIGNIFICAND_LIMIT};
use vstd::arithmetic::div_mod::lemma_fundamental_div_mod;
use vstd::arithmetic::power2::{
    lemma2_to64, lemma2_to64_rest, lemma_pow2_adds, lemma_pow2_pos, lemma_pow2_unfold, pow2,
};
use vstd::prelude::*;

verus! {

/// Zero rounds to zero.
pub proof fn lemma_round_ratio_of_zero(negative: bool, d: nat)
    requires
        d > 0,
    ensures
        round_ratio(negative, 0, d) == (Value::Finite { negative, units: 0 }),
{
    lemma2_to64();
    assert(0 < SIGNIFICAND_LIMIT * d) by (nonlinear_arith)
        requires
            d > 0,
    ;
    assert(0 * (d * pow2(0)) == 0);
    lemma_round_ratio_cell(negative, 0, d, 0, 0, true);
    assert(0 * pow2(0) == 0);
}

/// The quotient of two finite numbers other than zero, given by
/// significand and power of two.
pub fn quotient_of_parts(negative: bool, ma: u64, ea: u32, mb: u64, eb: u32) -> (r: Scalar)
    requires
        0 < ma < 0x20_0000_0000_0000,
        0 < mb < 0x20_0000_0000_0000,
        ea <= 2045,
        eb <= 2045,
    ensures
        r@ == round_ratio(
            negative,
            (ma as nat * pow2(ea as nat)) * pow2(1074),
            mb as nat * pow2(eb as nat),
        ),
{
    // the dividend is moved up until its leading bit is bit 126, so that the
    // whole quotient has more than 73 bits
    let len: u32 = bit_length(ma as u128);
    proof {
        lemma2_to64();
        lemma2_to64_rest();
        if len > 53 {
            lemma_pow2_increases(53, (len - 1) as nat);
        }
    }
    let k: u32 = 127 - len;
    let ghost scale = pow2(k as nat);
    proof {
        lemma_pow2_pos(k as nat);
        lemma_pow2_adds(len as nat, k as nat);
        lemma_pow2_adds((len - 1) as nat, k as nat);
        lemma_pow2_128();
        assert(ma * scale < pow2(len as nat) * scale) by (nonlinear_arith)
            requires
                ma < pow2(len as nat),
                scale > 0,
        ;
        assert(pow2((len - 1) as nat) * scale <= ma * scale) by (nonlinear_arith)
            requires
                pow2((len - 1) as nat) <= ma,
                scale > 0,
        ;
    }
    let dividend: u128 = (ma as u128) * power_of_two(k);
    let q: u128 = dividend / (mb as u128);
    let rest: u128 = dividend % (mb as u128);
    let up: u32 = ea + 1074;
    let down: u32 = eb + k;
    let ghost n = (ma as nat * pow2(ea as nat)) * pow2(1074);
    let ghost d = mb as nat * pow2(eb as nat);
    proof {
        lemma_fundamental_div_mod(dividend as int, mb as int);
        lemma_pow2_pos(ea as nat);
        lemma_pow2_pos(eb as nat);
        lemma_pow2_pos(up as nat);
        lemma_pow2_pos(down as nat);
        lemma_pow2_adds(ea as nat, 1074);
        lemma_pow2_adds(eb as nat, k as nat);
        assert(d > 0) by (nonlinear_arith)
            requires
                d == mb as nat * pow2(eb as nat),
                mb > 0,
                pow2(eb as nat) > 0,
        ;
        lemma_quotient_frame(
            ma as int,
            mb as int,
            q as int,
            rest as int,
            pow2(ea as nat) as int,
            pow2(1074) as int,
            pow2(eb as nat) as int,
            scale as int,
        );
        assert(q >= 0x40_0000_0000_0000) by (nonlinear_arith)
            requires
                dividend == mb * q + rest,
                rest < mb,
                0 < mb < 0x20_0000_0000_0000,
                dividend >= 0x4000_0000_0000_0000_0000_0000_0000_0000,
        ;
    }
    if rest == 0 {
        proof {
            lemma_round_ratio_same_fraction(
                negative,
                n,
                d,
                q as nat * pow2(up as nat),
                pow2(down as nat),
            );
        }
        round_dyadic(negative, q, up, down)
    } else {
        proof {
            lemma_round_ratio_jammed(negative, n, d, q as nat, up as nat, down as nat);
            lemma_pow2_unfold((down + 1) as nat);
        }
        round_dyadic(negative, 2 * q + 1, up, down + 1)
    }
}

/// What the division with remainder of the scaled significands says of
/// the two numbers.
proof fn lemma_quotient_frame(
    ma: int,
    mb: int,
    q: int,
    rest: int,
    pa: int,
    unit: int,
    pb: int,
    scale: int,
)
    requires
        ma * scale == mb * q + rest,
        0 <= rest < mb,
        pa > 0,
        unit > 0,
        pb > 0,
        scale > 0,
    ensures
        rest == 0 ==> ((ma * pa) * unit) * (pb * scale) == (q * (pa * unit)) * (mb * pb),
        rest > 0 ==> q * (pa * unit) * (mb * pb) < ((ma * pa) * unit) * (pb * scale),
        rest > 0 ==> ((ma * pa) * unit) * (pb * scale) < (q + 1) * (pa * unit) * (mb * pb),
{
    let common = (pa * unit) * pb;
    assert(common > 0) by (nonlinear_arith)
        requires
            common == (pa * unit) * pb,
            pa > 0,
            unit > 0,
            pb > 0,
    ;
    assert(((ma * pa) * unit) * (pb * scale) == (ma * scale) * common) by (nonlinear_arith)
        requires
            common == (pa * unit) * pb,
    ;
    assert((q * (pa * unit)) * (mb * pb) == (mb * q) * common) by (nonlinear_arith)
        requires
            common == (pa * unit) * pb,
    ;
    assert(q * (pa * unit) * (mb * pb) == (mb * q) * common) by (nonlinear_arith)
        requires
            common == (pa * unit) * pb,
    ;
    assert((q + 1) * (pa * unit) * (mb * pb) == (mb * q + mb) * common) by (nonlinear_arith)
        requires
            common == (pa * unit) * pb,
    ;
    if rest > 0 {
        assert((mb * q) * common < (ma * scale) * common) by (nonlinear_arith)
            requires
                mb * q < ma * scale,
                common > 0,
        ;
        assert((ma * scale) * common < (mb * q + mb) * common) by (nonlinear_arith)
            requires
                ma * scale < mb * q + mb,
                common > 0,
        ;
    }
}

} // verus!
