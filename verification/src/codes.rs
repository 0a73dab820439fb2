//! What the encodings of finite doubles stand for: that it grows with
//! the code, and how the code is had back from it.

use crate::encode::lemma_pow2_increases;
use crate::rounding::{in_binade, lemma_quantum_exponent_is};
use crate::value::{code_of, code_units, HIDDEN_BIT, INFINITY_CODE, SIGNIFICAND_LIMIT};
use vstd::arithmetic::div_mod::{lemma_div_multiples_vanish, lemma_fundamental_div_mod};
use vstd::arithmetic::power2::{lemma2_to64, lemma_pow2_pos, lemma_pow2_unfold, pow2};
use vstd::prelude::*;

verus! {

/// A code other than zero stands for a magnitude other than zero.
pub proof fn lemma_nonzero_code(code: nat)
    requires
        code < INFINITY_CODE,
    ensures
        code_units(code) == 0 <==> code == 0,
{
    let exponent = code / (HIDDEN_BIT as nat);
    let fraction = code % (HIDDEN_BIT as nat);
    if exponent > 0 {
        lemma_pow2_pos((exponent - 1) as nat);
        assert((HIDDEN_BIT + fraction) * pow2((exponent - 1) as nat) > 0) by (nonlinear_arith)
            requires
                HIDDEN_BIT + fraction > 0,
                pow2((exponent - 1) as nat) > 0,
        ;
    }
}

/// The encoding of what a finite code stands for is the code.
pub proof fn lemma_code_of_units(code: nat)
    requires
        code < INFINITY_CODE,
    ensures
        code_of(code_units(code)) == code,
{
    let field = code / (HIDDEN_BIT as nat);
    let fraction = code % (HIDDEN_BIT as nat);
    lemma_fundamental_div_mod(code as int, HIDDEN_BIT as int);
    lemma2_to64();
    let limit = SIGNIFICAND_LIMIT as int;
    let hidden = HIDDEN_BIT as int;
    if field == 0 {
        assert(in_binade(fraction, 1, 0));
        lemma_quantum_exponent_is(fraction, 1, 0);
        assert(code_units(code) == fraction);
        assert(fraction / pow2(0) == fraction);
        assert(code_of(fraction) == fraction);
    } else {
        let e = (field - 1) as nat;
        let m = (HIDDEN_BIT + fraction) as nat;
        let spacing = pow2(e);
        lemma_pow2_pos(e);
        assert(in_binade(m * spacing, 1, e)) by {
            if e == 0 {
                assert(m * spacing == m) by (nonlinear_arith)
                    requires
                        spacing == 1,
                ;
            } else {
                assert(hidden * spacing * 1 <= m * spacing) by (nonlinear_arith)
                    requires
                        hidden <= m,
                        spacing > 0,
                ;
                assert(m * spacing < limit * spacing * 1) by (nonlinear_arith)
                    requires
                        m < limit,
                        spacing > 0,
                ;
            }
        }
        lemma_quantum_exponent_is(m * spacing, 1, e);
        lemma_div_multiples_vanish(m as int, spacing as int);
        assert(m * spacing == spacing * m) by (nonlinear_arith);
        assert(code_units(code) == m * spacing);
        assert((m * spacing) / spacing == m);
        assert(code_of(m * spacing) == e * HIDDEN_BIT + m);
    }
}

/// A larger code stands for a larger magnitude.
pub proof fn lemma_code_units_increases(small: nat, large: nat)
    requires
        small < large < INFINITY_CODE,
    ensures
        code_units(small) < code_units(large),
{
    let hidden = HIDDEN_BIT as int;
    let e1 = small / (HIDDEN_BIT as nat);
    let f1 = (small % (HIDDEN_BIT as nat)) as int;
    let e2 = large / (HIDDEN_BIT as nat);
    let f2 = (large % (HIDDEN_BIT as nat)) as int;
    assert(e1 <= e2);
    assert(e2 >= 1 || e1 == e2);
    if e2 >= 1 {
        let wide = pow2((e2 - 1) as nat) as int;
        lemma_pow2_pos((e2 - 1) as nat);
        if e1 == e2 {
            assert((hidden + f1) * wide < (hidden + f2) * wide) by (nonlinear_arith)
                requires
                    f1 < f2,
                    wide > 0,
            ;
        } else {
            assert(hidden * wide <= (hidden + f2) * wide) by (nonlinear_arith)
                requires
                    f2 >= 0,
                    wide > 0,
            ;
            if e1 == 0 {
                assert(hidden <= hidden * wide) by (nonlinear_arith)
                    requires
                        wide >= 1,
                        hidden > 0,
                ;
            } else {
                let narrow = pow2((e1 - 1) as nat) as int;
                lemma_pow2_pos((e1 - 1) as nat);
                lemma_pow2_unfold(e1);
                lemma_pow2_increases(e1, (e2 - 1) as nat);
                assert((hidden + f1) * narrow < hidden * (2 * narrow)) by (nonlinear_arith)
                    requires
                        0 <= f1 < hidden,
                        narrow > 0,
                ;
                assert(hidden * (2 * narrow) <= hidden * wide) by (nonlinear_arith)
                    requires
                        2 * narrow <= wide,
                        hidden > 0,
                ;
            }
        }
    }
}

/// Two finite codes compare as the magnitudes they stand for.
pub proof fn lemma_code_units_order(a: nat, b: nat)
    requires
        a < INFINITY_CODE,
        b < INFINITY_CODE,
    ensures
        a < b <==> code_units(a) < code_units(b),
        a == b <==> code_units(a) == code_units(b),
{
    if a < b {
        lemma_code_units_increases(a, b);
    }
    if b < a {
        lemma_code_units_increases(b, a);
    }
}

} // verus!
