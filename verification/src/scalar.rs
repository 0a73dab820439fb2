//! Double-precision scalars and their arithmetic.

use crate::codes::{lemma_code_of_units, lemma_code_units_order, lemma_nonzero_code};
use crate::encode::{finite_parts, join, round_dyadic, split};
use crate::quotient::{lemma_round_ratio_of_zero, quotient_of_parts};
use crate::root::root_of_parts;
use crate::sum::{lemma_plus_is_finite_sum, sum_of_parts};
use crate::value::{
    code_units, decode, encode, Value, EPSILON, HIDDEN_BIT, INFINITY_CODE, ONE, QUIET_NAN,
    SIGN_BIT,
};
use vstd::arithmetic::power2::{lemma2_to64_rest, lemma_pow2_adds, pow2};
use vstd::prelude::*;

verus! {

/// A double-precision scalar, held as its IEEE-754 binary64 encoding.
#[derive(Clone, Copy, Debug)]
pub struct Scalar {
    pub bits: u64,
}

impl View for Scalar {
    type V = Value;

    open spec fn view(&self) -> Value {
        decode(self.bits)
    }
}

impl Scalar {
    /// The scalar that holds the given value.
    pub open spec fn of(v: Value) -> Scalar {
        Scalar { bits: encode(v) }
    }

    /// Whether this scalar, if it is a NaN, is the one that the arithmetic
    /// produces.  Every other value has one encoding only.
    pub open spec fn canonical(&self) -> bool {
        self@.is_nan() ==> self.bits == QUIET_NAN
    }

    /// The scalar with the sign bit the other way.
    pub open spec fn opposite(self) -> Scalar {
        if self.bits >= SIGN_BIT {
            Scalar { bits: (self.bits - SIGN_BIT) as u64 }
        } else {
            Scalar { bits: (self.bits + SIGN_BIT) as u64 }
        }
    }

    /// The scalar with the sign bit cleared.
    pub open spec fn cleared(self) -> Scalar {
        if self.bits >= SIGN_BIT {
            Scalar { bits: (self.bits - SIGN_BIT) as u64 }
        } else {
            self
        }
    }

    /// A canonical scalar is the one that holds its value.
    pub proof fn lemma_canonical(self)
        requires
            self.canonical(),
        ensures
            self == Scalar::of(self@),
    {
        let code = if self.bits >= SIGN_BIT {
            (self.bits - SIGN_BIT) as nat
        } else {
            self.bits as nat
        };
        if code < INFINITY_CODE {
            lemma_code_of_units(code);
        }
    }

    /// The scalar with the given encoding.
    pub fn from_bits(bits: u64) -> (r: Scalar)
        ensures
            r.bits == bits,
    {
        Scalar { bits }
    }

    /// The encoding of this scalar.
    pub fn to_bits(&self) -> (bits: u64)
        ensures
            bits == self.bits,
    {
        self.bits
    }

    /// Positive zero.
    pub fn zero() -> (r: Scalar)
        ensures
            r@ == Value::zero(),
            r.bits == 0,
    {
        Scalar { bits: 0 }
    }

    /// The number one.
    pub fn one() -> (r: Scalar)
        ensures
            r@ == Value::one(),
            r.bits == ONE,
    {
        proof {
            lemma2_to64_rest();
            lemma_pow2_adds(52, 1022);
            assert(ONE / HIDDEN_BIT == 1023);
            assert(ONE % HIDDEN_BIT == 0);
        }
        Scalar { bits: ONE }
    }

    /// The distance from one to the next larger double.
    pub fn epsilon() -> (r: Scalar)
        ensures
            r@ == Value::epsilon(),
            r.bits == EPSILON,
    {
        proof {
            lemma2_to64_rest();
            lemma_pow2_adds(52, 970);
            assert(EPSILON / HIDDEN_BIT == 971);
            assert(EPSILON % HIDDEN_BIT == 0);
        }
        Scalar { bits: EPSILON }
    }

    /// A NaN.
    pub fn nan() -> (r: Scalar)
        ensures
            r@ == Value::Nan,
            r.bits == QUIET_NAN,
    {
        Scalar { bits: QUIET_NAN }
    }

    /// Whether this scalar is a NaN.
    pub fn is_nan(&self) -> (r: bool)
        ensures
            r == self@.is_nan(),
    {
        let (_, code) = split(self.bits);
        code > INFINITY_CODE
    }

    /// The same number with the opposite sign.
    pub fn negate(&self) -> (r: Scalar)
        ensures
            r@ == self@.negated(),
            r == self.opposite(),
    {
        let (negative, code) = split(self.bits);
        join(!negative, code)
    }

    /// The same number with the sign cleared.
    pub fn abs(&self) -> (r: Scalar)
        ensures
            r@ == self@.absolute(),
            r == self.cleared(),
    {
        let (_, code) = split(self.bits);
        join(false, code)
    }

    /// The sum of two scalars.
    pub fn plus(&self, rhs: &Scalar) -> (r: Scalar)
        ensures
            r@ == self@.plus(rhs@),
            r.canonical(),
    {
        let (sa, ca) = split(self.bits);
        let (sb, cb) = split(rhs.bits);
        if ca > INFINITY_CODE || cb > INFINITY_CODE {
            return Scalar::nan();
        }
        if ca == INFINITY_CODE {
            if cb == INFINITY_CODE && sa != sb {
                return Scalar::nan();
            }
            return *self;
        }
        if cb == INFINITY_CODE {
            return *rhs;
        }
        let (ma, ea) = finite_parts(ca);
        let (mb, eb) = finite_parts(cb);
        proof {
            lemma_plus_is_finite_sum(sa, code_units(ca as nat), sb, code_units(cb as nat));
            lemma_plus_is_finite_sum(sb, code_units(cb as nat), sa, code_units(ca as nat));
        }
        if ea >= eb {
            sum_of_parts(sa, ma, ea, sb, mb, eb)
        } else {
            sum_of_parts(sb, mb, eb, sa, ma, ea)
        }
    }

    /// The difference of two scalars.
    pub fn minus(&self, rhs: &Scalar) -> (r: Scalar)
        ensures
            r@ == self@.minus(rhs@),
            r.canonical(),
    {
        let negated = rhs.negate();
        self.plus(&negated)
    }

    /// The product of two scalars.
    pub fn times(&self, rhs: &Scalar) -> (r: Scalar)
        ensures
            r@ == self@.times(rhs@),
            r.canonical(),
    {
        let (sa, ca) = split(self.bits);
        let (sb, cb) = split(rhs.bits);
        if ca > INFINITY_CODE || cb > INFINITY_CODE {
            return Scalar::nan();
        }
        let negative = sa != sb;
        if ca == INFINITY_CODE || cb == INFINITY_CODE {
            if ca == 0 || cb == 0 {
                return Scalar::nan();
            }
            proof {
                if ca < INFINITY_CODE {
                    lemma_nonzero_code(ca as nat);
                }
                if cb < INFINITY_CODE {
                    lemma_nonzero_code(cb as nat);
                }
            }
            return join(negative, INFINITY_CODE);
        }
        let (ma, ea) = finite_parts(ca);
        let (mb, eb) = finite_parts(cb);
        proof {
            let x = code_units(ca as nat) as int;
            let y = code_units(cb as nat) as int;
            lemma_pow2_adds(ea as nat, eb as nat);
            assert(ma * mb < 0x20_0000_0000_0000 * 0x20_0000_0000_0000) by (nonlinear_arith)
                requires
                    0 <= ma < 0x20_0000_0000_0000,
                    0 <= mb < 0x20_0000_0000_0000,
            ;
            assert(x * y == (ma * mb) * pow2((ea + eb) as nat)) by (nonlinear_arith)
                requires
                    x == ma * pow2(ea as nat),
                    y == mb * pow2(eb as nat),
                    pow2((ea + eb) as nat) == pow2(ea as nat) * pow2(eb as nat),
            ;
        }
        let product: u128 = (ma as u128) * (mb as u128);
        round_dyadic(negative, product, ea + eb, 1074)
    }

    /// The quotient of two scalars.
    pub fn over(&self, rhs: &Scalar) -> (r: Scalar)
        ensures
            r@ == self@.over(rhs@),
            r.canonical(),
    {
        let (sa, ca) = split(self.bits);
        let (sb, cb) = split(rhs.bits);
        if ca > INFINITY_CODE || cb > INFINITY_CODE {
            return Scalar::nan();
        }
        let negative = sa != sb;
        if ca == INFINITY_CODE {
            if cb == INFINITY_CODE {
                return Scalar::nan();
            }
            return join(negative, INFINITY_CODE);
        }
        if cb == INFINITY_CODE {
            return join(negative, 0);
        }
        proof {
            lemma_nonzero_code(ca as nat);
            lemma_nonzero_code(cb as nat);
        }
        if cb == 0 {
            if ca == 0 {
                return Scalar::nan();
            }
            return join(negative, INFINITY_CODE);
        }
        let (ma, ea) = finite_parts(ca);
        let (mb, eb) = finite_parts(cb);
        if ca == 0 {
            proof {
                lemma_round_ratio_of_zero(negative, code_units(cb as nat));
                assert(code_units(ca as nat) * pow2(1074) == 0) by (nonlinear_arith)
                    requires
                        code_units(ca as nat) == 0,
                ;
            }
            return join(negative, 0);
        }
        quotient_of_parts(negative, ma, ea, mb, eb)
    }

    /// The square root of a scalar.
    pub fn sqrt(&self) -> (r: Scalar)
        ensures
            r@ == self@.root(),
            r.canonical(),
    {
        let (negative, code) = split(self.bits);
        if code > INFINITY_CODE {
            return Scalar::nan();
        }
        proof {
            if code < INFINITY_CODE {
                lemma_nonzero_code(code as nat);
            }
        }
        if code == 0 {
            return *self;
        }
        if negative {
            return Scalar::nan();
        }
        if code == INFINITY_CODE {
            return *self;
        }
        let (m, e) = finite_parts(code);
        root_of_parts(m, e)
    }

    /// Whether two scalars are the same number: false when either is a
    /// NaN, and true of the two zeros.
    pub fn same_number(&self, rhs: &Scalar) -> (r: bool)
        ensures
            r == self@.same_number(rhs@),
    {
        let (sa, ca) = split(self.bits);
        let (sb, cb) = split(rhs.bits);
        if ca > INFINITY_CODE || cb > INFINITY_CODE {
            return false;
        }
        proof {
            if ca < INFINITY_CODE {
                lemma_nonzero_code(ca as nat);
            }
            if cb < INFINITY_CODE {
                lemma_nonzero_code(cb as nat);
            }
            if ca < INFINITY_CODE && cb < INFINITY_CODE {
                lemma_code_units_order(ca as nat, cb as nat);
            }
        }
        if ca == 0 && cb == 0 {
            return true;
        }
        sa == sb && ca == cb
    }

    /// Whether this scalar is the smaller number: false when either is a
    /// NaN.
    pub fn less_than(&self, rhs: &Scalar) -> (r: bool)
        ensures
            r == self@.less_than(rhs@),
    {
        let (sa, ca) = split(self.bits);
        let (sb, cb) = split(rhs.bits);
        if ca > INFINITY_CODE || cb > INFINITY_CODE {
            return false;
        }
        proof {
            if ca < INFINITY_CODE {
                lemma_nonzero_code(ca as nat);
            }
            if cb < INFINITY_CODE {
                lemma_nonzero_code(cb as nat);
            }
            if ca < INFINITY_CODE && cb < INFINITY_CODE {
                lemma_code_units_order(ca as nat, cb as nat);
            }
        }
        if sa != sb {
            sa && !(ca == 0 && cb == 0)
        } else if sa {
            cb < ca
        } else {
            ca < cb
        }
    }
}

impl vstd::std_specs::cmp::PartialEqSpecImpl for Scalar {
    open spec fn obeys_eq_spec() -> bool {
        true
    }

    open spec fn eq_spec(&self, other: &Scalar) -> bool {
        self@.same_number(other@)
    }
}

impl PartialEq for Scalar {
    /// Numerical equality, as for doubles: a NaN equals nothing.
    fn eq(&self, other: &Scalar) -> (r: bool) {
        self.same_number(other)
    }
}

impl vstd::std_specs::ops::AddSpecImpl for Scalar {
    open spec fn obeys_add_spec() -> bool {
        true
    }

    open spec fn add_req(self, rhs: Scalar) -> bool {
        true
    }

    open spec fn add_spec(self, rhs: Scalar) -> Scalar {
        Scalar::of(self@.plus(rhs@))
    }
}

impl std::ops::Add for Scalar {
    type Output = Scalar;

    /// The sum of two scalars.
    fn add(self, rhs: Scalar) -> (r: Scalar)
        ensures
            r@ == self@.plus(rhs@),
    {
        let r = self.plus(&rhs);
        proof {
            r.lemma_canonical();
        }
        r
    }
}

impl vstd::std_specs::ops::SubSpecImpl for Scalar {
    open spec fn obeys_sub_spec() -> bool {
        true
    }

    open spec fn sub_req(self, rhs: Scalar) -> bool {
        true
    }

    open spec fn sub_spec(self, rhs: Scalar) -> Scalar {
        Scalar::of(self@.minus(rhs@))
    }
}

impl std::ops::Sub for Scalar {
    type Output = Scalar;

    /// The difference of two scalars.
    fn sub(self, rhs: Scalar) -> (r: Scalar)
        ensures
            r@ == self@.minus(rhs@),
    {
        let r = self.minus(&rhs);
        proof {
            r.lemma_canonical();
        }
        r
    }
}

impl vstd::std_specs::ops::MulSpecImpl for Scalar {
    open spec fn obeys_mul_spec() -> bool {
        true
    }

    open spec fn mul_req(self, rhs: Scalar) -> bool {
        true
    }

    open spec fn mul_spec(self, rhs: Scalar) -> Scalar {
        Scalar::of(self@.times(rhs@))
    }
}

impl std::ops::Mul for Scalar {
    type Output = Scalar;

    /// The product of two scalars.
    fn mul(self, rhs: Scalar) -> (r: Scalar)
        ensures
            r@ == self@.times(rhs@),
    {
        let r = self.times(&rhs);
        proof {
            r.lemma_canonical();
        }
        r
    }
}

impl vstd::std_specs::ops::DivSpecImpl for Scalar {
    open spec fn obeys_div_spec() -> bool {
        true
    }

    open spec fn div_req(self, rhs: Scalar) -> bool {
        true
    }

    open spec fn div_spec(self, rhs: Scalar) -> Scalar {
        Scalar::of(self@.over(rhs@))
    }
}

impl std::ops::Div for Scalar {
    type Output = Scalar;

    /// The quotient of two scalars.
    fn div(self, rhs: Scalar) -> (r: Scalar)
        ensures
            r@ == self@.over(rhs@),
    {
        let r = self.over(&rhs);
        proof {
            r.lemma_canonical();
        }
        r
    }
}

impl vstd::std_specs::ops::NegSpecImpl for Scalar {
    open spec fn obeys_neg_spec() -> bool {
        true
    }

    open spec fn neg_req(self) -> bool {
        true
    }

    open spec fn neg_spec(self) -> Scalar {
        self.opposite()
    }
}

impl std::ops::Neg for Scalar {
    type Output = Scalar;

    /// The same number with the opposite sign.
    fn neg(self) -> (r: Scalar)
        ensures
            r@ == self@.negated(),
    {
        self.negate()
    }
}

} // verus!
