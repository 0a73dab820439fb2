//! The mathematical model of a double-precision scalar.
//!
//! Every finite double is an integer multiple of 2^-1074, the smallest
//! positive subnormal.  The model therefore measures a finite magnitude in
//! that unit, as a natural number, and keeps the sign apart so that the two
//! zeros stay distinct.

use crate::root::round_root;
use crate::rounding::{quantum_exponent, round_ratio};
use vstd::arithmetic::power2::pow2;
use vstd::prelude::*;

verus! {

/// The weight of the implicit leading bit of a normal significand, 2^52.
pub const HIDDEN_BIT: u64 = 0x0010_0000_0000_0000;

/// The least integer a 53-bit significand cannot hold, 2^53.
pub const SIGNIFICAND_LIMIT: u64 = 0x0020_0000_0000_0000;

/// The encoding of positive infinity; every larger magnitude encodes a NaN.
pub const INFINITY_CODE: u64 = 0x7FF0_0000_0000_0000;

/// The sign bit of an encoding.
pub const SIGN_BIT: u64 = 0x8000_0000_0000_0000;

/// The NaN that the arithmetic produces.
pub const QUIET_NAN: u64 = 0x7FF8_0000_0000_0000;

/// The encoding of one.
pub const ONE: u64 = 0x3FF0_0000_0000_0000;

/// The encoding of the machine epsilon, 2^-52.
pub const EPSILON: u64 = 0x3CB0_0000_0000_0000;

/// What a double-precision scalar stands for.
pub enum Value {
    /// Not a number; payloads are not told apart.
    Nan,
    /// An infinity of the given sign.
    Infinite { negative: bool },
    /// A finite number of the given sign whose magnitude is `units` * 2^-1074.
    Finite { negative: bool, units: nat },
}

impl Value {
    /// Positive zero.
    pub open spec fn zero() -> Value {
        Value::Finite { negative: false, units: 0 }
    }

    /// The number one, which is 2^1074 units.
    pub open spec fn one() -> Value {
        Value::Finite { negative: false, units: pow2(1074) }
    }

    /// The distance from one to the next larger double, 2^-52.
    pub open spec fn epsilon() -> Value {
        Value::Finite { negative: false, units: pow2(1022) }
    }

    /// Whether this is no number.
    pub open spec fn is_nan(self) -> bool {
        self is Nan
    }

    /// Whether this is a finite number.
    pub open spec fn is_finite(self) -> bool {
        self is Finite
    }

    /// Whether this is one of the two zeros.
    pub open spec fn is_zero(self) -> bool {
        self matches Value::Finite { units, .. } && units == 0
    }

    /// The sign; a NaN counts as not negative.
    pub open spec fn is_negative(self) -> bool {
        match self {
            Value::Nan => false,
            Value::Infinite { negative } => negative,
            Value::Finite { negative, .. } => negative,
        }
    }

    /// The magnitude of a finite value in units, and zero for the others.
    pub open spec fn magnitude(self) -> nat {
        match self {
            Value::Finite { units, .. } => units,
            _ => 0,
        }
    }

    /// The finite value as a signed number of units.
    pub open spec fn signed_units(self) -> int {
        if self.is_negative() {
            -(self.magnitude() as int)
        } else {
            self.magnitude() as int
        }
    }

    /// The same value with the opposite sign.
    pub open spec fn negated(self) -> Value {
        match self {
            Value::Nan => Value::Nan,
            Value::Infinite { negative } => Value::Infinite { negative: !negative },
            Value::Finite { negative, units } => Value::Finite { negative: !negative, units },
        }
    }

    /// The same value with the sign cleared.
    pub open spec fn absolute(self) -> Value {
        match self {
            Value::Nan => Value::Nan,
            Value::Infinite { .. } => Value::Infinite { negative: false },
            Value::Finite { units, .. } => Value::Finite { negative: false, units },
        }
    }

    /// Whether some encoding stands for this value.
    pub open spec fn is_double(self) -> bool {
        exists|bits: u64| decode(bits) == self
    }

    /// Whether the sum of the two values is finite and free of rounding.
    pub open spec fn adds_exactly(self, other: Value) -> bool {
        &&& self.is_finite()
        &&& other.is_finite()
        &&& self.plus(other).is_finite()
        &&& self.plus(other).signed_units() == self.signed_units() + other.signed_units()
    }

    /// Whether the difference of the two values is finite and free of
    /// rounding.
    pub open spec fn subtracts_exactly(self, other: Value) -> bool {
        self.adds_exactly(other.negated())
    }

    /// Numerical equality: a NaN equals nothing, and the two zeros are equal.
    pub open spec fn same_number(self, other: Value) -> bool {
        !self.is_nan() && !other.is_nan() && (self == other || (self.is_zero()
            && other.is_zero()))
    }

    /// Numerical order: false whenever a NaN takes part.
    pub open spec fn less_than(self, other: Value) -> bool {
        match (self, other) {
            (Value::Nan, _) => false,
            (_, Value::Nan) => false,
            (Value::Infinite { negative: s }, Value::Infinite { negative: t }) => s && !t,
            (Value::Infinite { negative }, Value::Finite { .. }) => negative,
            (Value::Finite { .. }, Value::Infinite { negative }) => !negative,
            (Value::Finite { .. }, Value::Finite { .. }) => self.signed_units()
                < other.signed_units(),
        }
    }
}

impl Value {
    /// The sum: the exact sum of two finite values, rounded.  An exact sum
    /// of zero is negative only when both terms are.
    pub open spec fn plus(self, other: Value) -> Value {
        match (self, other) {
            (Value::Nan, _) => Value::Nan,
            (_, Value::Nan) => Value::Nan,
            (Value::Infinite { negative: s }, Value::Infinite { negative: t }) => if s == t {
                self
            } else {
                Value::Nan
            },
            (Value::Infinite { .. }, Value::Finite { .. }) => self,
            (Value::Finite { .. }, Value::Infinite { .. }) => other,
            (Value::Finite { negative: s, .. }, Value::Finite { negative: t, .. }) => {
                let exact = self.signed_units() + other.signed_units();
                if exact == 0 {
                    Value::Finite { negative: s && t, units: 0 }
                } else if exact < 0 {
                    round_ratio(true, (-exact) as nat, 1)
                } else {
                    round_ratio(false, exact as nat, 1)
                }
            },
        }
    }

    /// The difference: the sum with the second term negated.
    pub open spec fn minus(self, other: Value) -> Value {
        self.plus(other.negated())
    }

    /// The product: the exact product of two finite values, rounded.  The
    /// product of two magnitudes in units is 2^1074 times too large.
    pub open spec fn times(self, other: Value) -> Value {
        match (self, other) {
            (Value::Nan, _) => Value::Nan,
            (_, Value::Nan) => Value::Nan,
            (Value::Infinite { negative: s }, Value::Infinite { negative: t }) => Value::Infinite {
                negative: s != t,
            },
            (Value::Infinite { negative: s }, Value::Finite { negative: t, units }) => if units
                == 0 {
                Value::Nan
            } else {
                Value::Infinite { negative: s != t }
            },
            (Value::Finite { negative: s, units }, Value::Infinite { negative: t }) => if units
                == 0 {
                Value::Nan
            } else {
                Value::Infinite { negative: s != t }
            },
            (
                Value::Finite { negative: s, units: x },
                Value::Finite { negative: t, units: y },
            ) => round_ratio(s != t, x * y, pow2(1074)),
        }
    }

    /// The quotient: the exact quotient of two finite values, rounded.
    /// Zero over zero is no number; anything else over zero is infinite.
    pub open spec fn over(self, other: Value) -> Value {
        match (self, other) {
            (Value::Nan, _) => Value::Nan,
            (_, Value::Nan) => Value::Nan,
            (Value::Infinite { .. }, Value::Infinite { .. }) => Value::Nan,
            (Value::Infinite { negative: s }, Value::Finite { negative: t, .. }) => {
                Value::Infinite { negative: s != t }
            },
            (Value::Finite { negative: s, .. }, Value::Infinite { negative: t }) => Value::Finite {
                negative: s != t,
                units: 0,
            },
            (
                Value::Finite { negative: s, units: x },
                Value::Finite { negative: t, units: y },
            ) => if y == 0 {
                if x == 0 {
                    Value::Nan
                } else {
                    Value::Infinite { negative: s != t }
                }
            } else {
                round_ratio(s != t, x * pow2(1074), y)
            },
        }
    }

    /// The square root, rounded: no number for what lies below zero, and
    /// each zero for itself.
    pub open spec fn root(self) -> Value {
        match self {
            Value::Nan => Value::Nan,
            Value::Infinite { negative } => if negative {
                Value::Nan
            } else {
                self
            },
            Value::Finite { negative, units } => if units == 0 {
                self
            } else if negative {
                Value::Nan
            } else {
                round_root(units * pow2(1074))
            },
        }
    }
}

/// The magnitude, in units, that the sign-free encoding `code` of a finite
/// double stands for: the fraction alone in the subnormal range, and the
/// significand with its hidden bit, scaled by the exponent, above it.
pub open spec fn code_units(code: nat) -> nat {
    let exponent = code / (HIDDEN_BIT as nat);
    let fraction = code % (HIDDEN_BIT as nat);
    if exponent == 0 {
        fraction
    } else {
        (HIDDEN_BIT + fraction) as nat * pow2((exponent - 1) as nat)
    }
}

/// The value that a 64-bit encoding stands for.
pub open spec fn decode(bits: u64) -> Value {
    let negative = bits >= SIGN_BIT;
    let code = if negative {
        (bits - SIGN_BIT) as nat
    } else {
        bits as nat
    };
    if code > INFINITY_CODE {
        Value::Nan
    } else if code == INFINITY_CODE {
        Value::Infinite { negative }
    } else {
        Value::Finite { negative, units: code_units(code) }
    }
}

/// The sign-free encoding of the double with the given magnitude: the
/// exponent of its spacing in the upper bits, and the number of spacings
/// added to them.
pub open spec fn code_of(units: nat) -> nat {
    let exponent = quantum_exponent(units, 1);
    (exponent * HIDDEN_BIT + units / pow2(exponent)) as nat
}

/// The encoding of a value that is a double; of the NaNs, the one that the
/// arithmetic produces.
pub open spec fn encode(v: Value) -> u64 {
    match v {
        Value::Nan => QUIET_NAN,
        Value::Infinite { negative } => if negative {
            (INFINITY_CODE + SIGN_BIT) as u64
        } else {
            INFINITY_CODE
        },
        Value::Finite { negative, units } => if negative {
            (code_of(units) + SIGN_BIT) as u64
        } else {
            code_of(units) as u64
        },
    }
}

} // verus!
