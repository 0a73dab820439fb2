//! The mathematical model of a tuple of four scalars, which is what a
//! point, a vector and a tetrad stand for.

use crate::value::Value;
use vstd::prelude::*;

verus! {

/// Four values: three coordinates, and the component that tells points
/// (one) from vectors (zero).
pub struct Quad {
    pub x: Value,
    pub y: Value,
    pub z: Value,
    pub w: Value,
}

impl Quad {
    /// The point with the given coordinates.
    pub open spec fn point(x: Value, y: Value, z: Value) -> Quad {
        Quad { x, y, z, w: Value::one() }
    }

    /// The vector with the given coordinates.
    pub open spec fn vector(x: Value, y: Value, z: Value) -> Quad {
        Quad { x, y, z, w: Value::zero() }
    }

    /// The point with the coordinates of this tuple.
    pub open spec fn as_point(self) -> Quad {
        Quad::point(self.x, self.y, self.z)
    }

    /// The vector with the coordinates of this tuple.
    pub open spec fn as_vector(self) -> Quad {
        Quad::vector(self.x, self.y, self.z)
    }

    /// Whether the fourth component is exactly one.
    pub open spec fn tagged_point(self) -> bool {
        self.w == Value::one()
    }

    /// Whether the fourth component is exactly positive zero.
    pub open spec fn tagged_vector(self) -> bool {
        self.w == Value::zero()
    }

    /// Whether the fourth component is less than the machine epsilon away
    /// from one.
    pub open spec fn is_point(self) -> bool {
        self.w.minus(Value::one()).absolute().less_than(Value::epsilon())
    }

    /// Whether the fourth component is less than the machine epsilon away
    /// from zero.
    pub open spec fn is_vector(self) -> bool {
        self.w.minus(Value::zero()).absolute().less_than(Value::epsilon())
    }

    /// The sum, component by component.
    pub open spec fn plus(self, other: Quad) -> Quad {
        Quad {
            x: self.x.plus(other.x),
            y: self.y.plus(other.y),
            z: self.z.plus(other.z),
            w: self.w.plus(other.w),
        }
    }

    /// The difference, component by component.
    pub open spec fn minus(self, other: Quad) -> Quad {
        Quad {
            x: self.x.minus(other.x),
            y: self.y.minus(other.y),
            z: self.z.minus(other.z),
            w: self.w.minus(other.w),
        }
    }

    /// The opposite, component by component.
    pub open spec fn negated(self) -> Quad {
        Quad {
            x: self.x.negated(),
            y: self.y.negated(),
            z: self.z.negated(),
            w: self.w.negated(),
        }
    }

    /// Each component times `factor`.
    pub open spec fn scaled(self, factor: Value) -> Quad {
        Quad {
            x: self.x.times(factor),
            y: self.y.times(factor),
            z: self.z.times(factor),
            w: self.w.times(factor),
        }
    }

    /// Each component over `factor`.
    pub open spec fn divided(self, factor: Value) -> Quad {
        Quad {
            x: self.x.over(factor),
            y: self.y.over(factor),
            z: self.z.over(factor),
            w: self.w.over(factor),
        }
    }

    /// The dot product over all four components, summed from the left.
    pub open spec fn dot(self, other: Quad) -> Value {
        self.x.times(other.x).plus(self.y.times(other.y)).plus(self.z.times(other.z)).plus(
            self.w.times(other.w),
        )
    }

    /// The cross product of the coordinates, which is a vector whatever
    /// the fourth components are.
    pub open spec fn cross(self, other: Quad) -> Quad {
        Quad::vector(
            self.y.times(other.z).minus(self.z.times(other.y)),
            self.z.times(other.x).minus(self.x.times(other.z)),
            self.x.times(other.y).minus(self.y.times(other.x)),
        )
    }

    /// The Euclidean norm over all four components.
    pub open spec fn length(self) -> Value {
        self.dot(self).root()
    }

    /// The tuple over its own length.
    pub open spec fn unit(self) -> Quad {
        self.divided(self.length())
    }

    /// Whether the two tuples hold the same numbers, component by
    /// component.
    pub open spec fn same_numbers(self, other: Quad) -> bool {
        &&& self.x.same_number(other.x)
        &&& self.y.same_number(other.y)
        &&& self.z.same_number(other.z)
        &&& self.w.same_number(other.w)
    }

    /// Whether each component is a double.
    pub open spec fn is_encoded(self) -> bool {
        self.x.is_double() && self.y.is_double() && self.z.is_double() && self.w.is_double()
    }

    /// Whether the sum with `other` is free of rounding in each coordinate.
    pub open spec fn adds_exactly(self, other: Quad) -> bool {
        &&& self.x.adds_exactly(other.x)
        &&& self.y.adds_exactly(other.y)
        &&& self.z.adds_exactly(other.z)
    }

    /// Whether the difference from `other` is free of rounding in each
    /// coordinate.
    pub open spec fn subtracts_exactly(self, other: Quad) -> bool {
        &&& self.x.subtracts_exactly(other.x)
        &&& self.y.subtracts_exactly(other.y)
        &&& self.z.subtracts_exactly(other.z)
    }

    /// Whether some component is a NaN.
    pub open spec fn has_nan(self) -> bool {
        self.x.is_nan() || self.y.is_nan() || self.z.is_nan() || self.w.is_nan()
    }
}

} // verus!
