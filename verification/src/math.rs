//! Points and vectors as two types, so that only the operations that mean
//! something between them exist.

use crate::quad::Quad;
use crate::scalar::Scalar;
use crate::value::{decode, Value, ONE};
use std::ops::Div;
use vstd::prelude::*;

verus! {

/// Representation of a point.
#[derive(Clone, Copy, Debug)]
pub struct Point {
    /// x coordinate
    x: Scalar,
    /// y coordinate
    y: Scalar,
    /// z coordinate
    z: Scalar,
    /// w coordinate; always one
    w: Scalar,
}

/// Representation of a vector.
#[derive(Clone, Copy, Debug)]
pub struct Vector {
    /// x coordinate
    x: Scalar,
    /// y coordinate
    y: Scalar,
    /// z coordinate
    z: Scalar,
    /// w coordinate; always zero
    w: Scalar,
}

impl View for Point {
    type V = Quad;

    closed spec fn view(&self) -> Quad {
        Quad { x: self.x@, y: self.y@, z: self.z@, w: self.w@ }
    }
}

impl View for Vector {
    type V = Quad;

    closed spec fn view(&self) -> Quad {
        Quad { x: self.x@, y: self.y@, z: self.z@, w: self.w@ }
    }
}

impl Point {
    /// The fourth component of a point is one.
    #[verifier::type_invariant]
    spec fn well_formed(&self) -> bool {
        self.w@ == Value::one()
    }

    /// Whether this is a point as the constructors make them: every
    /// coordinate a double, and the fourth component one.
    pub open spec fn valid(&self) -> bool {
        self@.is_encoded() && self@.tagged_point()
    }

    /// Every coordinate of a point is a double.
    pub proof fn lemma_encoded(self)
        ensures
            self@.x.is_double(),
            self@.y.is_double(),
            self@.z.is_double(),
            self@.w.is_double(),
    {
        assert(decode(self.x.bits) == self@.x);
        assert(decode(self.y.bits) == self@.y);
        assert(decode(self.z.bits) == self@.z);
        assert(decode(self.w.bits) == self@.w);
    }

    /// Returns a new point.
    pub fn new(x: Scalar, y: Scalar, z: Scalar) -> (r: Point)
        ensures
            r@ == Quad::point(x@, y@, z@),
    {
        Point { x, y, z, w: Scalar::one() }
    }

    /// The x coordinate.
    pub fn x(&self) -> (r: Scalar)
        ensures
            r@ == self@.x,
    {
        self.x
    }

    /// The y coordinate.
    pub fn y(&self) -> (r: Scalar)
        ensures
            r@ == self@.y,
    {
        self.y
    }

    /// The z coordinate.
    pub fn z(&self) -> (r: Scalar)
        ensures
            r@ == self@.z,
    {
        self.z
    }

    /// The w coordinate, which is one.
    pub fn w(&self) -> (r: Scalar)
        ensures
            r@ == self@.w,
            self@.tagged_point(),
    {
        proof {
            use_type_invariant(self);
        }
        self.w
    }
}

impl Vector {
    /// The fourth component of a vector is zero.
    #[verifier::type_invariant]
    spec fn well_formed(&self) -> bool {
        self.w@ == Value::zero()
    }

    /// Whether this is a vector as the constructors make them: every
    /// coordinate a double, and the fourth component zero.
    pub open spec fn valid(&self) -> bool {
        self@.is_encoded() && self@.tagged_vector()
    }

    /// Every coordinate of a vector is a double.
    pub proof fn lemma_encoded(self)
        ensures
            self@.x.is_double(),
            self@.y.is_double(),
            self@.z.is_double(),
            self@.w.is_double(),
    {
        assert(decode(self.x.bits) == self@.x);
        assert(decode(self.y.bits) == self@.y);
        assert(decode(self.z.bits) == self@.z);
        assert(decode(self.w.bits) == self@.w);
    }

    /// Returns a new vector.
    pub fn new(x: Scalar, y: Scalar, z: Scalar) -> (r: Vector)
        ensures
            r@ == Quad::vector(x@, y@, z@),
    {
        Vector { x, y, z, w: Scalar::zero() }
    }

    /// The x coordinate.
    pub fn x(&self) -> (r: Scalar)
        ensures
            r@ == self@.x,
    {
        self.x
    }

    /// The y coordinate.
    pub fn y(&self) -> (r: Scalar)
        ensures
            r@ == self@.y,
    {
        self.y
    }

    /// The z coordinate.
    pub fn z(&self) -> (r: Scalar)
        ensures
            r@ == self@.z,
    {
        self.z
    }

    /// The w coordinate, which is zero.
    pub fn w(&self) -> (r: Scalar)
        ensures
            r@ == self@.w,
            self@.tagged_vector(),
    {
        proof {
            use_type_invariant(self);
        }
        self.w
    }

    /// Returns the magnitude of a vector.
    pub fn magnitude(&self) -> (r: Scalar)
        ensures
            r@ == self@.length(),
    {
        (self.x * self.x + self.y * self.y + self.z * self.z + self.w * self.w).sqrt()
    }

    /// Returns a normal version of a vector.
    pub fn normalize(&self) -> (r: Vector)
        ensures
            r@ == self@.unit().as_vector(),
    {
        self.div(self.magnitude())
    }

    /// Returns the dot product of two vectors.
    pub fn dot(&self, rhs: &Vector) -> (r: Scalar)
        ensures
            r@ == self@.dot(rhs@),
    {
        self.x * rhs.x + self.y * rhs.y + self.z * rhs.z + self.w * rhs.w
    }

    /// Returns the cross product of two vectors in a left-handed
    /// coordinate system.
    pub fn cross(&self, rhs: &Vector) -> (r: Vector)
        ensures
            r@ == self@.cross(rhs@),
    {
        Vector::new(
            self.y * rhs.z - self.z * rhs.y,
            self.z * rhs.x - self.x * rhs.z,
            self.x * rhs.y - self.y * rhs.x,
        )
    }
}

impl vstd::std_specs::ops::AddSpecImpl<Vector> for Vector {
    open spec fn obeys_add_spec() -> bool {
        true
    }

    open spec fn add_req(self, rhs: Vector) -> bool {
        true
    }

    closed spec fn add_spec(self, rhs: Vector) -> Vector {
        Vector {
            x: Scalar::of(self.x@.plus(rhs.x@)),
            y: Scalar::of(self.y@.plus(rhs.y@)),
            z: Scalar::of(self.z@.plus(rhs.z@)),
            w: Scalar { bits: 0 },
        }
    }
}

impl std::ops::Add<Vector> for Vector {
    type Output = Vector;

    /// Returns the sum of two vectors.
    fn add(self, rhs: Vector) -> (r: Vector)
        ensures
            r@ == self@.plus(rhs@).as_vector(),
    {
        Vector {
            x: self.x + rhs.x,
            y: self.y + rhs.y,
            z: self.z + rhs.z,
            w: Scalar::zero(),
        }
    }
}

impl vstd::std_specs::ops::AddSpecImpl<Vector> for Point {
    open spec fn obeys_add_spec() -> bool {
        true
    }

    open spec fn add_req(self, rhs: Vector) -> bool {
        true
    }

    closed spec fn add_spec(self, rhs: Vector) -> Point {
        Point {
            x: Scalar::of(self.x@.plus(rhs.x@)),
            y: Scalar::of(self.y@.plus(rhs.y@)),
            z: Scalar::of(self.z@.plus(rhs.z@)),
            w: Scalar { bits: ONE },
        }
    }
}

impl std::ops::Add<Vector> for Point {
    type Output = Point;

    /// Returns the sum of a point and a vector.
    fn add(self, rhs: Vector) -> (r: Point)
        ensures
            r@ == self@.plus(rhs@).as_point(),
    {
        Point {
            x: self.x + rhs.x,
            y: self.y + rhs.y,
            z: self.z + rhs.z,
            w: Scalar::one(),
        }
    }
}

impl vstd::std_specs::ops::DivSpecImpl<Scalar> for &Vector {
    open spec fn obeys_div_spec() -> bool {
        true
    }

    open spec fn div_req(self, rhs: Scalar) -> bool {
        true
    }

    closed spec fn div_spec(self, rhs: Scalar) -> Vector {
        Vector {
            x: Scalar::of(self.x@.over(rhs@)),
            y: Scalar::of(self.y@.over(rhs@)),
            z: Scalar::of(self.z@.over(rhs@)),
            w: Scalar { bits: 0 },
        }
    }
}

impl std::ops::Div<Scalar> for &Vector {
    type Output = Vector;

    /// Returns a new vector scaled by the inverse of the factor.
    fn div(self, rhs: Scalar) -> (r: Vector)
        ensures
            r@ == self@.divided(rhs@).as_vector(),
    {
        Vector {
            x: self.x / rhs,
            y: self.y / rhs,
            z: self.z / rhs,
            w: Scalar::zero(),
        }
    }
}

impl vstd::std_specs::ops::MulSpecImpl<Scalar> for &Vector {
    open spec fn obeys_mul_spec() -> bool {
        true
    }

    open spec fn mul_req(self, rhs: Scalar) -> bool {
        true
    }

    closed spec fn mul_spec(self, rhs: Scalar) -> Vector {
        Vector {
            x: Scalar::of(self.x@.times(rhs@)),
            y: Scalar::of(self.y@.times(rhs@)),
            z: Scalar::of(self.z@.times(rhs@)),
            w: Scalar { bits: 0 },
        }
    }
}

impl std::ops::Mul<Scalar> for &Vector {
    type Output = Vector;

    /// Returns a new vector scaled by the factor.
    fn mul(self, rhs: Scalar) -> (r: Vector)
        ensures
            r@ == self@.scaled(rhs@).as_vector(),
    {
        Vector {
            x: self.x * rhs,
            y: self.y * rhs,
            z: self.z * rhs,
            w: Scalar::zero(),
        }
    }
}

impl vstd::std_specs::ops::NegSpecImpl for Vector {
    open spec fn obeys_neg_spec() -> bool {
        true
    }

    open spec fn neg_req(self) -> bool {
        true
    }

    closed spec fn neg_spec(self) -> Vector {
        Vector {
            x: self.x.opposite(),
            y: self.y.opposite(),
            z: self.z.opposite(),
            w: Scalar { bits: 0 },
        }
    }
}

impl std::ops::Neg for Vector {
    type Output = Vector;

    /// Returns the negation of a vector.
    fn neg(self) -> (r: Vector)
        ensures
            r@ == self@.negated().as_vector(),
    {
        Vector {
            x: self.x.negate(),
            y: self.y.negate(),
            z: self.z.negate(),
            w: Scalar::zero(),
        }
    }
}

impl vstd::std_specs::ops::SubSpecImpl<Point> for Point {
    open spec fn obeys_sub_spec() -> bool {
        true
    }

    open spec fn sub_req(self, rhs: Point) -> bool {
        true
    }

    closed spec fn sub_spec(self, rhs: Point) -> Vector {
        Vector {
            x: Scalar::of(self.x@.minus(rhs.x@)),
            y: Scalar::of(self.y@.minus(rhs.y@)),
            z: Scalar::of(self.z@.minus(rhs.z@)),
            w: Scalar { bits: 0 },
        }
    }
}

impl std::ops::Sub<Point> for Point {
    type Output = Vector;

    /// Returns the vector from the second point to the first.
    fn sub(self, rhs: Point) -> (r: Vector)
        ensures
            r@ == self@.minus(rhs@).as_vector(),
    {
        Vector {
            x: self.x - rhs.x,
            y: self.y - rhs.y,
            z: self.z - rhs.z,
            w: Scalar::zero(),
        }
    }
}

impl vstd::std_specs::ops::SubSpecImpl<Vector> for Point {
    open spec fn obeys_sub_spec() -> bool {
        true
    }

    open spec fn sub_req(self, rhs: Vector) -> bool {
        true
    }

    closed spec fn sub_spec(self, rhs: Vector) -> Point {
        Point {
            x: Scalar::of(self.x@.minus(rhs.x@)),
            y: Scalar::of(self.y@.minus(rhs.y@)),
            z: Scalar::of(self.z@.minus(rhs.z@)),
            w: Scalar { bits: ONE },
        }
    }
}

impl std::ops::Sub<Vector> for Point {
    type Output = Point;

    /// Returns the point that the vector leads to this point from.
    fn sub(self, rhs: Vector) -> (r: Point)
        ensures
            r@ == self@.minus(rhs@).as_point(),
    {
        Point {
            x: self.x - rhs.x,
            y: self.y - rhs.y,
            z: self.z - rhs.z,
            w: Scalar::one(),
        }
    }
}

impl vstd::std_specs::ops::SubSpecImpl<Vector> for Vector {
    open spec fn obeys_sub_spec() -> bool {
        true
    }

    open spec fn sub_req(self, rhs: Vector) -> bool {
        true
    }

    closed spec fn sub_spec(self, rhs: Vector) -> Vector {
        Vector {
            x: Scalar::of(self.x@.minus(rhs.x@)),
            y: Scalar::of(self.y@.minus(rhs.y@)),
            z: Scalar::of(self.z@.minus(rhs.z@)),
            w: Scalar { bits: 0 },
        }
    }
}

impl std::ops::Sub<Vector> for Vector {
    type Output = Vector;

    /// Returns the difference of two vectors.
    fn sub(self, rhs: Vector) -> (r: Vector)
        ensures
            r@ == self@.minus(rhs@).as_vector(),
    {
        Vector {
            x: self.x - rhs.x,
            y: self.y - rhs.y,
            z: self.z - rhs.z,
            w: Scalar::zero(),
        }
    }
}

impl vstd::std_specs::cmp::PartialEqSpecImpl for Point {
    open spec fn obeys_eq_spec() -> bool {
        true
    }

    open spec fn eq_spec(&self, other: &Point) -> bool {
        self@.same_numbers(other@)
    }
}

impl PartialEq for Point {
    /// Equality of the numbers held, component by component.
    fn eq(&self, other: &Point) -> (r: bool) {
        self.x == other.x && self.y == other.y && self.z == other.z && self.w == other.w
    }
}

impl vstd::std_specs::cmp::PartialEqSpecImpl for Vector {
    open spec fn obeys_eq_spec() -> bool {
        true
    }

    open spec fn eq_spec(&self, other: &Vector) -> bool {
        self@.same_numbers(other@)
    }
}

impl PartialEq for Vector {
    /// Equality of the numbers held, component by component.
    fn eq(&self, other: &Vector) -> (r: bool) {
        self.x == other.x && self.y == other.y && self.z == other.z && self.w == other.w
    }
}

} // verus!
