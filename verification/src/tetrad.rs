//! A tuple of four scalars that is a point or a vector by its fourth
//! component.

use crate::laws::{tagged_point_is_point, tagged_vector_is_vector};
use crate::quad::Quad;
use crate::scalar::Scalar;
use vstd::prelude::*;

verus! {

/// Representation for both vectors and points.
#[derive(Clone, Copy, Debug)]
pub struct Tetrad {
    /// x coordinate
    x: Scalar,
    /// y coordinate
    y: Scalar,
    /// z coordinate
    z: Scalar,
    /// w coordinate; one for points, zero for vectors
    w: Scalar,
}

impl View for Tetrad {
    type V = Quad;

    closed spec fn view(&self) -> Quad {
        Quad { x: self.x@, y: self.y@, z: self.z@, w: self.w@ }
    }
}

impl Tetrad {
    /// Returns the tetrad with the given components.
    pub fn new(x: Scalar, y: Scalar, z: Scalar, w: Scalar) -> (r: Tetrad)
        ensures
            r@ == (Quad { x: x@, y: y@, z: z@, w: w@ }),
    {
        Tetrad { x, y, z, w }
    }

    /// Returns a new point.
    pub fn point(x: Scalar, y: Scalar, z: Scalar) -> (r: Tetrad)
        ensures
            r@ == Quad::point(x@, y@, z@),
            r@.is_point(),
            !r@.is_vector(),
    {
        proof {
            tagged_point_is_point(Quad::point(x@, y@, z@));
        }
        Tetrad::new(x, y, z, Scalar::one())
    }

    /// Returns a new vector.
    pub fn vector(x: Scalar, y: Scalar, z: Scalar) -> (r: Tetrad)
        ensures
            r@ == Quad::vector(x@, y@, z@),
            r@.is_vector(),
            !r@.is_point(),
    {
        proof {
            tagged_vector_is_vector(Quad::vector(x@, y@, z@));
        }
        Tetrad::new(x, y, z, Scalar::zero())
    }

    /// The x coordinate.
    pub fn x(&self) -> (r: Scalar)
        ensures
            r@ == self@.x,
    {
        self.x
    }

    /// The y coordinate.
    pub fn y(&self) -> (r: Scalar)
        ensures
            r@ == self@.y,
    {
        self.y
    }

    /// The z coordinate.
    pub fn z(&self) -> (r: Scalar)
        ensures
            r@ == self@.z,
    {
        self.z
    }

    /// The w coordinate.
    pub fn w(&self) -> (r: Scalar)
        ensures
            r@ == self@.w,
    {
        self.w
    }

    /// Returns `true` if tetrad is a point, `false` otherwise.
    pub fn is_point(&self) -> (r: bool)
        ensures
            r == self@.is_point(),
    {
        (self.w - Scalar::one()).abs().less_than(&Scalar::epsilon())
    }

    /// Returns `true` if tetrad is a vector, `false` otherwise.
    pub fn is_vector(&self) -> (r: bool)
        ensures
            r == self@.is_vector(),
    {
        (self.w - Scalar::zero()).abs().less_than(&Scalar::epsilon())
    }

    /// Returns a new tetrad scaled by the factor.
    pub fn scale(&self, factor: Scalar) -> (r: Tetrad)
        ensures
            r@ == self@.scaled(factor@),
    {
        Tetrad::new(self.x * factor, self.y * factor, self.z * factor, self.w * factor)
    }

    /// Returns a new tetrad scaled by the inverse of the factor.
    pub fn scale_inverse(&self, factor: Scalar) -> (r: Tetrad)
        ensures
            r@ == self@.divided(factor@),
    {
        Tetrad::new(self.x / factor, self.y / factor, self.z / factor, self.w / factor)
    }

    /// Returns the magnitude of a vector.
    pub fn magnitude(&self) -> (r: Scalar)
        ensures
            r@ == self@.length(),
    {
        (self.x * self.x + self.y * self.y + self.z * self.z + self.w * self.w).sqrt()
    }

    /// Returns a normal version of a vector.
    pub fn normalize(&self) -> (r: Tetrad)
        ensures
            r@ == self@.unit(),
    {
        self.scale_inverse(self.magnitude())
    }

    /// Returns the dot product of two vectors.
    pub fn dot(&self, rhs: &Tetrad) -> (r: Scalar)
        ensures
            r@ == self@.dot(rhs@),
    {
        self.x * rhs.x + self.y * rhs.y + self.z * rhs.z + self.w * rhs.w
    }

    /// Returns the cross product of two vectors in a left-handed
    /// coordinate system.
    pub fn cross(&self, rhs: &Tetrad) -> (r: Tetrad)
        ensures
            r@ == self@.cross(rhs@),
    {
        Tetrad::vector(
            self.y * rhs.z - self.z * rhs.y,
            self.z * rhs.x - self.x * rhs.z,
            self.x * rhs.y - self.y * rhs.x,
        )
    }
}

impl vstd::std_specs::ops::AddSpecImpl<Tetrad> for Tetrad {
    open spec fn obeys_add_spec() -> bool {
        true
    }

    open spec fn add_req(self, rhs: Tetrad) -> bool {
        true
    }

    closed spec fn add_spec(self, rhs: Tetrad) -> Tetrad {
        Tetrad {
            x: Scalar::of(self.x@.plus(rhs.x@)),
            y: Scalar::of(self.y@.plus(rhs.y@)),
            z: Scalar::of(self.z@.plus(rhs.z@)),
            w: Scalar::of(self.w@.plus(rhs.w@)),
        }
    }
}

impl std::ops::Add<Tetrad> for Tetrad {
    type Output = Tetrad;

    /// Returns the sum of two tetrads.
    fn add(self, rhs: Tetrad) -> (r: Tetrad)
        ensures
            r@ == self@.plus(rhs@),
    {
        Tetrad {
            x: self.x + rhs.x,
            y: self.y + rhs.y,
            z: self.z + rhs.z,
            w: self.w + rhs.w,
        }
    }
}

impl vstd::std_specs::ops::NegSpecImpl for Tetrad {
    open spec fn obeys_neg_spec() -> bool {
        true
    }

    open spec fn neg_req(self) -> bool {
        true
    }

    closed spec fn neg_spec(self) -> Tetrad {
        Tetrad {
            x: self.x.opposite(),
            y: self.y.opposite(),
            z: self.z.opposite(),
            w: self.w.opposite(),
        }
    }
}

impl std::ops::Neg for Tetrad {
    type Output = Tetrad;

    /// Returns the opposite of a tetrad.
    fn neg(self) -> (r: Tetrad)
        ensures
            r@ == self@.negated(),
    {
        Tetrad {
            x: self.x.negate(),
            y: self.y.negate(),
            z: self.z.negate(),
            w: self.w.negate(),
        }
    }
}

impl vstd::std_specs::ops::SubSpecImpl<Tetrad> for Tetrad {
    open spec fn obeys_sub_spec() -> bool {
        true
    }

    open spec fn sub_req(self, rhs: Tetrad) -> bool {
        true
    }

    closed spec fn sub_spec(self, rhs: Tetrad) -> Tetrad {
        Tetrad {
            x: Scalar::of(self.x@.minus(rhs.x@)),
            y: Scalar::of(self.y@.minus(rhs.y@)),
            z: Scalar::of(self.z@.minus(rhs.z@)),
            w: Scalar::of(self.w@.minus(rhs.w@)),
        }
    }
}

impl std::ops::Sub<Tetrad> for Tetrad {
    type Output = Tetrad;

    /// Returns the difference of two tetrads.
    fn sub(self, rhs: Tetrad) -> (r: Tetrad)
        ensures
            r@ == self@.minus(rhs@),
    {
        Tetrad {
            x: self.x - rhs.x,
            y: self.y - rhs.y,
            z: self.z - rhs.z,
            w: self.w - rhs.w,
        }
    }
}

impl vstd::std_specs::cmp::PartialEqSpecImpl for Tetrad {
    open spec fn obeys_eq_spec() -> bool {
        true
    }

    open spec fn eq_spec(&self, other: &Tetrad) -> bool {
        self@.same_numbers(other@)
    }
}

impl PartialEq for Tetrad {
    /// Equality of the numbers held, component by component.
    fn eq(&self, other: &Tetrad) -> (r: bool) {
        self.x == other.x && self.y == other.y && self.z == other.z && self.w == other.w
    }
}

} // verus!
