//! Colours as three unclamped scalars, and their arithmetic.

use crate::scalar::Scalar;
use crate::value::Value;
use vstd::prelude::*;

verus! {

/// What a colour stands for: its red, green and blue values.
pub struct Triple {
    pub r: Value,
    pub g: Value,
    pub b: Value,
}

impl Triple {
    /// The sum, component by component.
    pub open spec fn plus(self, other: Triple) -> Triple {
        Triple { r: self.r.plus(other.r), g: self.g.plus(other.g), b: self.b.plus(other.b) }
    }

    /// The difference, component by component.
    pub open spec fn minus(self, other: Triple) -> Triple {
        Triple { r: self.r.minus(other.r), g: self.g.minus(other.g), b: self.b.minus(other.b) }
    }

    /// Each component times `factor`.
    pub open spec fn scaled(self, factor: Value) -> Triple {
        Triple { r: self.r.times(factor), g: self.g.times(factor), b: self.b.times(factor) }
    }

    /// The product, component by component.
    pub open spec fn times(self, other: Triple) -> Triple {
        Triple { r: self.r.times(other.r), g: self.g.times(other.g), b: self.b.times(other.b) }
    }

    /// Whether the two triples hold the same numbers, component by
    /// component.
    pub open spec fn same_numbers(self, other: Triple) -> bool {
        &&& self.r.same_number(other.r)
        &&& self.g.same_number(other.g)
        &&& self.b.same_number(other.b)
    }
}

/// Representation of a color.
#[derive(Clone, Copy, Debug)]
pub struct RGB {
    /// red component
    r: Scalar,
    /// green component
    g: Scalar,
    /// blue component
    b: Scalar,
}

impl View for RGB {
    type V = Triple;

    closed spec fn view(&self) -> Triple {
        Triple { r: self.r@, g: self.g@, b: self.b@ }
    }
}

impl RGB {
    /// Returns a new color.
    pub fn new(r: Scalar, g: Scalar, b: Scalar) -> (c: RGB)
        ensures
            c@ == (Triple { r: r@, g: g@, b: b@ }),
    {
        RGB { r, g, b }
    }

    /// The red component.
    pub fn r(&self) -> (r: Scalar)
        ensures
            r@ == self@.r,
    {
        self.r
    }

    /// The green component.
    pub fn g(&self) -> (g: Scalar)
        ensures
            g@ == self@.g,
    {
        self.g
    }

    /// The blue component.
    pub fn b(&self) -> (b: Scalar)
        ensures
            b@ == self@.b,
    {
        self.b
    }
}

impl vstd::std_specs::ops::AddSpecImpl<RGB> for RGB {
    open spec fn obeys_add_spec() -> bool {
        true
    }

    open spec fn add_req(self, rhs: RGB) -> bool {
        true
    }

    closed spec fn add_spec(self, rhs: RGB) -> RGB {
        RGB {
            r: Scalar::of(self.r@.plus(rhs.r@)),
            g: Scalar::of(self.g@.plus(rhs.g@)),
            b: Scalar::of(self.b@.plus(rhs.b@)),
        }
    }
}

impl std::ops::Add<RGB> for RGB {
    type Output = RGB;

    /// Returns the sum of two RGB colors.
    fn add(self, rhs: RGB) -> (r: RGB)
        ensures
            r@ == self@.plus(rhs@),
    {
        RGB {
            r: self.r + rhs.r,
            g: self.g + rhs.g,
            b: self.b + rhs.b,
        }
    }
}

impl vstd::std_specs::ops::SubSpecImpl<RGB> for RGB {
    open spec fn obeys_sub_spec() -> bool {
        true
    }

    open spec fn sub_req(self, rhs: RGB) -> bool {
        true
    }

    closed spec fn sub_spec(self, rhs: RGB) -> RGB {
        RGB {
            r: Scalar::of(self.r@.minus(rhs.r@)),
            g: Scalar::of(self.g@.minus(rhs.g@)),
            b: Scalar::of(self.b@.minus(rhs.b@)),
        }
    }
}

impl std::ops::Sub<RGB> for RGB {
    type Output = RGB;

    /// Returns the difference of two RGB colors.
    fn sub(self, rhs: RGB) -> (r: RGB)
        ensures
            r@ == self@.minus(rhs@),
    {
        RGB {
            r: self.r - rhs.r,
            g: self.g - rhs.g,
            b: self.b - rhs.b,
        }
    }
}

impl vstd::std_specs::ops::MulSpecImpl<Scalar> for RGB {
    open spec fn obeys_mul_spec() -> bool {
        true
    }

    open spec fn mul_req(self, rhs: Scalar) -> bool {
        true
    }

    closed spec fn mul_spec(self, rhs: Scalar) -> RGB {
        RGB {
            r: Scalar::of(self.r@.times(rhs@)),
            g: Scalar::of(self.g@.times(rhs@)),
            b: Scalar::of(self.b@.times(rhs@)),
        }
    }
}

impl std::ops::Mul<Scalar> for RGB {
    type Output = RGB;

    /// Scales the color by the given factor.
    fn mul(self, rhs: Scalar) -> (r: RGB)
        ensures
            r@ == self@.scaled(rhs@),
    {
        RGB {
            r: self.r * rhs,
            g: self.g * rhs,
            b: self.b * rhs,
        }
    }
}

impl vstd::std_specs::ops::MulSpecImpl<RGB> for RGB {
    open spec fn obeys_mul_spec() -> bool {
        true
    }

    open spec fn mul_req(self, rhs: RGB) -> bool {
        true
    }

    closed spec fn mul_spec(self, rhs: RGB) -> RGB {
        RGB {
            r: Scalar::of(self.r@.times(rhs.r@)),
            g: Scalar::of(self.g@.times(rhs.g@)),
            b: Scalar::of(self.b@.times(rhs.b@)),
        }
    }
}

impl std::ops::Mul<RGB> for RGB {
    type Output = RGB;

    /// Returns the product of two RGB colors.
    fn mul(self, rhs: RGB) -> (r: RGB)
        ensures
            r@ == self@.times(rhs@),
    {
        RGB {
            r: self.r * rhs.r,
            g: self.g * rhs.g,
            b: self.b * rhs.b,
        }
    }
}

impl vstd::std_specs::cmp::PartialEqSpecImpl for RGB {
    open spec fn obeys_eq_spec() -> bool {
        true
    }

    open spec fn eq_spec(&self, other: &RGB) -> bool {
        self@.same_numbers(other@)
    }
}

impl PartialEq for RGB {
    /// Equality of the numbers held, component by component.
    fn eq(&self, other: &RGB) -> (r: bool) {
        self.r == other.r && self.g == other.g && self.b == other.b
    }
}

} // verus!
