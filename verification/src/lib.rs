//! Homogeneous-coordinate arithmetic for a ray tracer.
//!
//! Points, vectors and colours are small aggregates of double-precision
//! scalars.  A scalar is held as its IEEE-754 binary64 encoding and every
//! operation on it is carried out on integers, so that each result can be
//! stated, and proved, as the correctly rounded value of the exact result.
//!
//! How the contracts read:
//!
//! - [`Value`] is what a scalar stands for: a NaN, an infinity, or a sign
//!   and a magnitude counted in units of 2^-1074, of which every finite
//!   double is a whole number.  The view of a [`Scalar`] is the value that
//!   its encoding decodes to.
//! - The sum, difference, product, quotient and root of values are defined
//!   in `value` as the exact result, rounded; `rounding` and `root` say
//!   what the rounding is, and `nearest` proves that it is to the nearest
//!   double, ties to the even significand.
//! - [`Quad`] is what a point, a vector or a tetrad stands for, and
//!   `color::Triple` what a colour stands for.  Each operation of the
//!   aggregates gives the view of its result over the views of its
//!   arguments.
//! - `laws` holds what is true of the operations for all arguments, and
//!   `norm` that a normalised vector has a magnitude of one, to within
//!   four machine epsilons; `error` bounds the error of one rounding.

pub mod codes;
pub mod color;
pub mod encode;
pub mod error;
pub mod laws;
pub mod math;
pub mod nearest;
pub mod norm;
pub mod quad;
pub mod quotient;
pub mod root;
pub mod rounding;
pub mod scalar;
pub mod sum;
pub mod tetrad;
pub mod value;

pub use quad::Quad;
pub use scalar::Scalar;
pub use tetrad::Tetrad;
pub use value::Value;
