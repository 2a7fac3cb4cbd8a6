//! Software implementations of the arithmetic support routines that a
//! compiler calls when the target lacks native instructions: double-width
//! integer multiply, divide, modulo and shifts, and IEEE-754 addition and
//! integer-to-float conversion carried out on raw bit patterns.
use vstd::prelude::*;

pub mod wide;
pub mod shift;
pub mod mul;
pub mod sdiv;
pub mod float;
pub mod convert;
pub mod add;
pub mod nearest;


verus! {

} // verus!
