//! The name that a point had before: a measurement is a point.

pub use crate::point::Value;
use crate::point::Point;
use vstd::prelude::*;

verus! {

/// Measurement model: a point, under its former name.
pub type Measurement<'a> = Point<'a>;

} // verus!
