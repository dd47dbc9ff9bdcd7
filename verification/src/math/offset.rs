//! Displacements on the integer grid.

use vstd::prelude::*;
use crate::math::point::IntPoint;

verus! {

/// A displacement between two grid positions, such as the vector from an
/// anchor to one of its handles.
#[derive(Debug, Clone, Copy, PartialEq, Eq, Structural)]
pub struct IntOffset {
    pub x: i64,
    pub y: i64,
}

impl IntOffset {
    /// The displacement that moves nothing.
    pub fn zero() -> (o: Self)
        ensures
            o.x == 0,
            o.y == 0,
    {
        Self { x: 0, y: 0 }
    }

    /// The displacement with the given components.
    pub fn new(x: i64, y: i64) -> (o: Self)
        ensures
            o.x == x,
            o.y == y,
    {
        Self { x, y }
    }
}

impl From<IntPoint> for IntOffset {
    fn from(value: IntPoint) -> (o: IntOffset) {
        IntOffset { x: value.x, y: value.y }
    }
}

impl vstd::std_specs::convert::FromSpecImpl<IntPoint> for IntOffset {
    open spec fn obeys_from_spec() -> bool {
        true
    }

    open spec fn from_spec(value: IntPoint) -> IntOffset {
        IntOffset { x: value.x, y: value.y }
    }
}

} // verus!
