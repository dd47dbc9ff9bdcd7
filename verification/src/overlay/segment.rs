//! The edges of the shapes of an overlay.

use vstd::prelude::*;
use crate::bezier::spline::IntSpline;

verus! {

/// Which of the two shapes of an overlay an edge belongs to.
#[derive(Debug, Clone, Copy)]
pub enum ShapeType {
    Subject,
    Clip,
}

/// The geometry of an edge.
#[derive(Debug, Clone, Copy)]
pub enum ShapePart {
    Spline(IntSpline),
}

/// An edge of one of the shapes.
#[derive(Debug, Clone, Copy)]
pub struct ShapeSegment {
    pub shape_type: ShapeType,
    pub part: ShapePart,
}

} // verus!
