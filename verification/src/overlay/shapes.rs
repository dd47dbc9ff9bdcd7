//! The overlay itself: the edges gathered so far.

use vstd::prelude::*;
use crate::overlay::segment::ShapeSegment;

verus! {

/// The edges of a subject shape and a clip shape, gathered to be combined.
#[derive(Clone)]
pub struct Overlay {
    pub sections: Vec<ShapeSegment>,
}

impl Overlay {
    /// An overlay without edges.
    pub fn new() -> (overlay: Self)
        ensures
            overlay.sections@.len() == 0,
    {
        Self { sections: Vec::new() }
    }
}

} // verus!
