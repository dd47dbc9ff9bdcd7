//! The straight edge between two anchors without handles.

use vstd::prelude::*;
use crate::bezier::spline::{IntCADSpline, COORD_LIMIT};
use crate::math::line::{lemma_lerp_between, lemma_lerp_refine, lerp_point, IntLine};
use crate::math::point::{lemma_direction_is_bounded, IntPoint};
use crate::math::rect::{max_coord, min_coord, IntRect};

verus! {

/// A straight edge from `a` to `b`.
#[derive(Debug, Clone, Copy)]
pub struct IntLineSpline {
    pub a: IntPoint,
    pub b: IntPoint,
}

impl IntCADSpline for IntLineSpline {
    open spec fn spec_start(&self) -> IntPoint {
        self.a
    }

    open spec fn spec_start_dir(&self) -> IntPoint {
        self.b.from_point(self.a).spec_direction()
    }

    open spec fn spec_end_dir(&self) -> IntPoint {
        self.b.from_point(self.a).spec_direction()
    }

    open spec fn spec_end(&self) -> IntPoint {
        self.b
    }

    open spec fn spec_split_at(&self, step: int, split_factor: int) -> IntPoint {
        lerp_point(self.a, self.b, step, split_factor)
    }

    open spec fn in_range(&self) -> bool {
        self.a.within(COORD_LIMIT as int) && self.b.within(COORD_LIMIT as int)
    }

    proof fn lemma_curve(&self, step: int, split_factor: int) {
        lemma_lerp_between(self.a.x as int, self.b.x as int, step, split_factor);
        lemma_lerp_between(self.a.y as int, self.b.y as int, step, split_factor);
        lemma_lerp_refine(self.a.x as int, self.b.x as int, step, split_factor);
        lemma_lerp_refine(self.a.y as int, self.b.y as int, step, split_factor);
        lemma_direction_is_bounded(self.b.from_point(self.a));
    }

    fn is_in_range(&self) -> (ok: bool) {
        self.a.is_within(COORD_LIMIT) && self.b.is_within(COORD_LIMIT)
    }

    fn start(&self) -> (p: IntPoint) {
        self.a
    }

    fn start_dir(&self) -> (d: IntPoint) {
        self.b.diff(self.a).direction()
    }

    fn end_dir(&self) -> (d: IntPoint) {
        self.b.diff(self.a).direction()
    }

    fn end(&self) -> (p: IntPoint) {
        self.b
    }

    fn split_at(&self, step: usize, split_factor: u32) -> (p: IntPoint) {
        IntLine::new(self.a, self.b).split_at(step, split_factor)
    }
}

impl IntLineSpline {
    /// The least rectangle that holds the edge.
    pub fn boundary(&self) -> (rect: IntRect)
        ensures
            rect.min.x == min_coord(self.a.x, self.b.x),
            rect.min.y == min_coord(self.a.y, self.b.y),
            rect.max.x == max_coord(self.a.x, self.b.x),
            rect.max.y == max_coord(self.a.y, self.b.y),
    {
        let (min_x, max_x) = if self.a.x < self.b.x {
            (self.a.x, self.b.x)
        } else {
            (self.b.x, self.a.x)
        };
        let (min_y, max_y) = if self.a.y < self.b.y {
            (self.a.y, self.b.y)
        } else {
            (self.b.y, self.a.y)
        };
        IntRect { min: IntPoint { x: min_x, y: min_y }, max: IntPoint { x: max_x, y: max_y } }
    }
}

} // verus!
