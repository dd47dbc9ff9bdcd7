//! The edge bent by a handle at either end.

use vstd::prelude::*;
use crate::bezier::spline::{IntCADSpline, COORD_LIMIT};
use crate::bezier::spline_cube::lemma_lerp_twice;
use crate::math::line::{lerp_point, IntLine};
use crate::math::point::{lemma_direction_is_bounded, IntPoint};

verus! {

/// An edge from `a` to `b` that leaves toward `am` and arrives from `bm`.
#[derive(Debug, Clone, Copy)]
pub struct IntQuadSpline {
    pub a: IntPoint,
    pub am: IntPoint,
    pub bm: IntPoint,
    pub b: IntPoint,
}

impl IntCADSpline for IntQuadSpline {
    open spec fn spec_start(&self) -> IntPoint {
        self.a
    }

    open spec fn spec_start_dir(&self) -> IntPoint {
        self.am.from_point(self.a).spec_direction()
    }

    open spec fn spec_end_dir(&self) -> IntPoint {
        self.b.from_point(self.bm).spec_direction()
    }

    open spec fn spec_end(&self) -> IntPoint {
        self.b
    }

    open spec fn spec_split_at(&self, step: int, split_factor: int) -> IntPoint {
        let q0 = lerp_point(self.a, self.am, step, split_factor);
        let q1 = lerp_point(self.am, self.bm, step, split_factor);
        let q2 = lerp_point(self.bm, self.b, step, split_factor);
        let r0 = lerp_point(q0, q1, step, split_factor);
        let r1 = lerp_point(q1, q2, step, split_factor);
        lerp_point(r0, r1, step, split_factor)
    }

    open spec fn in_range(&self) -> bool {
        &&& self.a.within(COORD_LIMIT as int)
        &&& self.am.within(COORD_LIMIT as int)
        &&& self.bm.within(COORD_LIMIT as int)
        &&& self.b.within(COORD_LIMIT as int)
    }

    proof fn lemma_curve(&self, step: int, split_factor: int) {
        let q0 = lerp_point(self.a, self.am, step, split_factor);
        let q1 = lerp_point(self.am, self.bm, step, split_factor);
        let q2 = lerp_point(self.bm, self.b, step, split_factor);
        let r0 = lerp_point(q0, q1, step, split_factor);
        let r1 = lerp_point(q1, q2, step, split_factor);
        lemma_lerp_twice(self.a, self.am, self.bm, step, split_factor, COORD_LIMIT as int);
        lemma_lerp_twice(self.am, self.bm, self.b, step, split_factor, COORD_LIMIT as int);
        lemma_lerp_twice(q0, q1, q2, step, split_factor, COORD_LIMIT as int);
        lemma_lerp_twice(r0, r1, r1, step, split_factor, COORD_LIMIT as int);
        lemma_direction_is_bounded(self.am.from_point(self.a));
        lemma_direction_is_bounded(self.b.from_point(self.bm));
    }

    fn is_in_range(&self) -> (ok: bool) {
        self.a.is_within(COORD_LIMIT) && self.am.is_within(COORD_LIMIT) && self.bm.is_within(COORD_LIMIT) && self.b.is_within(COORD_LIMIT)
    }

    fn start(&self) -> (p: IntPoint) {
        self.a
    }

    fn start_dir(&self) -> (d: IntPoint) {
        self.am.diff(self.a).direction()
    }

    fn end_dir(&self) -> (d: IntPoint) {
        self.b.diff(self.bm).direction()
    }

    fn end(&self) -> (p: IntPoint) {
        self.b
    }

    fn split_at(&self, step: usize, split_factor: u32) -> (p: IntPoint) {
        let l0 = IntLine::new(self.a, self.am);
        let l1 = IntLine::new(self.am, self.bm);
        let l2 = IntLine::new(self.bm, self.b);

        let q0 = l0.split_at(step, split_factor);
        let q1 = l1.split_at(step, split_factor);
        let q2 = l2.split_at(step, split_factor);

        let r0 = IntLine::new(q0, q1).split_at(step, split_factor);
        let r1 = IntLine::new(q1, q2).split_at(step, split_factor);

        IntLine::new(r0, r1).split_at(step, split_factor)
    }
}

} // verus!
