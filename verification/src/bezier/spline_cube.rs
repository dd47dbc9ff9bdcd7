//! The edge bent by a single handle.

use vstd::prelude::*;
use crate::bezier::spline::{IntCADSpline, COORD_LIMIT};
use crate::math::line::{lemma_lerp_between, lemma_lerp_refine, lerp_point, IntLine};
use crate::math::point::{lemma_direction_is_bounded, IntPoint};

verus! {

/// An edge from `a` to `b` drawn toward the control point `m`.
#[derive(Debug, Clone, Copy)]
pub struct IntCubeSpline {
    pub a: IntPoint,
    pub m: IntPoint,
    pub b: IntPoint,
}

/// Two interpolations in a row agree, depth for depth, with the same two one
/// level deeper, and stay in any box that holds their three control points.
pub proof fn lemma_lerp_twice(a: IntPoint, m: IntPoint, b: IntPoint, step: int, split_factor: int, limit: int)
    requires
        crate::math::line::is_parameter(step, split_factor),
        a.within(limit),
        m.within(limit),
        b.within(limit),
        limit <= i64::MAX,
    ensures
        lerp_point(a, m, step, split_factor).within(limit),
        lerp_point(m, b, step, split_factor).within(limit),
        lerp_point(a, m, 2 * step, split_factor + 1) == lerp_point(a, m, step, split_factor),
        lerp_point(m, b, 2 * step, split_factor + 1) == lerp_point(m, b, step, split_factor),
        step == 0 ==> lerp_point(a, m, step, split_factor) == a && lerp_point(m, b, step, split_factor) == m,
        step == vstd::arithmetic::power2::pow2(split_factor as nat) ==> lerp_point(a, m, step, split_factor) == m
            && lerp_point(m, b, step, split_factor) == b,
{
    lemma_lerp_between(a.x as int, m.x as int, step, split_factor);
    lemma_lerp_between(a.y as int, m.y as int, step, split_factor);
    lemma_lerp_between(m.x as int, b.x as int, step, split_factor);
    lemma_lerp_between(m.y as int, b.y as int, step, split_factor);
    lemma_lerp_refine(a.x as int, m.x as int, step, split_factor);
    lemma_lerp_refine(a.y as int, m.y as int, step, split_factor);
    lemma_lerp_refine(m.x as int, b.x as int, step, split_factor);
    lemma_lerp_refine(m.y as int, b.y as int, step, split_factor);
}

impl IntCADSpline for IntCubeSpline {
    open spec fn spec_start(&self) -> IntPoint {
        self.a
    }

    open spec fn spec_start_dir(&self) -> IntPoint {
        self.m.from_point(self.a).spec_direction()
    }

    open spec fn spec_end_dir(&self) -> IntPoint {
        self.b.from_point(self.m).spec_direction()
    }

    open spec fn spec_end(&self) -> IntPoint {
        self.b
    }

    open spec fn spec_split_at(&self, step: int, split_factor: int) -> IntPoint {
        let r0 = lerp_point(self.a, self.m, step, split_factor);
        let r1 = lerp_point(self.m, self.b, step, split_factor);
        lerp_point(r0, r1, step, split_factor)
    }

    open spec fn in_range(&self) -> bool {
        &&& self.a.within(COORD_LIMIT as int)
        &&& self.m.within(COORD_LIMIT as int)
        &&& self.b.within(COORD_LIMIT as int)
    }

    proof fn lemma_curve(&self, step: int, split_factor: int) {
        let r0 = lerp_point(self.a, self.m, step, split_factor);
        let r1 = lerp_point(self.m, self.b, step, split_factor);
        lemma_lerp_twice(self.a, self.m, self.b, step, split_factor, COORD_LIMIT as int);
        lemma_lerp_twice(r0, r1, r1, step, split_factor, COORD_LIMIT as int);
        lemma_direction_is_bounded(self.m.from_point(self.a));
        lemma_direction_is_bounded(self.b.from_point(self.m));
    }

    fn is_in_range(&self) -> (ok: bool) {
        self.a.is_within(COORD_LIMIT) && self.m.is_within(COORD_LIMIT) && self.b.is_within(COORD_LIMIT)
    }

    fn start(&self) -> (p: IntPoint) {
        self.a
    }

    fn start_dir(&self) -> (d: IntPoint) {
        self.m.diff(self.a).direction()
    }

    fn end_dir(&self) -> (d: IntPoint) {
        self.b.diff(self.m).direction()
    }

    fn end(&self) -> (p: IntPoint) {
        self.b
    }

    fn split_at(&self, step: usize, split_factor: u32) -> (p: IntPoint) {
        let l0 = IntLine::new(self.a, self.m);
        let l1 = IntLine::new(self.m, self.b);
        let r0 = l0.split_at(step, split_factor);
        let r1 = l1.split_at(step, split_factor);
        IntLine::new(r0, r1).split_at(step, split_factor)
    }
}

} // verus!
