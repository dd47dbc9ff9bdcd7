//! What every kind of curve between two anchors offers.

use vstd::prelude::*;
use vstd::arithmetic::power2::pow2;
use crate::bezier::anchor::IntBezierAnchor;
use crate::bezier::approximation::{flattening, points_of, IntApproximation, IntShort, MAX_COS};
use crate::bezier::iter::IntSplinePointsIterator;
use crate::bezier::length::{polyline_length, polyline_length_of};
use crate::bezier::spline_cube::IntCubeSpline;
use crate::bezier::spline_line::IntLineSpline;
use crate::bezier::spline_quad::IntQuadSpline;
use crate::math::line::{is_parameter, MAX_SPLIT_FACTOR};
use crate::math::point::{IntPoint, UNIT};

verus! {

/// Control points of a curve that is to be flattened lie within this bound
/// of zero in both coordinates, so that the difference of any two points of
/// the curve fits a coordinate.
pub const COORD_LIMIT: i64 = 0x3FFF_FFFF_FFFF_FFFF;

/// A curve from a start point to an end point that can be evaluated at dyadic
/// parameters.
pub trait IntCADSpline {
    /// The first point of the curve.
    spec fn spec_start(&self) -> IntPoint;

    /// The direction in which the curve leaves its first point.
    spec fn spec_start_dir(&self) -> IntPoint;

    /// The direction in which the curve reaches its last point.
    spec fn spec_end_dir(&self) -> IntPoint;

    /// The last point of the curve.
    spec fn spec_end(&self) -> IntPoint;

    /// The point of the curve at parameter `step / 2^split_factor`.
    spec fn spec_split_at(&self, step: int, split_factor: int) -> IntPoint;

    /// Every control point lies within `COORD_LIMIT` of zero.
    spec fn in_range(&self) -> bool;

    /// The curve runs from its start to its end inside the box of its
    /// control points, a parameter names the same point at every depth, and
    /// the end directions have at most unit length.
    proof fn lemma_curve(&self, step: int, split_factor: int)
        requires
            self.in_range(),
            is_parameter(step, split_factor),
        ensures
            self.spec_split_at(step, split_factor).within(COORD_LIMIT as int),
            step == 0 ==> self.spec_split_at(step, split_factor) == self.spec_start(),
            step == pow2(split_factor as nat) ==> self.spec_split_at(step, split_factor)
                == self.spec_end(),
            split_factor < MAX_SPLIT_FACTOR ==> self.spec_split_at(2 * step, split_factor + 1)
                == self.spec_split_at(step, split_factor),
            self.spec_start_dir().within(UNIT as int),
            self.spec_end_dir().within(UNIT as int),
    ;

    /// Whether every control point lies within `COORD_LIMIT` of zero.
    fn is_in_range(&self) -> (ok: bool)
        ensures
            ok == self.in_range(),
    ;

    /// The first point of the curve.
    fn start(&self) -> (p: IntPoint)
        ensures
            p == self.spec_start(),
    ;

    /// The direction in which the curve leaves its first point.
    fn start_dir(&self) -> (d: IntPoint)
        requires
            self.in_range(),
        ensures
            d == self.spec_start_dir(),
    ;

    /// The direction in which the curve reaches its last point.
    fn end_dir(&self) -> (d: IntPoint)
        requires
            self.in_range(),
        ensures
            d == self.spec_end_dir(),
    ;

    /// The last point of the curve.
    fn end(&self) -> (p: IntPoint)
        ensures
            p == self.spec_end(),
    ;

    /// The point of the curve at parameter `step / 2^split_factor`.
    fn split_at(&self, step: usize, split_factor: u32) -> (p: IntPoint)
        requires
            is_parameter(step as int, split_factor as int),
        ensures
            p == self.spec_split_at(step as int, split_factor as int),
    ;
}

/// The curve between two neighbouring anchors, of the kind that their
/// handles call for.
#[derive(Debug, Clone, Copy)]
pub enum IntSpline {
    Line(IntLineSpline),
    Cube(IntCubeSpline),
    Quad(IntQuadSpline),
}

impl IntSpline {
    /// The curve from anchor `a` to anchor `b`: bent by the outgoing handle
    /// of `a` and the incoming handle of `b`, as far as they are there.
    pub open spec fn spec_new(a: IntBezierAnchor, b: IntBezierAnchor) -> IntSpline {
        match (a.spec_handle_out_point(), b.spec_handle_in_point()) {
            (Some(am), Some(bm)) => IntSpline::Quad(IntQuadSpline { a: a.point, am, bm, b: b.point }),
            (Some(m), None) => IntSpline::Cube(IntCubeSpline { a: a.point, m, b: b.point }),
            (None, Some(m)) => IntSpline::Cube(IntCubeSpline { a: a.point, m, b: b.point }),
            (None, None) => IntSpline::Line(IntLineSpline { a: a.point, b: b.point }),
        }
    }

    /// Every control point lies within `COORD_LIMIT` of zero.
    pub open spec fn in_range(&self) -> bool {
        match self {
            IntSpline::Line(s) => s.in_range(),
            IntSpline::Cube(s) => s.in_range(),
            IntSpline::Quad(s) => s.in_range(),
        }
    }

    /// The point of the curve at parameter `step / 2^split_factor`.
    pub open spec fn spec_split_at(&self, step: int, split_factor: int) -> IntPoint {
        match self {
            IntSpline::Line(s) => s.spec_split_at(step, split_factor),
            IntSpline::Cube(s) => s.spec_split_at(step, split_factor),
            IntSpline::Quad(s) => s.spec_split_at(step, split_factor),
        }
    }

    /// The points of the curve at the parameters `i / 2^split_factor` below
    /// one.
    pub open spec fn spec_regular_points(&self, split_factor: int) -> Seq<IntPoint> {
        Seq::new(pow2(split_factor as nat), |i: int| self.spec_split_at(i, split_factor))
    }

    /// The segments into which the curve is flattened.
    pub open spec fn flattened(&self, min_cos: u32, min_len: u32) -> Seq<IntShort> {
        match self {
            IntSpline::Line(s) => flattening(s, min_cos, min_len),
            IntSpline::Cube(s) => flattening(s, min_cos, min_len),
            IntSpline::Quad(s) => flattening(s, min_cos, min_len),
        }
    }

    /// Whether every control point lies within `COORD_LIMIT` of zero.
    pub fn is_in_range(&self) -> (ok: bool)
        ensures
            ok == self.in_range(),
    {
        match self {
            IntSpline::Line(s) => s.is_in_range(),
            IntSpline::Cube(s) => s.is_in_range(),
            IntSpline::Quad(s) => s.is_in_range(),
        }
    }

    /// The curve from anchor `a` to anchor `b`.
    pub fn new(a: &IntBezierAnchor, b: &IntBezierAnchor) -> (spline: Self)
        requires
            a.wf(),
            b.wf(),
        ensures
            spline == Self::spec_new(*a, *b),
    {
        match (a.handle_out_point(), b.handle_in_point()) {
            (Some(am), Some(bm)) => IntSpline::Quad(IntQuadSpline { a: a.point, am, bm, b: b.point }),
            (Some(m), None) => IntSpline::Cube(IntCubeSpline { a: a.point, m, b: b.point }),
            (None, Some(m)) => IntSpline::Cube(IntCubeSpline { a: a.point, m, b: b.point }),
            (None, None) => IntSpline::Line(IntLineSpline { a: a.point, b: b.point }),
        }
    }

    /// The `2^split_factor` points of the curve at evenly spaced parameters,
    /// from its start up to, but without, its end.
    pub fn regular_points(&self, split_factor: u32) -> (points: Vec<IntPoint>)
        requires
            split_factor < usize::BITS,
        ensures
            points@ == self.spec_regular_points(split_factor as int),
            points@.len() == pow2(split_factor as nat),
    {
        let points = match self {
            IntSpline::Line(s) => IntSplinePointsIterator::new(split_factor, true, false, s).collect(),
            IntSpline::Cube(s) => IntSplinePointsIterator::new(split_factor, true, false, s).collect(),
            IntSpline::Quad(s) => IntSplinePointsIterator::new(split_factor, true, false, s).collect(),
        };
        proof {
            assert(points@ =~= self.spec_regular_points(split_factor as int));
        }
        points
    }

    /// The corners of the flattened curve, from its start to its end.
    pub fn approximate_points(&self, min_cos: u32, min_len: u32) -> (points: Vec<IntPoint>)
        requires
            self.in_range(),
            min_cos <= MAX_COS,
            min_len >= 1,
        ensures
            points@ == points_of(self.flattened(min_cos, min_len)),
    {
        match self {
            IntSpline::Line(s) => s.approximate_points(min_cos, min_len),
            IntSpline::Cube(s) => s.approximate_points(min_cos, min_len),
            IntSpline::Quad(s) => s.approximate_points(min_cos, min_len),
        }
    }

    /// The length of the flattened curve: the sum of the lengths of its
    /// segments, each rounded down.
    pub fn avg_length(&self, min_cos: u32, min_len: u32) -> (length: u128)
        requires
            self.in_range(),
            min_cos <= MAX_COS,
            min_len >= 1,
        ensures
            length == polyline_length(self.flattened(min_cos, min_len)),
    {
        match self {
            IntSpline::Line(s) => polyline_length_of(s, min_cos, min_len),
            IntSpline::Cube(s) => polyline_length_of(s, min_cos, min_len),
            IntSpline::Quad(s) => polyline_length_of(s, min_cos, min_len),
        }
    }
}

} // verus!
