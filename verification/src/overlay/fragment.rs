//! Pieces of edges with the rectangles in which they are looked for.

use vstd::prelude::*;
use crate::math::point::IntPoint;
use crate::math::rect::IntRect;

verus! {

/// The piece of edge `segment_id` at step `step` of depth `split_factor`,
/// with a rectangle that holds it.
#[derive(Debug, Clone, Copy)]
pub struct Fragment {
    pub step: usize,
    pub split_factor: u32,
    pub segment_id: usize,
    pub boundary: IntRect,
}

impl Fragment {
    /// The corners of the strip beside the chord from `a` to `b`: the two
    /// ends and the two ends moved by half the normal of the chord.
    pub open spec fn strip(a: IntPoint, b: IntPoint) -> Seq<IntPoint> {
        let n = b.from_point(a).spec_half_normal();
        seq![a, a.plus(n.x, n.y), b, b.plus(n.x, n.y)]
    }

    /// The strip beside the chord from `a` to `b` can be formed.
    pub open spec fn strip_fits(a: IntPoint, b: IntPoint) -> bool {
        let n = b.from_point(a).spec_half_normal();
        &&& b.can_sub(a.x, a.y)
        &&& b.y - a.y != i64::MIN
        &&& a.can_add(n.x, n.y)
        &&& b.can_add(n.x, n.y)
    }

    /// The piece with the given rectangle.
    pub fn new(segment_id: usize, step: usize, split_factor: u32, boundary: IntRect) -> (fragment: Self)
        ensures
            fragment.segment_id == segment_id,
            fragment.step == step,
            fragment.split_factor == split_factor,
            fragment.boundary == boundary,
    {
        Self { step, split_factor, segment_id, boundary }
    }

    /// The piece whose chord runs from `a` to `b`; its rectangle is the
    /// least one that holds the strip beside the chord.
    pub fn with_ab(segment_id: usize, step: usize, split_factor: u32, a: IntPoint, b: IntPoint) -> (fragment:
        Self)
        requires
            Self::strip_fits(a, b),
        ensures
            fragment.segment_id == segment_id,
            fragment.step == step,
            fragment.split_factor == split_factor,
            fragment.boundary == IntRect::spec_with_points(Self::strip(a, b)),
    {
        let ab = b.diff(a);
        let n = ab.half_normal();
        let an = a.sum(n);
        let bn = b.sum(n);
        let mut boundary = IntRect::empty();
        boundary.add_point(&a);
        boundary.add_point(&an);
        boundary.add_point(&b);
        boundary.add_point(&bn);
        proof {
            let strip = Self::strip(a, b);
            assert(strip.drop_last() =~= seq![a, an, b]);
            assert(strip.drop_last().drop_last() =~= seq![a, an]);
            assert(strip.drop_last().drop_last().drop_last() =~= seq![a]);
            assert(strip.drop_last().drop_last().drop_last().drop_last() =~= Seq::<IntPoint>::empty());
            reveal_with_fuel(IntRect::spec_with_points, 5);
        }
        Fragment { step, split_factor, segment_id, boundary }
    }
}

} // verus!
