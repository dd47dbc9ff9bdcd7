//! Axis-aligned bounding rectangles on the integer grid.

use vstd::prelude::*;
use crate::math::point::IntPoint;

verus! {

/// The smaller of two coordinates.
pub open spec fn min_coord(a: i64, b: i64) -> i64 {
    if a <= b {
        a
    } else {
        b
    }
}

/// The greater of two coordinates.
pub open spec fn max_coord(a: i64, b: i64) -> i64 {
    if a >= b {
        a
    } else {
        b
    }
}

/// A rectangle given by its least and greatest corner. A rectangle whose
/// least corner exceeds its greatest holds no point.
#[derive(Debug, Clone, Copy, PartialEq, Eq, Structural)]
pub struct IntRect {
    pub min: IntPoint,
    pub max: IntPoint,
}

impl IntRect {
    /// The rectangle that holds no point and is the unit of growing by points.
    pub open spec fn spec_empty() -> IntRect {
        IntRect {
            min: IntPoint { x: i64::MAX, y: i64::MAX },
            max: IntPoint { x: i64::MIN, y: i64::MIN },
        }
    }

    /// The rectangle grown just enough to hold `point`.
    pub open spec fn spec_add_point(self, point: IntPoint) -> IntRect {
        IntRect {
            min: IntPoint { x: min_coord(self.min.x, point.x), y: min_coord(self.min.y, point.y) },
            max: IntPoint { x: max_coord(self.max.x, point.x), y: max_coord(self.max.y, point.y) },
        }
    }

    /// The least rectangle that holds every point of the sequence.
    pub open spec fn spec_with_points(points: Seq<IntPoint>) -> IntRect
        decreases points.len(),
    {
        if points.len() == 0 {
            Self::spec_empty()
        } else {
            Self::spec_with_points(points.drop_last()).spec_add_point(points.last())
        }
    }

    /// `point` lies in the rectangle, border included.
    pub open spec fn contains(self, point: IntPoint) -> bool {
        &&& self.min.x <= point.x <= self.max.x
        &&& self.min.y <= point.y <= self.max.y
    }

    /// The rectangle that holds no point.
    pub fn empty() -> (rect: Self)
        ensures
            rect == Self::spec_empty(),
    {
        Self { min: IntPoint::new(i64::MAX, i64::MAX), max: IntPoint::new(i64::MIN, i64::MIN) }
    }

    /// The rectangle with the given corners.
    pub fn with_min_max(min: IntPoint, max: IntPoint) -> (rect: Self)
        ensures
            rect.min == min,
            rect.max == max,
    {
        Self { min, max }
    }

    /// The least rectangle that holds every one of `points`.
    pub fn with_points(points: &[IntPoint]) -> (rect: Self)
        ensures
            rect == Self::spec_with_points(points@),
    {
        let mut rect = Self::empty();
        let mut i: usize = 0;
        while i < points.len()
            invariant
                i <= points.len(),
                rect == Self::spec_with_points(points@.take(i as int)),
            decreases points.len() - i,
        {
            proof {
                assert(points@.take(i + 1).drop_last() == points@.take(i as int));
            }
            rect.add_point(&points[i]);
            i += 1;
        }
        proof {
            assert(points@.take(i as int) == points@);
        }
        rect
    }

    /// Grows the rectangle just enough to hold `point`.
    pub fn add_point(&mut self, point: &IntPoint)
        ensures
            *final(self) == old(self).spec_add_point(*point),
    {
        if point.x < self.min.x {
            self.min.x = point.x;
        }
        if point.y < self.min.y {
            self.min.y = point.y;
        }
        if point.x > self.max.x {
            self.max.x = point.x;
        }
        if point.y > self.max.y {
            self.max.y = point.y;
        }
    }

    /// Whether two rectangles share a point, their borders included.
    pub fn is_intersect_border_include(&self, other: &Self) -> (hit: bool)
        ensures
            hit <==> {
                &&& self.min.x <= other.max.x && self.max.x >= other.min.x
                &&& self.min.y <= other.max.y && self.max.y >= other.min.y
            },
    {
        let x = self.min.x <= other.max.x && self.max.x >= other.min.x;
        let y = self.min.y <= other.max.y && self.max.y >= other.min.y;
        x && y
    }

    /// Whether two rectangles share an inner point.
    pub fn is_intersect_border_exclude(&self, other: &Self) -> (hit: bool)
        ensures
            hit <==> {
                &&& self.min.x < other.max.x && self.max.x > other.min.x
                &&& self.min.y < other.max.y && self.max.y > other.min.y
            },
    {
        let x = self.min.x < other.max.x && self.max.x > other.min.x;
        let y = self.min.y < other.max.y && self.max.y > other.min.y;
        x && y
    }

    /// The rectangle built from points holds each of them, and each of its
    /// sides passes through one of them.
    pub proof fn lemma_with_points_is_tight(points: Seq<IntPoint>)
        ensures
            forall|i: int| 0 <= i < points.len() ==> Self::spec_with_points(points).contains(#[trigger] points[i]),
            points.len() > 0 ==> {
                let rect = Self::spec_with_points(points);
                &&& exists|i: int| 0 <= i < points.len() && #[trigger] points[i].x == rect.min.x
                &&& exists|i: int| 0 <= i < points.len() && #[trigger] points[i].y == rect.min.y
                &&& exists|i: int| 0 <= i < points.len() && #[trigger] points[i].x == rect.max.x
                &&& exists|i: int| 0 <= i < points.len() && #[trigger] points[i].y == rect.max.y
            },
        decreases points.len(),
    {
        if points.len() > 0 {
            let head = points.drop_last();
            let last = points.len() - 1;
            let rect = Self::spec_with_points(points);
            let inner = Self::spec_with_points(head);
            Self::lemma_with_points_is_tight(head);
            assert forall|i: int| 0 <= i < points.len() implies rect.contains(#[trigger] points[i]) by {
                if i < last {
                    assert(inner.contains(head[i]));
                }
            }
            if head.len() == 0 {
                assert(points[last].x == rect.min.x);
                assert(points[last].y == rect.min.y);
                assert(points[last].x == rect.max.x);
                assert(points[last].y == rect.max.y);
            } else {
                let i0 = choose|i: int| 0 <= i < head.len() && #[trigger] head[i].x == inner.min.x;
                let i1 = choose|i: int| 0 <= i < head.len() && #[trigger] head[i].y == inner.min.y;
                let i2 = choose|i: int| 0 <= i < head.len() && #[trigger] head[i].x == inner.max.x;
                let i3 = choose|i: int| 0 <= i < head.len() && #[trigger] head[i].y == inner.max.y;
                let j0 = if points[last].x < inner.min.x { last } else { i0 };
                let j1 = if points[last].y < inner.min.y { last } else { i1 };
                let j2 = if points[last].x > inner.max.x { last } else { i2 };
                let j3 = if points[last].y > inner.max.y { last } else { i3 };
                assert(head[i0] == points[i0] && head[i1] == points[i1] && head[i2] == points[i2] && head[i3] == points[i3]);
                assert(points[j0].x == rect.min.x);
                assert(points[j1].y == rect.min.y);
                assert(points[j2].x == rect.max.x);
                assert(points[j3].y == rect.max.y);
            }
        }
    }
}

} // verus!
