//! The curves laid out for editing: which example is shown and how much
//! room the curves take.

use vstd::prelude::*;
use crate::bezier::anchor::IntBezierAnchor;
use crate::bezier::path::IntBezierPath;
use crate::math::point::IntPoint;
use crate::math::rect::IntRect;

verus! {

/// Half the side of the view onto an empty workspace.
pub const EMPTY_VIEW: i64 = 10_000;

/// The example after example `test` of `count`, if there is one.
pub fn next_test(test: usize, count: usize) -> (next: Option<usize>)
    ensures
        next == if test + 1 < count {
            Some((test + 1) as usize)
        } else {
            None
        },
{
    if test < usize::MAX && test + 1 < count {
        Some(test + 1)
    } else {
        None
    }
}

/// The example before example `test`, if there is one.
pub fn prev_test(test: usize) -> (prev: Option<usize>)
    ensures
        prev == if test >= 1 {
            Some((test - 1) as usize)
        } else {
            None
        },
{
    if test >= 1 {
        Some(test - 1)
    } else {
        None
    }
}

/// The point of an anchor and the positions of its handles.
pub open spec fn anchor_points(anchor: IntBezierAnchor) -> Seq<IntPoint> {
    seq![anchor.point] + match anchor.spec_handle_in_point() {
        Some(p) => seq![p],
        None => Seq::empty(),
    } + match anchor.spec_handle_out_point() {
        Some(p) => seq![p],
        None => Seq::empty(),
    }
}

/// The points and handle positions of the first `n` anchors of a path.
pub open spec fn path_points(path: IntBezierPath, n: nat) -> Seq<IntPoint>
    decreases n,
{
    if n == 0 {
        Seq::empty()
    } else {
        path_points(path, (n - 1) as nat) + anchor_points(path.anchors@[n - 1])
    }
}

/// The points and handle positions of the first `n` curves.
pub open spec fn curves_points(curves: Seq<IntBezierPath>, n: nat) -> Seq<IntPoint>
    decreases n,
{
    if n == 0 {
        Seq::empty()
    } else {
        curves_points(curves, (n - 1) as nat) + path_points(
            curves[n - 1],
            curves[n - 1].anchors@.len(),
        )
    }
}

/// The rectangle to bring into view: the least one that holds every anchor
/// point and handle of the curves, and a fixed square around the origin
/// where there are no curves.
pub open spec fn spec_view_rect(curves: Seq<IntBezierPath>) -> IntRect {
    if curves.len() == 0 {
        IntRect {
            min: IntPoint { x: (-EMPTY_VIEW) as i64, y: (-EMPTY_VIEW) as i64 },
            max: IntPoint { x: EMPTY_VIEW, y: EMPTY_VIEW },
        }
    } else {
        IntRect::spec_with_points(curves_points(curves, curves.len()))
    }
}

/// Growing a rectangle point by point is building it from all the points.
pub proof fn lemma_with_points_push(points: Seq<IntPoint>, point: IntPoint)
    ensures
        IntRect::spec_with_points(points.push(point)) == IntRect::spec_with_points(
            points,
        ).spec_add_point(point),
{
    assert(points.push(point).drop_last() =~= points);
}

/// The rectangle to bring into view for `curves`.
pub fn view_rect(curves: &Vec<IntBezierPath>) -> (rect: IntRect)
    requires
        forall|i: int| 0 <= i < curves@.len() ==> (#[trigger] curves@[i]).wf(),
    ensures
        rect == spec_view_rect(curves@),
{
    if curves.len() == 0 {
        return IntRect::with_min_max(
            IntPoint::new(-EMPTY_VIEW, -EMPTY_VIEW),
            IntPoint::new(EMPTY_VIEW, EMPTY_VIEW),
        );
    }
    let mut rect = IntRect::empty();
    let mut c: usize = 0;
    while c < curves.len()
        invariant
            c <= curves.len(),
            forall|i: int| 0 <= i < curves@.len() ==> (#[trigger] curves@[i]).wf(),
            rect == IntRect::spec_with_points(curves_points(curves@, c as nat)),
        decreases curves.len() - c,
    {
        let curve = &curves[c];
        let ghost base = curves_points(curves@, c as nat);
        let mut i: usize = 0;
        while i < curve.anchors.len()
            invariant
                i <= curve.anchors.len(),
                curve.wf(),
                rect == IntRect::spec_with_points(base + path_points(*curve, i as nat)),
            decreases curve.anchors.len() - i,
        {
            let anchor = &curve.anchors[i];
            let ghost seen = base + path_points(*curve, i as nat);
            proof {
                assert(anchor.wf());
                lemma_with_points_push(seen, anchor.point);
            }
            rect.add_point(&anchor.point);
            let ghost mut grown = seen.push(anchor.point);
            if let Some(point) = anchor.handle_in_point() {
                proof {
                    lemma_with_points_push(grown, point);
                    grown = grown.push(point);
                }
                rect.add_point(&point);
            }
            if let Some(point) = anchor.handle_out_point() {
                proof {
                    lemma_with_points_push(grown, point);
                    grown = grown.push(point);
                }
                rect.add_point(&point);
            }
            proof {
                assert(grown =~= base + path_points(*curve, (i + 1) as nat));
            }
            i += 1;
        }
        proof {
            assert(base + path_points(*curve, curve.anchors@.len()) =~= curves_points(
                curves@,
                (c + 1) as nat,
            ));
        }
        c += 1;
    }
    rect
}

} // verus!
