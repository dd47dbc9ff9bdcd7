//! Anchors: the points a path runs through, with the handles that bend it.

use vstd::prelude::*;
use crate::math::offset::IntOffset;
use crate::math::point::IntPoint;

verus! {

/// A point of a path and, on either side, an optional handle given as an
/// offset from the point. A side without a handle leaves the path straight
/// there.
#[derive(Debug, Clone, Copy)]
pub struct IntBezierAnchor {
    pub point: IntPoint,
    pub handle_in: Option<IntOffset>,
    pub handle_out: Option<IntOffset>,
}

impl IntBezierAnchor {
    /// The positions of both handles can be formed without overflow.
    pub open spec fn wf(&self) -> bool {
        &&& self.handle_in is Some ==> self.point.can_add(self.handle_in->0.x, self.handle_in->0.y)
        &&& self.handle_out is Some ==> self.point.can_add(self.handle_out->0.x, self.handle_out->0.y)
    }

    /// The position of the incoming handle, where there is one.
    pub open spec fn spec_handle_in_point(&self) -> Option<IntPoint> {
        match self.handle_in {
            Some(offset) => Some(self.point.plus(offset.x, offset.y)),
            None => None,
        }
    }

    /// The position of the outgoing handle, where there is one.
    pub open spec fn spec_handle_out_point(&self) -> Option<IntPoint> {
        match self.handle_out {
            Some(offset) => Some(self.point.plus(offset.x, offset.y)),
            None => None,
        }
    }

    /// Whether the positions of both handles can be formed without
    /// overflow.
    pub fn is_wf(&self) -> (ok: bool)
        ensures
            ok == self.wf(),
    {
        let fits_in = match self.handle_in {
            Some(offset) => self.point.fits_add(offset.x, offset.y),
            None => true,
        };
        let fits_out = match self.handle_out {
            Some(offset) => self.point.fits_add(offset.x, offset.y),
            None => true,
        };
        fits_in && fits_out
    }

    /// The position of the incoming handle, where there is one.
    pub fn handle_in_point(&self) -> (handle: Option<IntPoint>)
        requires
            self.handle_in is Some ==> self.point.can_add(self.handle_in->0.x, self.handle_in->0.y),
        ensures
            handle == self.spec_handle_in_point(),
    {
        match self.handle_in {
            Some(offset) => Some(self.point.shifted(offset)),
            None => None,
        }
    }

    /// The position of the outgoing handle, where there is one.
    pub fn handle_out_point(&self) -> (handle: Option<IntPoint>)
        requires
            self.handle_out is Some ==> self.point.can_add(self.handle_out->0.x, self.handle_out->0.y),
        ensures
            handle == self.spec_handle_out_point(),
    {
        match self.handle_out {
            Some(offset) => Some(self.point.shifted(offset)),
            None => None,
        }
    }
}

/// The part of an anchor that a pointer can take hold of.
#[derive(Debug, Clone, Copy, PartialEq, Eq, Structural)]
pub enum AnchorPart {
    Point,
    HandleIn,
    HandleOut,
}

impl AnchorPart {
    /// Where the part lies: the point of the anchor, or the position of the
    /// handle, which for a missing handle is the point.
    pub open spec fn spec_point(&self, anchor: IntBezierAnchor) -> IntPoint {
        match self {
            AnchorPart::Point => anchor.point,
            AnchorPart::HandleIn => match anchor.handle_in {
                Some(offset) => anchor.point.plus(offset.x, offset.y),
                None => anchor.point,
            },
            AnchorPart::HandleOut => match anchor.handle_out {
                Some(offset) => anchor.point.plus(offset.x, offset.y),
                None => anchor.point,
            },
        }
    }

    /// The anchor with the part moved to `point`. Moving the point takes the
    /// handles along; moving a handle leaves the point where it is.
    pub open spec fn spec_update_point(&self, point: IntPoint, anchor: IntBezierAnchor) -> IntBezierAnchor {
        let offset = IntOffset {
            x: point.from_point(anchor.point).x,
            y: point.from_point(anchor.point).y,
        };
        match self {
            AnchorPart::Point => IntBezierAnchor { point, ..anchor },
            AnchorPart::HandleIn => IntBezierAnchor { handle_in: Some(offset), ..anchor },
            AnchorPart::HandleOut => IntBezierAnchor { handle_out: Some(offset), ..anchor },
        }
    }

    /// Where the part of `anchor` lies.
    pub fn point(&self, anchor: &IntBezierAnchor) -> (p: IntPoint)
        requires
            anchor.wf(),
        ensures
            p == self.spec_point(*anchor),
    {
        match self {
            AnchorPart::Point => anchor.point,
            AnchorPart::HandleIn => match anchor.handle_in {
                Some(offset) => anchor.point.shifted(offset),
                None => anchor.point,
            },
            AnchorPart::HandleOut => match anchor.handle_out {
                Some(offset) => anchor.point.shifted(offset),
                None => anchor.point,
            },
        }
    }

    /// Moves the part of `anchor` to `point`.
    pub fn update_point(&self, point: IntPoint, anchor: &mut IntBezierAnchor)
        requires
            *self != AnchorPart::Point ==> point.can_sub(old(anchor).point.x, old(anchor).point.y),
        ensures
            *final(anchor) == self.spec_update_point(point, *old(anchor)),
    {
        match self {
            AnchorPart::Point => {
                anchor.point = point;
            },
            AnchorPart::HandleIn => {
                let v = point.diff(anchor.point);
                anchor.handle_in = Some(IntOffset::new(v.x, v.y));
            },
            AnchorPart::HandleOut => {
                let v = point.diff(anchor.point);
                anchor.handle_out = Some(IntOffset::new(v.x, v.y));
            },
        }
    }

    /// A handle that has been moved to a point lies at that point.
    pub proof fn lemma_update_then_point(&self, point: IntPoint, anchor: IntBezierAnchor)
        requires
            point.can_sub(anchor.point.x, anchor.point.y),
        ensures
            self.spec_point(self.spec_update_point(point, anchor)) == point,
    {
    }
}

} // verus!
