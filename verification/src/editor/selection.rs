//! The anchor part under the pointer and how it is shown.

use vstd::prelude::*;
use crate::bezier::anchor::AnchorPart;

verus! {

/// What the pointer does with the part it is over.
#[derive(Debug, Clone, Copy, PartialEq, Eq, Structural)]
pub enum SelectState {
    Hover,
    Drag,
}

/// The part of an anchor that the pointer is over or drags.
#[derive(Debug, Clone, Copy, PartialEq, Eq, Structural)]
pub struct ActiveAnchor {
    pub index: usize,
    pub part: AnchorPart,
    pub select_state: SelectState,
}

/// The marks with which a part of an anchor is drawn.
#[derive(Debug, Clone, Copy, PartialEq, Eq, Structural)]
pub enum MeshKind {
    Point,
    Hover,
    Drag,
}

/// The mark for part `part` of anchor `index`: the plain one unless the
/// pointer is over that very part or drags it.
pub open spec fn spec_mesh_kind(index: usize, part: AnchorPart, active: Option<ActiveAnchor>) -> MeshKind {
    match active {
        Some(a) => if a.index != index || a.part != part {
            MeshKind::Point
        } else {
            match a.select_state {
                SelectState::Hover => MeshKind::Hover,
                SelectState::Drag => MeshKind::Drag,
            }
        },
        None => MeshKind::Point,
    }
}

/// The mark for part `part` of anchor `index`.
pub fn mesh_kind(index: usize, part: AnchorPart, active: Option<ActiveAnchor>) -> (kind: MeshKind)
    ensures
        kind == spec_mesh_kind(index, part, active),
{
    let active = if let Some(active) = active {
        active
    } else {
        return MeshKind::Point;
    };
    if active.index != index || active.part != part {
        return MeshKind::Point;
    }
    match active.select_state {
        SelectState::Hover => MeshKind::Hover,
        SelectState::Drag => MeshKind::Drag,
    }
}

/// The state after the button went down over `found`: that part is dragged,
/// and nothing changes where the pointer is over no part.
pub open spec fn spec_press(active: Option<ActiveAnchor>, found: Option<(usize, AnchorPart)>) -> Option<
    ActiveAnchor,
> {
    match found {
        Some((index, part)) => Some(ActiveAnchor { index, part, select_state: SelectState::Drag }),
        None => active,
    }
}

/// The state after the button went down over `found`, and whether that
/// took hold of a part.
pub fn press(active: Option<ActiveAnchor>, found: Option<(usize, AnchorPart)>) -> (out: (
    Option<ActiveAnchor>,
    bool,
))
    ensures
        out.0 == spec_press(active, found),
        out.1 == found is Some,
{
    match found {
        Some((index, part)) => (
            Some(ActiveAnchor { index, part, select_state: SelectState::Drag }),
            true,
        ),
        None => (active, false),
    }
}

/// The state with the pointer over `found`: that part is hovered, and
/// nothing changes where the pointer is over no part.
pub open spec fn spec_hover(active: Option<ActiveAnchor>, found: Option<(usize, AnchorPart)>) -> Option<
    ActiveAnchor,
> {
    match found {
        Some((index, part)) => Some(ActiveAnchor { index, part, select_state: SelectState::Hover }),
        None => active,
    }
}

/// The state with the pointer over `found`.
pub fn hover(active: Option<ActiveAnchor>, found: Option<(usize, AnchorPart)>) -> (out: Option<
    ActiveAnchor,
>)
    ensures
        out == spec_hover(active, found),
{
    match found {
        Some((index, part)) => Some(ActiveAnchor { index, part, select_state: SelectState::Hover }),
        None => active,
    }
}

/// The state after the button came up over `found`: a drag ends, and the
/// part under the pointer, if any, is hovered; without a drag nothing
/// changes.
pub open spec fn spec_release(active: Option<ActiveAnchor>, found: Option<(usize, AnchorPart)>) -> Option<
    ActiveAnchor,
> {
    match active {
        Some(a) => match a.select_state {
            SelectState::Drag => spec_hover(None, found),
            SelectState::Hover => active,
        },
        None => active,
    }
}

/// The state after the button came up over `found`, and whether that ended
/// a drag.
pub fn release(active: Option<ActiveAnchor>, found: Option<(usize, AnchorPart)>) -> (out: (
    Option<ActiveAnchor>,
    bool,
))
    ensures
        out.0 == spec_release(active, found),
        out.1 == (active is Some && active->0.select_state == SelectState::Drag),
{
    let current = if let Some(current) = active {
        current
    } else {
        return (active, false);
    };
    match current.select_state {
        SelectState::Drag => (hover(None, found), true),
        SelectState::Hover => (active, false),
    }
}

} // verus!
