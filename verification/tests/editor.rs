use qurvy::bezier::anchor::{AnchorPart, IntBezierAnchor};
use qurvy::bezier::path::IntBezierPath;
use qurvy::editor::selection::{hover, mesh_kind, press, release, ActiveAnchor, MeshKind, SelectState};
use qurvy::editor::workspace::{next_test, prev_test, view_rect};
use qurvy::math::offset::IntOffset;
use qurvy::math::point::IntPoint;
use qurvy::math::rect::IntRect;

fn anchor() -> IntBezierAnchor {
    IntBezierAnchor {
        point: IntPoint::new(10, 20),
        handle_in: Some(IntOffset::new(-3, 0)),
        handle_out: None,
    }
}

#[test]
fn anchor_parts_lie_where_the_handles_point() {
    let a = anchor();
    assert!(a.is_wf());
    assert_eq!(AnchorPart::Point.point(&a), IntPoint::new(10, 20));
    assert_eq!(AnchorPart::HandleIn.point(&a), IntPoint::new(7, 20));
    assert_eq!(AnchorPart::HandleOut.point(&a), IntPoint::new(10, 20));
}

#[test]
fn anchor_parts_move_to_the_point_given() {
    let mut a = anchor();
    AnchorPart::Point.update_point(IntPoint::new(0, 0), &mut a);
    assert_eq!(a.point, IntPoint::new(0, 0));
    assert_eq!(a.handle_in, Some(IntOffset::new(-3, 0)));
    assert_eq!(a.handle_out, None);

    AnchorPart::HandleOut.update_point(IntPoint::new(5, -5), &mut a);
    assert_eq!(a.point, IntPoint::new(0, 0));
    assert_eq!(a.handle_out, Some(IntOffset::new(5, -5)));
    assert_eq!(AnchorPart::HandleOut.point(&a), IntPoint::new(5, -5));

    AnchorPart::HandleIn.update_point(IntPoint::new(-1, 8), &mut a);
    assert_eq!(a.handle_in, Some(IntOffset::new(-1, 8)));
    assert_eq!(AnchorPart::HandleIn.point(&a), IntPoint::new(-1, 8));
}

#[test]
fn anchor_with_a_handle_out_of_reach_is_not_sound() {
    let a = IntBezierAnchor {
        point: IntPoint::new(i64::MAX, 0),
        handle_in: None,
        handle_out: Some(IntOffset::new(1, 0)),
    };
    assert!(!a.is_wf());
    let path = IntBezierPath { anchors: vec![anchor(), a], closed: false };
    assert!(!path.is_wf());
    let path = IntBezierPath { anchors: vec![anchor(), anchor()], closed: false };
    assert!(path.is_wf());
}

#[test]
fn marks_follow_the_active_part() {
    let active = ActiveAnchor { index: 2, part: AnchorPart::HandleIn, select_state: SelectState::Hover };
    assert_eq!(mesh_kind(2, AnchorPart::HandleIn, Some(active)), MeshKind::Hover);
    assert_eq!(mesh_kind(2, AnchorPart::Point, Some(active)), MeshKind::Point);
    assert_eq!(mesh_kind(1, AnchorPart::HandleIn, Some(active)), MeshKind::Point);
    assert_eq!(mesh_kind(2, AnchorPart::HandleIn, None), MeshKind::Point);
    let dragged = ActiveAnchor { select_state: SelectState::Drag, ..active };
    assert_eq!(mesh_kind(2, AnchorPart::HandleIn, Some(dragged)), MeshKind::Drag);
}

#[test]
fn press_and_release_start_and_end_a_drag() {
    let (active, held) = press(None, Some((3, AnchorPart::Point)));
    assert!(held);
    assert_eq!(
        active,
        Some(ActiveAnchor { index: 3, part: AnchorPart::Point, select_state: SelectState::Drag })
    );
    let (same, held) = press(active, None);
    assert!(!held);
    assert_eq!(same, active);

    let (after, ended) = release(active, Some((4, AnchorPart::HandleOut)));
    assert!(ended);
    assert_eq!(
        after,
        Some(ActiveAnchor { index: 4, part: AnchorPart::HandleOut, select_state: SelectState::Hover })
    );
    let (after, ended) = release(active, None);
    assert!(ended);
    assert_eq!(after, None);
    let (after, ended) = release(after, Some((1, AnchorPart::Point)));
    assert!(!ended);
    assert_eq!(after, None);

    let hovering = hover(None, Some((0, AnchorPart::HandleIn)));
    assert_eq!(
        hovering,
        Some(ActiveAnchor { index: 0, part: AnchorPart::HandleIn, select_state: SelectState::Hover })
    );
    assert_eq!(hover(hovering, None), hovering);
    let (after, ended) = release(hovering, Some((9, AnchorPart::Point)));
    assert!(!ended);
    assert_eq!(after, hovering);
}

#[test]
fn examples_are_stepped_through_within_their_number() {
    assert_eq!(next_test(0, 3), Some(1));
    assert_eq!(next_test(1, 3), Some(2));
    assert_eq!(next_test(2, 3), None);
    assert_eq!(next_test(usize::MAX, 3), None);
    assert_eq!(next_test(0, 0), None);
    assert_eq!(prev_test(2), Some(1));
    assert_eq!(prev_test(0), None);
}

#[test]
fn view_holds_every_anchor_and_handle() {
    let empty: Vec<IntBezierPath> = vec![];
    assert_eq!(
        view_rect(&empty),
        IntRect::with_min_max(IntPoint::new(-10_000, -10_000), IntPoint::new(10_000, 10_000))
    );
    let a = IntBezierAnchor {
        point: IntPoint::new(0, 0),
        handle_in: Some(IntOffset::new(-50, 5)),
        handle_out: Some(IntOffset::new(0, 70)),
    };
    let b = IntBezierAnchor { point: IntPoint::new(30, -40), handle_in: None, handle_out: None };
    let curves = vec![
        IntBezierPath { anchors: vec![a], closed: true },
        IntBezierPath { anchors: vec![], closed: false },
        IntBezierPath { anchors: vec![b, a], closed: false },
    ];
    assert_eq!(
        view_rect(&curves),
        IntRect::with_min_max(IntPoint::new(-50, -40), IntPoint::new(30, 70))
    );
    let nothing = vec![IntBezierPath { anchors: vec![], closed: false }];
    assert_eq!(view_rect(&nothing), IntRect::empty());
}
