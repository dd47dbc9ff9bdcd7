use qurvy::bezier::spline::IntSpline;
use qurvy::bezier::spline_line::IntLineSpline;
use qurvy::math::point::IntPoint;
use qurvy::math::rect::IntRect;
use qurvy::overlay::count::ShapeCountBoolean;
use qurvy::overlay::fragment::Fragment;
use qurvy::overlay::segment::{ShapePart, ShapeSegment, ShapeType};
use qurvy::overlay::shapes::Overlay;

#[test]
fn counts_add_and_invert() {
    let a = ShapeCountBoolean::new(2, -1);
    let b = ShapeCountBoolean::subj_direct();
    assert_eq!(a.add(b), ShapeCountBoolean::new(3, -1));
    assert_eq!(a.add(ShapeCountBoolean::clip_invert()), ShapeCountBoolean::new(2, -2));
    assert_eq!(a.invert(), ShapeCountBoolean::new(-2, 1));
    assert_eq!(ShapeCountBoolean::subj_invert(), ShapeCountBoolean::subj_direct().invert());
    assert_eq!(ShapeCountBoolean::clip_invert(), ShapeCountBoolean::clip_direct().invert());
    let mut c = ShapeCountBoolean::new(0, 0);
    c.apply(ShapeCountBoolean::clip_direct());
    c.apply(ShapeCountBoolean::clip_direct());
    c.apply(ShapeCountBoolean::subj_invert());
    assert_eq!(c, ShapeCountBoolean { subj: -1, clip: 2 });
}

#[test]
fn overlay_starts_without_edges() {
    let mut overlay = Overlay::new();
    assert!(overlay.sections.is_empty());
    let line = IntLineSpline { a: IntPoint::new(0, 0), b: IntPoint::new(1, 1) };
    overlay.sections.push(ShapeSegment {
        shape_type: ShapeType::Clip,
        part: ShapePart::Spline(IntSpline::Line(line)),
    });
    assert_eq!(overlay.clone().sections.len(), 1);
    assert!(matches!(overlay.sections[0].shape_type, ShapeType::Clip));
}

#[test]
fn fragment_holds_the_strip_beside_its_chord() {
    let f = Fragment::with_ab(7, 3, 2, IntPoint::new(0, 0), IntPoint::new(10, 4));
    assert_eq!(f.segment_id, 7);
    assert_eq!(f.step, 3);
    assert_eq!(f.split_factor, 2);
    assert_eq!(f.boundary, IntRect::with_min_max(IntPoint::new(-2, 0), IntPoint::new(10, 9)));
    let g = Fragment::new(1, 2, 3, f.boundary);
    assert_eq!(g.boundary, f.boundary);
    assert_eq!((g.segment_id, g.step, g.split_factor), (1, 2, 3));
    let h = Fragment::with_ab(0, 0, 0, IntPoint::new(5, 5), IntPoint::new(5, 5));
    assert_eq!(h.boundary, IntRect::with_min_max(IntPoint::new(5, 5), IntPoint::new(5, 5)));
}
