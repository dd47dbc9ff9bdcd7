use qurvy::math::point::IntPoint;
use qurvy::math::rect::IntRect;

#[test]
fn rect_test_0() {
    let rect = IntRect::with_points(&vec![
        IntPoint::new(0, 0),
        IntPoint::new(-7, 10),
        IntPoint::new(20, -5),
    ]);

    assert_eq!(rect.min.x, -7);
    assert_eq!(rect.max.x, 20);
    assert_eq!(rect.min.y, -5);
    assert_eq!(rect.max.y, 10);
}

#[test]
fn rect_test_1() {
    let a = IntRect::with_points(&vec![IntPoint::new(0, 0), IntPoint::new(10, 10)]);

    let b = IntRect::with_points(&vec![IntPoint::new(10, 10), IntPoint::new(20, 0)]);

    assert_eq!(a.is_intersect_border_exclude(&b), false);
    assert_eq!(a.is_intersect_border_include(&b), true);
}

#[test]
fn rect_of_no_points_is_empty() {
    let rect = IntRect::with_points(&[]);
    assert_eq!(rect, IntRect::empty());
    assert_eq!(rect.min, IntPoint::new(i64::MAX, i64::MAX));
    assert_eq!(rect.max, IntPoint::new(i64::MIN, i64::MIN));
    let other = IntRect::with_min_max(IntPoint::new(0, 0), IntPoint::new(1, 1));
    assert!(!rect.is_intersect_border_include(&other));
}

#[test]
fn rect_grows_by_points() {
    let mut rect = IntRect::empty();
    rect.add_point(&IntPoint::new(4, -4));
    assert_eq!(rect, IntRect::with_min_max(IntPoint::new(4, -4), IntPoint::new(4, -4)));
    rect.add_point(&IntPoint::new(-1, 9));
    assert_eq!(rect, IntRect::with_min_max(IntPoint::new(-1, -4), IntPoint::new(4, 9)));
    rect.add_point(&IntPoint::new(0, 0));
    assert_eq!(rect, IntRect::with_min_max(IntPoint::new(-1, -4), IntPoint::new(4, 9)));
}

#[test]
fn rects_that_overlap_inside() {
    let a = IntRect::with_min_max(IntPoint::new(0, 0), IntPoint::new(10, 10));
    let b = IntRect::with_min_max(IntPoint::new(9, 9), IntPoint::new(20, 20));
    let c = IntRect::with_min_max(IntPoint::new(11, 0), IntPoint::new(20, 10));
    assert!(a.is_intersect_border_exclude(&b));
    assert!(a.is_intersect_border_include(&b));
    assert!(!a.is_intersect_border_exclude(&c));
    assert!(!a.is_intersect_border_include(&c));
}
