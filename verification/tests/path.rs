use qurvy::bezier::anchor::IntBezierAnchor;
use qurvy::bezier::length::max_split_factor;
use qurvy::bezier::path::{IntBezierPath, SplineIterator};
use qurvy::bezier::spline::{IntCADSpline, IntSpline};
use qurvy::bezier::spline_line::IntLineSpline;
use qurvy::bezier::iter::IntSplinePointsIterator;
use qurvy::math::offset::IntOffset;
use qurvy::math::point::IntPoint;
use qurvy::math::rect::IntRect;

fn diamond(closed: bool) -> IntBezierPath {
    IntBezierPath {
        anchors: vec![
            IntBezierAnchor {
                point: IntPoint { x: -1000, y: 0 },
                handle_in: Some(IntOffset { x: 0, y: -100 }),
                handle_out: Some(IntOffset { x: 0, y: 100 }),
            },
            IntBezierAnchor {
                point: IntPoint { x: 0, y: 1000 },
                handle_in: Some(IntOffset { x: -100, y: 0 }),
                handle_out: Some(IntOffset { x: 100, y: 0 }),
            },
            IntBezierAnchor {
                point: IntPoint { x: 1000, y: 0 },
                handle_in: Some(IntOffset { x: 0, y: 100 }),
                handle_out: Some(IntOffset { x: 0, y: -100 }),
            },
            IntBezierAnchor {
                point: IntPoint { x: 0, y: -1000 },
                handle_in: Some(IntOffset { x: 100, y: 0 }),
                handle_out: Some(IntOffset { x: -100, y: 0 }),
            },
        ],
        closed,
    }
}

#[test]
fn path_test_00() {
    let path = IntBezierPath {
        anchors: vec![
            IntBezierAnchor {
                point: IntPoint { x: -1000, y: 0 },
                handle_in: Some(IntOffset { x: 0, y: -100 }),
                handle_out: Some(IntOffset { x: 0, y: 100 }),
            },
            IntBezierAnchor {
                point: IntPoint { x: 0, y: 1000 },
                handle_in: Some(IntOffset { x: -100, y: 0 }),
                handle_out: Some(IntOffset { x: 100, y: 0 }),
            },
            IntBezierAnchor {
                point: IntPoint { x: 1000, y: 0 },
                handle_in: Some(IntOffset { x: 0, y: 100 }),
                handle_out: Some(IntOffset { x: 0, y: -100 }),
            },
            IntBezierAnchor {
                point: IntPoint { x: 0, y: -1000 },
                handle_in: Some(IntOffset { x: 100, y: 0 }),
                handle_out: Some(IntOffset { x: -100, y: 0 }),
            },
        ],
        closed: true,
    };

    let points = path.points(2);

    assert_eq!(points.len(), 16);
}

#[test]
fn path_points_start_each_edge_at_its_anchor() {
    let path = diamond(true);
    let points = path.points(2);
    assert_eq!(points[0], IntPoint::new(-1000, 0));
    assert_eq!(points[4], IntPoint::new(0, 1000));
    assert_eq!(points[8], IntPoint::new(1000, 0));
    assert_eq!(points[12], IntPoint::new(0, -1000));
    assert_eq!(points[2], IntPoint::new(-538, 537));
    assert_eq!(points[14], IntPoint::new(-538, -538));
    let open = diamond(false).points(2);
    assert_eq!(open.len(), 12);
    assert_eq!(open, points[..12].to_vec());
}

#[test]
fn path_without_edges_has_no_points() {
    let empty = IntBezierPath { anchors: vec![], closed: true };
    assert_eq!(empty.points(3).len(), 0);
    assert_eq!(empty.splines().len(), 0);
    let lone = IntBezierAnchor { point: IntPoint::new(3, 4), handle_in: None, handle_out: None };
    let open = IntBezierPath { anchors: vec![lone], closed: false };
    assert_eq!(open.points(3).len(), 0);
    let closed = IntBezierPath { anchors: vec![lone], closed: true };
    assert_eq!(closed.points(3), vec![IntPoint::new(3, 4); 8]);
}

#[test]
fn path_edges_take_their_kind_from_the_handles() {
    let a = IntBezierAnchor {
        point: IntPoint::new(0, 0),
        handle_in: Some(IntOffset::new(-5, 0)),
        handle_out: None,
    };
    let b = IntBezierAnchor {
        point: IntPoint::new(10, 0),
        handle_in: Some(IntOffset::new(0, 5)),
        handle_out: Some(IntOffset::new(0, -5)),
    };
    let c = IntBezierAnchor {
        point: IntPoint::new(20, 0),
        handle_in: None,
        handle_out: None,
    };
    assert_eq!(a.handle_in_point(), Some(IntPoint::new(-5, 0)));
    assert_eq!(a.handle_out_point(), None);
    assert_eq!(b.handle_out_point(), Some(IntPoint::new(10, -5)));
    let path = IntBezierPath { anchors: vec![a, b, c], closed: true };
    let edges = path.splines();
    assert_eq!(edges.len(), 3);
    assert!(matches!(edges[0], IntSpline::Cube(s) if s.m == IntPoint::new(10, 5)));
    assert!(matches!(edges[1], IntSpline::Cube(s) if s.m == IntPoint::new(10, -5)));
    assert!(matches!(edges[2], IntSpline::Cube(s) if s.m == IntPoint::new(-5, 0)));
    let ac = IntSpline::new(&c, &c);
    assert!(matches!(ac, IntSpline::Line(s) if s.a == s.b));
    let ba = IntSpline::new(&b, &a);
    assert!(matches!(ba, IntSpline::Quad(s) if s.am == IntPoint::new(10, -5) && s.bm == IntPoint::new(-5, 0)));

    let mut cursor = SplineIterator::new(&path);
    let mut count: usize = 0;
    while cursor.next().is_some() {
        count += 1;
    }
    assert_eq!(count, 3);
    assert!(cursor.next().is_none());
}

#[test]
fn spline_points_with_and_without_the_ends() {
    let line = IntLineSpline { a: IntPoint::new(0, 0), b: IntPoint::new(8, 16) };
    let all = IntSplinePointsIterator::new(2, true, true, &line).collect();
    assert_eq!(
        all,
        vec![
            IntPoint::new(0, 0),
            IntPoint::new(2, 4),
            IntPoint::new(4, 8),
            IntPoint::new(6, 12),
            IntPoint::new(8, 16),
        ]
    );
    assert_eq!(IntSplinePointsIterator::new(2, false, false, &line).collect(), all[1..4].to_vec());
    assert_eq!(IntSplinePointsIterator::new(0, false, false, &line).collect(), vec![]);
    let mut cursor = IntSplinePointsIterator::new(1, true, false, &line);
    assert_eq!(cursor.next(), Some(IntPoint::new(0, 0)));
    assert_eq!(cursor.next(), Some(IntPoint::new(4, 8)));
    assert_eq!(cursor.next(), None);
    assert_eq!(cursor.next(), None);
    assert_eq!(IntSpline::Line(line).regular_points(2), all[..4].to_vec());
    assert_eq!(line.start_dir(), line.end_dir());
    assert_eq!(line.boundary(), IntRect::with_min_max(IntPoint::new(0, 0), IntPoint::new(8, 16)));
}

#[test]
fn spline_lengths() {
    let line = IntSpline::Line(IntLineSpline { a: IntPoint::new(0, 0), b: IntPoint::new(100, 100) });
    assert_eq!(line.avg_length(800, 3), 141);
    let path = diamond(true);
    let edge = path.splines()[0];
    let points = edge.approximate_points(1000, 16);
    let mut sum: u128 = 0;
    for w in points.windows(2) {
        sum += w[1].diff(w[0]).floor_length() as u128;
    }
    assert_eq!(edge.avg_length(1000, 16), sum);
    assert!(sum > 1414 && sum < 1600);
    assert_eq!(max_split_factor(141), 5);
    assert_eq!(max_split_factor(162), 5);
    assert_eq!(max_split_factor(3), 0);
    assert_eq!(max_split_factor(4), 0);
    assert_eq!(max_split_factor(8), 1);
}
