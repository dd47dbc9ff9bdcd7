use qurvy::bezier::approximation::{IntApproximation, IntShort};
use qurvy::math::arith::ilog2;
use qurvy::bezier::spline::IntCADSpline;
use qurvy::bezier::spline_cube::IntCubeSpline;
use qurvy::bezier::spline_line::IntLineSpline;
use qurvy::bezier::spline_quad::IntQuadSpline;
use qurvy::math::point::IntPoint;

#[test]
fn approximation_test_00() {
    let p = IntPoint::new(100, 100);

    assert_eq!(p.is_small(2), false);
    assert_eq!(p.is_small(3), false);
    assert_eq!(p.is_small(4), false);
    assert_eq!(p.is_small(5), false);
    assert_eq!(p.is_small(6), false);
    assert_eq!(p.is_small(7), false);
    assert_eq!(p.is_small(8), true);
}

#[test]
fn approximation_test_01() {
    let spline = IntQuadSpline {
        a: IntPoint::new(0, 0),
        am: IntPoint::new(0, 50),
        bm: IntPoint::new(100, 50),
        b: IntPoint::new(100, 0),
    };

    let shorts = spline.approximate(800, 8);
    assert_eq!(shorts.len(), 6);
}

#[test]
fn approximation_test_02() {
    let spline = IntQuadSpline {
        a: IntPoint::new(0, 0),
        am: IntPoint::new(0, 50),
        bm: IntPoint::new(100, 50),
        b: IntPoint::new(100, 0),
    };

    let shorts = spline.approximate(800, 32);
    assert_eq!(shorts.len(), 5);
}

#[test]
fn approximation_test_03() {
    let spline = IntQuadSpline {
        a: IntPoint::new(0, 0),
        am: IntPoint::new(0, 50),
        bm: IntPoint::new(100, 50),
        b: IntPoint::new(100, 0),
    };

    let shorts = spline.approximate(900, 4);
    assert_eq!(shorts.len(), 8);
}

fn check_chain<S: IntCADSpline>(spline: &S, shorts: &[IntShort]) {
    assert!(!shorts.is_empty());
    assert_eq!(shorts[0].a, spline.start());
    assert_eq!(shorts[shorts.len() - 1].b, spline.end());
    assert_eq!(shorts[0].step, 0);
    let last = &shorts[shorts.len() - 1];
    assert_eq!(last.step + 1, 1usize << last.split_factor);
    for s in shorts {
        assert_eq!(s.a, spline.split_at(s.step, s.split_factor));
        assert_eq!(s.b, spline.split_at(s.step + 1, s.split_factor));
        assert_eq!(s.dir, s.b.diff(s.a).direction());
    }
    for w in shorts.windows(2) {
        assert_eq!(w[0].b, w[1].a);
        let depth: u32 = w[0].split_factor.max(w[1].split_factor);
        let end: usize = (w[0].step + 1) << (depth - w[0].split_factor);
        let start: usize = w[1].step << (depth - w[1].split_factor);
        assert_eq!(end, start);
    }
}

#[test]
fn flattening_of_an_arch_in_full() {
    let spline = IntQuadSpline {
        a: IntPoint::new(0, 0),
        am: IntPoint::new(0, 50),
        bm: IntPoint::new(100, 50),
        b: IntPoint::new(100, 0),
    };
    let shorts = spline.approximate(800, 32);
    check_chain(&spline, &shorts);
    let corners: Vec<IntPoint> = spline.approximate_points(800, 32);
    assert_eq!(
        corners,
        vec![
            IntPoint::new(0, 0),
            IntPoint::new(15, 27),
            IntPoint::new(30, 34),
            IntPoint::new(50, 37),
            IntPoint::new(83, 27),
            IntPoint::new(100, 0),
        ]
    );
    let depths: Vec<u32> = shorts.iter().map(|s| s.split_factor).collect();
    assert_eq!(depths, vec![2, 3, 3, 2, 2]);
    let steps: Vec<usize> = shorts.iter().map(|s| s.step).collect();
    assert_eq!(steps, vec![0, 2, 3, 2, 3]);
}

#[test]
fn flattening_keeps_a_straight_line_whole() {
    let spline = IntLineSpline { a: IntPoint::new(-30, -40), b: IntPoint::new(30, 40) };
    let shorts = spline.approximate(800, 4);
    assert_eq!(shorts.len(), 1);
    assert_eq!(shorts[0].step, 0);
    assert_eq!(shorts[0].split_factor, 0);
    assert_eq!(shorts[0].dir, IntPoint::new(614, 819));
    assert_eq!(shorts[0].a, IntPoint::new(-30, -40));
    assert_eq!(shorts[0].b, IntPoint::new(30, 40));
    assert_eq!(
        spline.approximate_points(800, 4),
        vec![IntPoint::new(-30, -40), IntPoint::new(30, 40)]
    );
}

#[test]
fn flattening_of_a_point_is_one_empty_segment() {
    let p = IntPoint::new(5, 5);
    let line = IntLineSpline { a: p, b: p };
    let shorts = line.approximate(1024, 1);
    assert_eq!(shorts.len(), 1);
    assert_eq!(shorts[0].a, p);
    assert_eq!(shorts[0].b, p);
    assert_eq!(shorts[0].dir, IntPoint::zero());
    let quad = IntQuadSpline { a: p, am: p, bm: p, b: p };
    assert_eq!(quad.approximate(0, 1).len(), 1);
    assert_eq!(quad.approximate_points(500, 7), vec![p, p]);
}

#[test]
fn flattening_of_a_loop_is_not_a_point() {
    let p = IntPoint::new(0, 0);
    let quad = IntQuadSpline {
        a: p,
        am: IntPoint::new(400, 400),
        bm: IntPoint::new(-400, 400),
        b: p,
    };
    let shorts = quad.approximate(900, 8);
    assert_eq!(shorts.len(), 15);
    check_chain(&quad, &shorts);
}

#[test]
fn flattening_stops_at_the_length_floor() {
    let spline = IntCubeSpline {
        a: IntPoint::new(0, 0),
        m: IntPoint::new(0, 1000),
        b: IntPoint::new(1000, 1000),
    };
    let floors: [u32; 6] = [1, 2, 4, 64, 1000, u32::MAX];
    let counts: [usize; 6] = [16, 16, 16, 16, 4, 2];
    for i in 0..6 {
        let shorts = spline.approximate(1024, floors[i]);
        check_chain(&spline, &shorts);
        assert_eq!(shorts.len(), counts[i]);
    }
    let angles: [u32; 6] = [0, 500, 800, 900, 1000, 1024];
    let counts: [usize; 6] = [1, 1, 4, 4, 10, 16];
    for i in 0..6 {
        let shorts = spline.approximate(angles[i], 16);
        check_chain(&spline, &shorts);
        assert_eq!(shorts.len(), counts[i]);
    }
}

#[test]
fn flattening_with_the_loosest_angle_never_bisects() {
    let spline = IntCubeSpline {
        a: IntPoint::new(0, 0),
        m: IntPoint::new(0, 1000),
        b: IntPoint::new(1000, 1000),
    };
    let shorts = spline.approximate(0, 1);
    assert_eq!(shorts.len(), 1);
}

#[test]
fn flattening_of_far_apart_points() {
    let far: i64 = 1_000_000_000_000;
    let spline = IntQuadSpline {
        a: IntPoint::new(-far, 0),
        am: IntPoint::new(-far, far),
        bm: IntPoint::new(far, far),
        b: IntPoint::new(far, 0),
    };
    let shorts = spline.approximate(1000, 1 << 30);
    check_chain(&spline, &shorts);
    assert_eq!(shorts.len(), 24);
}

#[test]
fn logarithms_round_down() {
    assert_eq!(ilog2(1), 0);
    assert_eq!(ilog2(2), 1);
    assert_eq!(ilog2(3), 1);
    assert_eq!(ilog2(8), 3);
    assert_eq!(ilog2(32), 5);
    assert_eq!(ilog2(141), 7);
    assert_eq!(ilog2(u64::MAX), 63);
}

#[test]
fn flattening_need_not_grow_with_a_stricter_angle() {
    let spline = IntQuadSpline {
        a: IntPoint::new(-421, 380),
        am: IntPoint::new(225, -704),
        bm: IntPoint::new(702, 558),
        b: IntPoint::new(711, -473),
    };
    assert_eq!(spline.approximate(848, 16).len(), 11);
    assert_eq!(spline.approximate(917, 16).len(), 10);
}

#[test]
fn flattening_need_not_grow_with_a_lower_floor() {
    let spline = IntCubeSpline {
        a: IntPoint::new(-434, 40),
        m: IntPoint::new(-297, -690),
        b: IntPoint::new(-483, 528),
    };
    assert_eq!(spline.approximate(339, 25).len(), 12);
    assert_eq!(spline.approximate(339, 11).len(), 10);
}

#[test]
fn flattening_to_one_segment_survives_a_looser_angle() {
    let spline = IntCubeSpline {
        a: IntPoint::new(0, 0),
        m: IntPoint::new(500, 40),
        b: IntPoint::new(1000, 0),
    };
    assert_eq!(spline.approximate(990, 4).len(), 1);
    let mut cos: u32 = 0;
    while cos <= 990 {
        assert_eq!(spline.approximate(cos, 1).len(), 1);
        assert_eq!(spline.approximate(cos, 512).len(), 1);
        cos += 90;
    }
    assert!(spline.approximate(1024, 4).len() > 1);
}
