use qurvy::math::line::IntLine;
use qurvy::math::point::IntPoint;

#[test]
fn line_test_00() {
    let m = IntLine::new(IntPoint::new(0, 0), IntPoint::new(0, 8)).split_at(1, 1);
    assert_eq!(m, IntPoint::new(0, 4));
}

#[test]
fn line_test_01() {
    let line = IntLine::new(IntPoint::new(0, 0), IntPoint::new(0, 8));
    let m0 = line.split_at(0, 2);
    let m1 = line.split_at(1, 2);
    let m2 = line.split_at(2, 2);
    let m3 = line.split_at(3, 2);
    let m4 = line.split_at(4, 2);

    assert_eq!(m0, IntPoint::new(0, 0));
    assert_eq!(m1, IntPoint::new(0, 2));
    assert_eq!(m2, IntPoint::new(0, 4));
    assert_eq!(m3, IntPoint::new(0, 6));
    assert_eq!(m4, IntPoint::new(0, 8));
}

#[test]
fn line_test_02() {
    let line = IntLine::new(IntPoint::new(0, -4), IntPoint::new(0, 4));
    let m0 = line.split_at(0, 2);
    let m1 = line.split_at(1, 2);
    let m2 = line.split_at(2, 2);
    let m3 = line.split_at(3, 2);
    let m4 = line.split_at(4, 2);

    assert_eq!(m0, IntPoint::new(0, -4));
    assert_eq!(m1, IntPoint::new(0, -2));
    assert_eq!(m2, IntPoint::new(0, 0));
    assert_eq!(m3, IntPoint::new(0, 2));
    assert_eq!(m4, IntPoint::new(0, 4));
}

#[test]
fn line_test_03() {
    let line = IntLine::new(IntPoint::new(0, -4), IntPoint::new(0, 4));
    let m0 = line.split_at(0, 3);
    let m1 = line.split_at(1, 3);
    let m2 = line.split_at(2, 3);
    let m3 = line.split_at(3, 3);
    let m4 = line.split_at(4, 3);
    let m5 = line.split_at(5, 3);
    let m6 = line.split_at(6, 3);
    let m7 = line.split_at(7, 3);
    let m8 = line.split_at(8, 3);

    assert_eq!(m0, IntPoint::new(0, -4));
    assert_eq!(m1, IntPoint::new(0, -3));
    assert_eq!(m2, IntPoint::new(0, -2));
    assert_eq!(m3, IntPoint::new(0, -1));
    assert_eq!(m4, IntPoint::new(0, 0));
    assert_eq!(m5, IntPoint::new(0, 1));
    assert_eq!(m6, IntPoint::new(0, 2));
    assert_eq!(m7, IntPoint::new(0, 3));
    assert_eq!(m8, IntPoint::new(0, 4));
}

#[test]
fn line_rounds_down_between_grid_points() {
    assert_eq!(IntLine::split_one_dimension_at(0, 3, 1, 1), 1);
    assert_eq!(IntLine::split_one_dimension_at(0, -3, 1, 1), -2);
    assert_eq!(IntLine::split_one_dimension_at(5, 6, 1, 2), 5);
    assert_eq!(IntLine::split_one_dimension_at(6, 5, 1, 2), 5);
    assert_eq!(IntLine::split_one_dimension_at(10, 20, 3, 3), 13);
}

#[test]
fn line_spans_the_whole_coordinate_range() {
    let a: i64 = i64::MIN;
    let b: i64 = i64::MAX;
    assert_eq!(IntLine::split_one_dimension_at(a, b, 0, 63), a);
    assert_eq!(IntLine::split_one_dimension_at(a, b, 1usize << 63, 63), b);
    assert_eq!(IntLine::split_one_dimension_at(a, b, 1, 1), -1);
    assert_eq!(IntLine::split_one_dimension_at(b, a, 1, 1), -1);
    assert_eq!(IntLine::split_one_dimension_at(b, a, 1, 0), a);
}

#[test]
fn line_names_a_point_alike_at_every_depth() {
    let line = IntLine::new(IntPoint::new(-7, 11), IntPoint::new(100, -55));
    let mut k: u32 = 0;
    while k < 10 {
        let mut s: usize = 0;
        while s <= (1usize << k) {
            assert_eq!(line.split_at(2 * s, k + 1), line.split_at(s, k));
            s += 1;
        }
        k += 1;
    }
}
