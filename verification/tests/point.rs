use qurvy::math::offset::IntOffset;
use qurvy::math::point::IntPoint;
use rand::Rng;

#[test]
fn test_basic_normalization() {
    assert_eq!(IntPoint::new(1024, 0).normalized_10bit(), IntPoint::new(1024, 0));
    assert_eq!(IntPoint::new(0, 1024).normalized_10bit(), IntPoint::new(0, 1024));
    assert_eq!(IntPoint::new(3, 4).normalized_10bit(), IntPoint::new(614, 819));
}

#[test]
fn test_big_numbers() {
    let x: i64 = 507758875930;
    let y: i64 = 748317763344;
    let p = IntPoint::new(x, y).normalized_10bit();
    let n = p.normalized_10bit();
    assert!(n.x.abs() <= 1024);
    assert!(n.y.abs() <= 1024);

    let sqr_len: i64 = n.x * n.x + n.y * n.y;
    let error: i64 = 1024 * 1024 - sqr_len;

    assert!(error < 1024 * 100);
}

#[test]
fn test_random_normalization_accuracy() {
    let mut rng = rand::rng();
    for _ in 0..1000 {
        let x: i64 = rng.random_range(-1_000_000_000_000..=1_000_000_000_000);
        let y: i64 = rng.random_range(-1_000_000_000_000..=1_000_000_000_000);
        if x == 0 && y == 0 {
            continue;
        }
        let p = IntPoint::new(x, y);
        let n = p.normalized_10bit();
        assert!(n.x.abs() <= 1024);
        assert!(n.y.abs() <= 1024);

        let sqr_len: i64 = n.x * n.x + n.y * n.y;
        let error: i64 = 1024 * 1024 - sqr_len;

        assert!(error < 1024 * 5);
    }
}

#[test]
fn normalization_of_large_vectors_is_exact() {
    assert_eq!(
        IntPoint::new(507758875930, 748317763344).normalized_10bit(),
        IntPoint::new(574, 847)
    );
    assert_eq!(IntPoint::new(-3, -4).normalized_10bit(), IntPoint::new(-614, -819));
    assert_eq!(IntPoint::new(1, 1).normalized_10bit(), IntPoint::new(1024, 1024));
    assert_eq!(IntPoint::new(i64::MIN, i64::MIN).normalized_10bit(), IntPoint::new(-724, -724));
    assert_eq!(IntPoint::new(i64::MAX, 0).normalized_10bit(), IntPoint::new(1024, 0));
    assert_eq!(IntPoint::new(0, i64::MIN).normalized_10bit(), IntPoint::new(0, -1024));
}

#[test]
fn normalization_is_a_unit_vector_up_to_rounding() {
    let mut x: i64 = -700;
    while x <= 700 {
        let mut y: i64 = -700;
        while y <= 700 {
            if x * x + y * y >= 0x4_0000 {
                let n = IntPoint::new(x, y).normalized_10bit();
                let sqr: i64 = n.x * n.x + n.y * n.y;
                assert!((sqr - 1024 * 1024).abs() <= 4097);
            }
            y += 37;
        }
        x += 41;
    }
}

#[test]
fn direction_of_nothing_is_nothing() {
    assert_eq!(IntPoint::zero().direction(), IntPoint::new(0, 0));
    assert_eq!(IntPoint::new(0, -5).direction(), IntPoint::new(0, -1024));
    assert_eq!(IntPoint::new(3, 4).direction(), IntPoint::new(614, 819));
}

#[test]
fn products_of_vectors() {
    let a = IntPoint::new(3, 4);
    let b = IntPoint::new(-2, 5);
    assert_eq!(a.dot_product(&b), 14);
    assert_eq!(a.cross_product(&b), 23);
    assert_eq!(b.cross_product(&a), -23);
    let big = IntPoint::new(3_000_000_000, 0);
    assert_eq!(big.dot_product(&big), 9_000_000_000_000_000_000);
}

#[test]
fn sums_and_differences_of_points() {
    let a = IntPoint::new(3, 4);
    let b = IntPoint::new(-2, 5);
    assert_eq!(a + b, IntPoint::new(1, 9));
    assert_eq!(a - b, IntPoint::new(5, -1));
    assert_eq!(a + IntOffset::new(10, -10), IntPoint::new(13, -6));
    assert_eq!(a - IntOffset::new(10, -10), IntPoint::new(-7, 14));
    assert!(a.fits_add(i64::MAX - 3, 0));
    assert!(!a.fits_add(i64::MAX - 2, 0));
    assert!(a.fits_sub(0, i64::MIN + 5));
    assert!(!a.fits_sub(0, i64::MIN + 4));
    assert!(a.is_within(4));
    assert!(!a.is_within(3));
    assert_eq!(a.sum(b), IntPoint::new(1, 9));
    assert_eq!(a.diff(b), IntPoint::new(5, -1));
    assert_eq!(a.shifted(IntOffset::new(10, -10)), IntPoint::new(13, -6));
    assert_eq!(a.shifted_back(IntOffset::new(10, -10)), IntPoint::new(-7, 14));
    assert_eq!(IntPoint::from(IntOffset::new(1, 2)), IntPoint::new(1, 2));
    assert_eq!(IntOffset::from(IntPoint::new(1, 2)), IntOffset::new(1, 2));
    assert_eq!(IntOffset::zero(), IntOffset::new(0, 0));
}

#[test]
fn lengths_and_small_vectors() {
    assert_eq!(IntPoint::new(3, 4).floor_length(), 5);
    assert_eq!(IntPoint::new(100, 100).floor_length(), 141);
    assert_eq!(IntPoint::new(0, 0).floor_length(), 0);
    assert_eq!(IntPoint::new(i64::MIN, i64::MIN).floor_length(), 13043817825332782212);
    assert!(IntPoint::new(0, 0).is_small(0));
    assert!(!IntPoint::new(1, 0).is_small(0));
    assert!(IntPoint::new(1, 0).is_small(1));
    assert!(!IntPoint::new(0, 2).is_small(1));
    assert!(IntPoint::new(i64::MAX, i64::MAX).is_small(64));
    assert!(!IntPoint::new(i64::MAX, i64::MAX).is_small(63));
}

#[test]
fn half_normal_turns_and_halves() {
    assert_eq!(IntPoint::new(10, 4).half_normal(), IntPoint::new(-2, 5));
    assert_eq!(IntPoint::new(-3, 3).half_normal(), IntPoint::new(-1, -1));
    assert_eq!(IntPoint::new(0, -5).half_normal(), IntPoint::new(2, 0));
}
