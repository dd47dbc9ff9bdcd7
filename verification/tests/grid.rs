use qurvy::convert::grid::Grid;

#[test]
fn grid_test_0() {
    let grid = Grid::new(0, 4);
    assert_eq!(grid.snap_to_grid_value(7), 0);
}

#[test]
fn grid_test_1() {
    let grid = Grid::new(0, 4);
    assert_eq!(grid.snap_to_grid_value(8), 16);
}

#[test]
fn test_2() {
    let grid = Grid::new(0, 4);
    assert_eq!(grid.snap_to_grid_value(-7), 0);
}

#[test]
fn test_3() {
    let grid = Grid::new(0, 4);
    assert_eq!(grid.snap_to_grid_value(-9), -16);
}

#[test]
fn grid_snaps_halves_upward() {
    let grid = Grid::new(0, 4);
    assert_eq!(grid.snap_to_grid_value(-8), 0);
    assert_eq!(grid.snap_to_grid_value(24), 32);
    assert_eq!(grid.snap_to_grid_value(23), 16);
    assert_eq!(grid.snap_to_grid_value(-24), -16);
    assert_eq!(grid.snap_to_grid_value(-25), -32);
}

#[test]
fn grid_keeps_aligned_values() {
    let grid = Grid::new(10, 3);
    let mut v: i64 = -80;
    while v <= 80 {
        assert_eq!(grid.snap_to_grid_value(v), v);
        v += 8;
    }
}

#[test]
fn grid_snap_is_idempotent_and_near() {
    let grid = Grid::default();
    let mut a: i64 = -100;
    while a <= 100 {
        let s: i64 = grid.snap_to_grid_value(a);
        assert_eq!(s % 16, 0);
        assert!(s - a <= 8);
        assert!(a - s < 8);
        assert_eq!(grid.snap_to_grid_value(s), s);
        a += 1;
    }
}

#[test]
fn grid_with_unit_cells_changes_nothing() {
    let grid = Grid::new(5, 0);
    assert_eq!(grid.snap_to_grid_value(i64::MAX), i64::MAX);
    assert_eq!(grid.snap_to_grid_value(i64::MIN), i64::MIN);
    assert_eq!(grid.snap_to_grid_value(-3), -3);
    assert_eq!(grid.remainder_mask(), 0);
}

#[test]
fn grid_reports_its_powers() {
    let grid = Grid::debug();
    assert_eq!(grid.size_power(), 3);
    assert_eq!(grid.exponent(), 13);
    assert_eq!(grid.remainder_mask(), 7);
    let grid = Grid::default();
    assert_eq!(grid.size_power(), 4);
    assert_eq!(grid.exponent(), 24);
    assert_eq!(grid.remainder_mask(), 15);
}
