use string_art::grid::{Grid, MAX_SIDE};

#[test]
fn blank_grid_is_white() {
    let grid = Grid::blank(3);
    assert_eq!(grid.side(), 3);
    assert_eq!(grid.cells(), &vec![0u64; 9]);
}

#[test]
fn blank_grid_of_no_side_is_empty() {
    let grid = Grid::blank(0);
    assert_eq!(grid.side(), 0);
    assert!(grid.cells().is_empty());
}

#[test]
fn cells_are_kept_row_after_row() {
    let grid = Grid::from_cells(2, vec![1, 2, 3, 4]).unwrap();
    assert_eq!(grid.side(), 2);
    assert_eq!(grid.get(0, 0), 1);
    assert_eq!(grid.get(1, 0), 2);
    assert_eq!(grid.get(0, 1), 3);
    assert_eq!(grid.get(1, 1), 4);
    assert_eq!(grid.cells(), &vec![1, 2, 3, 4]);
}

#[test]
fn cells_that_make_no_square_are_refused() {
    assert!(Grid::from_cells(2, vec![1, 2, 3]).is_none());
    assert!(Grid::from_cells(2, vec![1, 2, 3, 4, 5]).is_none());
    assert!(Grid::from_cells(0, vec![1]).is_none());
    assert!(Grid::from_cells(0, vec![]).is_some());
}

#[test]
fn side_above_the_limit_is_refused() {
    assert_eq!(MAX_SIDE, 4096);
    assert!(Grid::from_cells(4097, vec![]).is_none());
    assert!(Grid::from_cells(4096, vec![0; 4096 * 4096]).is_some());
}

#[test]
fn deposit_adds_pixel_by_pixel() {
    let mut grid = Grid::from_cells(2, vec![1, 2, 3, 4]).unwrap();
    let layer = Grid::from_cells(2, vec![10, 0, 500, 7]).unwrap();
    grid.deposit(&layer);
    assert_eq!(grid.cells(), &vec![11, 2, 503, 11]);
    assert_eq!(layer.cells(), &vec![10, 0, 500, 7]);
    grid.deposit(&layer);
    assert_eq!(grid.cells(), &vec![21, 2, 1003, 18]);
}
