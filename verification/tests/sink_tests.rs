use string_art::grid::Grid;
use string_art::sink::{new_frame, paint_preview, render_levels, side_padding};

#[test]
fn padding_is_three_tenths_of_the_side() {
    assert_eq!(side_padding(300), 90);
    assert_eq!(side_padding(20), 6);
    assert_eq!(side_padding(3), 0);
    assert_eq!(side_padding(4), 1);
    assert_eq!(side_padding(0), 0);
    assert_eq!(side_padding(4096), 1228);
}

#[test]
fn frame_has_a_row_above_and_below_and_a_margin_on_each_side() {
    let frame = new_frame(300, 90);
    assert_eq!(frame.len(), 302 * 480);
    assert!(frame.iter().all(|&word| word == 0));
    assert_eq!(new_frame(2, 1).len(), 16);
    assert_eq!(new_frame(0, 0).len(), 0);
}

#[test]
fn levels_show_the_grid() {
    let grid = Grid::from_cells(2, vec![0, 10_000, 5_000, 500]).unwrap();
    assert_eq!(render_levels(&grid), vec![0, 255, 128, 13]);
}

#[test]
fn levels_are_capped_at_the_brightest() {
    let grid = Grid::from_cells(2, vec![10_001, 32_000, 9_999, 9_980]).unwrap();
    assert_eq!(render_levels(&grid), vec![255, 255, 255, 254]);
}

#[test]
fn preview_is_painted_inside_the_margin() {
    let grid = Grid::from_cells(2, vec![0, 10_000, 5_000, 500]).unwrap();
    let mut frame = vec![7u32; 16];
    paint_preview(&mut frame, &grid, 1);
    assert_eq!(
        frame,
        vec![7, 7, 7, 7, 7, 0, 0xFF_FFFF, 7, 7, 0x80_8080, 0x0D_0D0D, 7, 7, 7, 7, 7]
    );
}

#[test]
fn preview_without_margin() {
    let grid = Grid::from_cells(1, vec![10_000]).unwrap();
    let mut frame = vec![1u32, 2, 3];
    paint_preview(&mut frame, &grid, 0);
    assert_eq!(frame, vec![1, 0xFF_FFFF, 3]);
}

#[test]
fn preview_is_painted_over() {
    let mut frame = new_frame(2, 0);
    let first = Grid::from_cells(2, vec![10_000; 4]).unwrap();
    paint_preview(&mut frame, &first, 0);
    assert_eq!(frame, vec![0, 0, 0xFF_FFFF, 0xFF_FFFF, 0xFF_FFFF, 0xFF_FFFF, 0, 0]);
    let second = Grid::from_cells(2, vec![0, 0, 0, 2_000]).unwrap();
    paint_preview(&mut frame, &second, 0);
    assert_eq!(frame, vec![0, 0, 0, 0, 0, 0x33_3333, 0, 0]);
}
