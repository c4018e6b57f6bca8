use string_art::anchors::{AnchorTable, Point};
use string_art::raster::{chord_mask, is_in_disk, profile_of};
use string_art::units::CEILING;

fn table_of(list: &[(u32, u32)], side: usize) -> AnchorTable {
    AnchorTable::from_pixels(list.iter().map(|&(x, y)| Point { x, y }).collect(), side).unwrap()
}

fn row(mask: &string_art::grid::Grid, y: usize) -> Vec<u64> {
    (0..mask.side()).map(|x| mask.get(x, y)).collect()
}

#[test]
fn profile_is_the_ceiling_near_the_line() {
    // on the line, and 0.55 of a pixel from it
    assert_eq!(profile_of(0, 4), 500);
    assert_eq!(profile_of(0, 1), 500);
    assert_eq!(profile_of(55, 10_000), 500);
}

#[test]
fn profile_falls_off_linearly() {
    // 0.56 and 0.57 of a pixel
    assert_eq!(profile_of(56, 10_000), 400);
    assert_eq!(profile_of(57, 10_000), 300);
    // 0.5999 of a pixel
    assert_eq!(profile_of(5_999, 100_000_000), 1);
    // 1 / sqrt(3) = 0.57735...
    assert_eq!(profile_of(1, 3), 226);
}

#[test]
fn profile_vanishes_from_six_tenths_on() {
    assert_eq!(profile_of(6_000, 100_000_000), 0);
    assert_eq!(profile_of(59_995, 10_000_000_000), 0);
    assert_eq!(profile_of(2, 4), 0);
    assert_eq!(profile_of(1 << 46, 1), 0);
}

#[test]
fn disk_is_the_inscribed_one() {
    assert!(is_in_disk(20, 10, 10));
    assert!(is_in_disk(20, 10, 0));
    assert!(is_in_disk(20, 0, 10));
    assert!(!is_in_disk(20, 0, 0));
    assert!(!is_in_disk(20, 19, 19));
    // (3, 3): 14 * 14 * 2 = 392 <= 400; (2, 3): 16 * 16 + 14 * 14 = 452
    assert!(is_in_disk(20, 3, 3));
    assert!(!is_in_disk(20, 2, 3));
}

#[test]
fn vertical_chord_is_drawn_down_its_column() {
    let table = table_of(&[(10, 0), (0, 10), (10, 20), (20, 10)], 20);
    let mask = chord_mask(&table, true, 0, 2);
    assert_eq!(mask.side(), 20);
    for y in 0..20 {
        for x in 0..20 {
            let expected = if x == 10 { 500 } else { 0 };
            assert_eq!(mask.get(x, y), expected, "at ({}, {})", x, y);
        }
    }
}

#[test]
fn horizontal_chord_is_drawn_along_its_row() {
    let table = table_of(&[(10, 0), (0, 10), (10, 20), (20, 10)], 20);
    let mask = chord_mask(&table, true, 1, 3);
    for y in 0..20 {
        for x in 0..20 {
            let expected = if y == 10 { 500 } else { 0 };
            assert_eq!(mask.get(x, y), expected, "at ({}, {})", x, y);
        }
    }
}

#[test]
fn no_pixel_gets_more_than_the_ceiling() {
    let list = [(20, 10), (17, 17), (10, 20), (3, 17), (0, 10), (3, 3), (10, 0), (17, 3)];
    let table = table_of(&list, 20);
    for i in 0..8 {
        for j in 0..8 {
            let mask = chord_mask(&table, true, i, j);
            assert!(mask.cells().iter().all(|&v| v <= CEILING));
        }
    }
}

#[test]
fn chord_is_the_same_from_either_end() {
    let list = [(20, 10), (17, 17), (10, 20), (3, 17), (0, 10), (3, 3), (10, 0), (17, 3)];
    let table = table_of(&list, 20);
    for i in 0..8 {
        for j in 0..i {
            let there = chord_mask(&table, true, i, j);
            let back = chord_mask(&table, true, j, i);
            assert_eq!(there.cells(), back.cells());
        }
    }
}

#[test]
fn chord_from_an_anchor_to_itself_adds_nothing() {
    let table = table_of(&[(10, 0), (0, 10), (10, 20), (20, 10)], 20);
    let mask = chord_mask(&table, false, 1, 1);
    assert!(mask.cells().iter().all(|&v| v == 0));
}

#[test]
fn disk_cuts_the_chord_off() {
    // the diagonal of the square passes through the corner pixels
    let table = table_of(&[(0, 0), (20, 0), (20, 20), (0, 20)], 20);
    let whole = chord_mask(&table, false, 0, 2);
    let cut = chord_mask(&table, true, 0, 2);
    for k in 0..20 {
        assert_eq!(whole.get(k, k), 500);
        let inside = is_in_disk(20, k, k);
        assert_eq!(cut.get(k, k), if inside { 500 } else { 0 });
    }
    assert_eq!(whole.get(0, 0), 500);
    assert_eq!(cut.get(0, 0), 0);
    assert_eq!(cut.get(3, 3), 500);
    // next to the diagonal the distance is 1 / sqrt(2), beyond the reach
    assert_eq!(whole.get(1, 0), 0);
}

#[test]
fn chord_between_anchors_off_the_pixel_raster() {
    // anchors in half pixels: from (0, 20) to (20, 0), and from (10, 20) to (0, 0)
    let table = AnchorTable::square(8, 20).unwrap();
    let diagonal = chord_mask(&table, false, 0, 4);
    assert_eq!(row(&diagonal, 0), vec![0; 20]);
    let mut second = vec![0; 20];
    second[19] = 500;
    assert_eq!(row(&diagonal, 1), second);
    let mut last = vec![0; 20];
    last[1] = 500;
    assert_eq!(row(&diagonal, 19), last);
    assert_eq!(diagonal.cells().iter().sum::<u64>(), 9_500);

    let steep = chord_mask(&table, false, 1, 6);
    let mut third = vec![0; 20];
    third[1] = 500;
    assert_eq!(row(&steep, 2), third);
    let mut fourth = vec![0; 20];
    fourth[1] = 500;
    fourth[2] = 500;
    assert_eq!(row(&steep, 3), fourth);
    assert_eq!(steep.cells().iter().sum::<u64>(), 15_000);
}

#[test]
fn chord_along_the_far_edge_misses_every_pixel() {
    let table = AnchorTable::square(8, 20).unwrap();
    let edge = chord_mask(&table, false, 0, 1);
    assert!(edge.cells().iter().all(|&v| v == 0));
}
