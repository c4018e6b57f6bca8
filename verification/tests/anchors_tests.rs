use string_art::anchors::{circular_distance_of, is_admissible, AnchorTable, Point};
use string_art::error::ConfigError;

fn points_of(table: &AnchorTable) -> Vec<(u32, u32)> {
    (0..table.len()).map(|k| (table.point(k).x, table.point(k).y)).collect()
}

fn pixels(list: &[(u32, u32)]) -> Vec<Point> {
    list.iter().map(|&(x, y)| Point { x, y }).collect()
}

#[test]
fn square_of_eight_anchors() {
    let table = AnchorTable::square(8, 20).unwrap();
    assert_eq!(table.len(), 8);
    assert_eq!(table.side(), 20);
    assert_eq!(table.scale(), 2);
    assert_eq!(
        points_of(&table),
        vec![(0, 40), (20, 40), (40, 40), (40, 20), (40, 0), (20, 0), (0, 0), (0, 20)]
    );
}

#[test]
fn square_of_four_anchors_is_the_corners() {
    let table = AnchorTable::square(4, 300).unwrap();
    assert_eq!(table.scale(), 1);
    assert_eq!(points_of(&table), vec![(0, 300), (300, 300), (300, 0), (0, 0)]);
}

#[test]
fn square_spacing_is_exact_where_it_is_no_whole_pixel() {
    // twelve anchors on a side of ten: three to an edge, ten thirds of a pixel apart
    let table = AnchorTable::square(12, 10).unwrap();
    assert_eq!(table.scale(), 3);
    assert_eq!(
        points_of(&table),
        vec![
            (0, 30),
            (10, 30),
            (20, 30),
            (30, 30),
            (30, 20),
            (30, 10),
            (30, 0),
            (20, 0),
            (10, 0),
            (0, 0),
            (0, 10),
            (0, 20)
        ]
    );
}

#[test]
fn square_anchors_are_all_different() {
    let table = AnchorTable::square(4096, 2).unwrap();
    let mut seen = points_of(&table);
    seen.sort();
    seen.dedup();
    assert_eq!(seen.len(), 4096);
}

#[test]
fn square_refuses_a_bad_side() {
    assert_eq!(AnchorTable::square(8, 1).err(), Some(ConfigError::Side));
    assert_eq!(AnchorTable::square(8, 0).err(), Some(ConfigError::Side));
    assert_eq!(AnchorTable::square(8, 4097).err(), Some(ConfigError::Side));
    // the side is looked at first
    assert_eq!(AnchorTable::square(1, 1).err(), Some(ConfigError::Side));
}

#[test]
fn square_refuses_a_bad_count() {
    assert_eq!(AnchorTable::square(0, 20).err(), Some(ConfigError::AnchorCount));
    assert_eq!(AnchorTable::square(1, 20).err(), Some(ConfigError::AnchorCount));
    assert_eq!(AnchorTable::square(4100, 20).err(), Some(ConfigError::AnchorCount));
    assert_eq!(AnchorTable::square(2, 20).err(), Some(ConfigError::NotMultipleOfFour));
    assert_eq!(AnchorTable::square(271, 20).err(), Some(ConfigError::NotMultipleOfFour));
    assert!(AnchorTable::square(4096, 4096).is_ok());
}

#[test]
fn pixels_are_taken_as_they_come() {
    let list = [(20, 10), (17, 17), (10, 20), (3, 17), (0, 10), (3, 3), (10, 0), (17, 3)];
    let table = AnchorTable::from_pixels(pixels(&list), 20).unwrap();
    assert_eq!(table.len(), 8);
    assert_eq!(table.side(), 20);
    assert_eq!(table.scale(), 1);
    assert_eq!(points_of(&table), list.to_vec());
}

#[test]
fn pixels_are_refused_for_side_and_count() {
    assert_eq!(
        AnchorTable::from_pixels(pixels(&[(0, 0), (1, 1)]), 1).err(),
        Some(ConfigError::Side)
    );
    assert_eq!(
        AnchorTable::from_pixels(pixels(&[(0, 0), (1, 1)]), 4097).err(),
        Some(ConfigError::Side)
    );
    assert_eq!(AnchorTable::from_pixels(pixels(&[]), 20).err(), Some(ConfigError::AnchorCount));
    assert_eq!(
        AnchorTable::from_pixels(pixels(&[(3, 3)]), 20).err(),
        Some(ConfigError::AnchorCount)
    );
    let many: Vec<Point> = (0..4097u32).map(|k| Point { x: k % 100, y: k / 100 }).collect();
    assert_eq!(AnchorTable::from_pixels(many, 200).err(), Some(ConfigError::AnchorCount));
}

#[test]
fn pixels_outside_the_region_are_refused() {
    assert_eq!(
        AnchorTable::from_pixels(pixels(&[(0, 0), (21, 5)]), 20).err(),
        Some(ConfigError::AnchorOutside)
    );
    assert_eq!(
        AnchorTable::from_pixels(pixels(&[(0, 21), (5, 5)]), 20).err(),
        Some(ConfigError::AnchorOutside)
    );
    // the far edge itself belongs to the region
    assert!(AnchorTable::from_pixels(pixels(&[(0, 0), (20, 20)]), 20).is_ok());
    // a point outside is reported before two that coincide
    assert_eq!(
        AnchorTable::from_pixels(pixels(&[(1, 1), (1, 1), (30, 0)]), 20).err(),
        Some(ConfigError::AnchorOutside)
    );
}

#[test]
fn coincident_pixels_are_refused() {
    assert_eq!(
        AnchorTable::from_pixels(pixels(&[(1, 1), (2, 2), (1, 1)]), 20).err(),
        Some(ConfigError::AnchorsCoincide)
    );
    assert_eq!(
        AnchorTable::from_pixels(pixels(&[(5, 5), (5, 5)]), 20).err(),
        Some(ConfigError::AnchorsCoincide)
    );
    assert!(AnchorTable::from_pixels(pixels(&[(5, 5), (5, 6)]), 20).is_ok());
}

#[test]
fn distance_goes_the_shorter_way_round() {
    assert_eq!(circular_distance_of(271, 0, 270), 1);
    assert_eq!(circular_distance_of(271, 270, 0), 1);
    assert_eq!(circular_distance_of(271, 0, 135), 135);
    assert_eq!(circular_distance_of(271, 0, 136), 135);
    assert_eq!(circular_distance_of(8, 1, 5), 4);
    assert_eq!(circular_distance_of(8, 7, 2), 3);
    assert_eq!(circular_distance_of(8, 3, 3), 0);
}

#[test]
fn chords_between_near_neighbours_are_not_admissible() {
    // a fifteenth of 271 is 18
    assert!(!is_admissible(271, 0, 0));
    assert!(!is_admissible(271, 0, 18));
    assert!(is_admissible(271, 0, 19));
    assert!(is_admissible(271, 19, 0));
    assert!(is_admissible(271, 0, 252));
    assert!(!is_admissible(271, 0, 253));
    assert!(!is_admissible(271, 0, 270));
    assert!(!is_admissible(271, 100, 118));
    assert!(is_admissible(271, 100, 81));
}

#[test]
fn with_few_anchors_only_an_anchor_with_itself_is_not_admissible() {
    for i in 0..8 {
        for j in 0..8 {
            assert_eq!(is_admissible(8, i, j), i != j);
        }
    }
}

#[test]
fn anchors_outside_the_table_are_not_admissible() {
    assert!(!is_admissible(8, 8, 0));
    assert!(!is_admissible(8, 0, 8));
    assert!(!is_admissible(0, 0, 0));
}

#[test]
fn admissibility_is_kept_by_rotation() {
    let count = 31;
    for i in 0..count {
        for j in 0..count {
            assert_eq!(
                is_admissible(count, (i + 1) % count, (j + 1) % count),
                is_admissible(count, i, j)
            );
            assert_eq!(is_admissible(count, i, j), is_admissible(count, j, i));
        }
    }
}
