use string_art::error::ConfigError;
use string_art::target::{crop_to_circle, prepare_target, target_from_luma};
use string_art::config::Shape;
use string_art::units::darkness_from_level;

#[test]
fn crop_keeps_the_inscribed_circle() {
    let pixels: Vec<u8> = (1..=16).collect();
    let cropped = crop_to_circle(&pixels, 4, 4);
    assert_eq!(cropped, vec![0, 0, 3, 0, 0, 6, 7, 8, 9, 10, 11, 12, 0, 14, 15, 16]);
}

#[test]
fn crop_takes_the_top_left_square_of_even_side() {
    let pixels: Vec<u8> = (1..=15).collect();
    // five wide, three high: the radius is one
    let cropped = crop_to_circle(&pixels, 5, 3);
    assert_eq!(cropped, vec![0, 2, 6, 7]);
}

#[test]
fn crop_of_a_sliver_is_empty() {
    assert_eq!(crop_to_circle(&vec![9, 9, 9], 3, 1), Vec::<u8>::new());
    assert_eq!(crop_to_circle(&vec![], 0, 0), Vec::<u8>::new());
}

#[test]
fn target_holds_each_level_as_darkness() {
    let grid = target_from_luma(&vec![0, 255, 128, 51], 2, 2);
    assert_eq!(grid.side(), 2);
    assert_eq!(grid.cells(), &vec![0, 10_000, 5_020, 2_000]);
}

#[test]
fn target_is_white_beyond_the_picture() {
    let grid = target_from_luma(&vec![0, 255, 128, 51], 2, 3);
    assert_eq!(grid.side(), 3);
    assert_eq!(grid.cells(), &vec![0, 10_000, 0, 5_020, 2_000, 0, 0, 0, 0]);
}

#[test]
fn picture_of_the_right_size_is_taken_as_it_is() {
    let made = prepare_target(&vec![0, 255, 128, 51], 2, 2, 2, Shape::Square).unwrap();
    assert_eq!(made.side(), 2);
    assert_eq!(made.cells(), &vec![0, 10_000, 5_020, 2_000]);
}

#[test]
fn disk_target_is_white_outside_the_circle() {
    let made = prepare_target(&vec![255; 4], 2, 2, 2, Shape::Circle).unwrap();
    assert_eq!(made.cells(), &vec![0, 10_000, 10_000, 10_000]);
    let made = prepare_target(&vec![255; 16], 4, 4, 4, Shape::Circle).unwrap();
    let d = 10_000;
    assert_eq!(made.cells(), &vec![0, 0, d, 0, 0, d, d, d, d, d, d, d, 0, d, d, d]);
}

#[test]
fn disk_target_of_odd_side_keeps_its_side() {
    let made = prepare_target(&vec![255; 9], 3, 3, 3, Shape::Circle).unwrap();
    assert_eq!(made.side(), 3);
    assert_eq!(made.cells(), &vec![0, 10_000, 0, 10_000, 10_000, 0, 0, 0, 0]);
}

#[test]
fn larger_picture_is_sampled_down() {
    let pixels: Vec<u8> = (0..16).map(|k| 10 * k).collect();
    let made = prepare_target(&pixels, 4, 4, 2, Shape::Square).unwrap();
    assert_eq!(made.side(), 2);
    let expected: Vec<u64> = [50u8, 70, 130, 150].iter().map(|&v| darkness_from_level(v)).collect();
    assert_eq!(made.cells(), &expected);
}

#[test]
fn smaller_picture_is_sampled_up() {
    let made = prepare_target(&vec![0, 255, 51, 102], 2, 2, 4, Shape::Square).unwrap();
    assert_eq!(made.side(), 4);
    let (a, b, c, d) = (0, 10_000, 2_000, 4_000);
    assert_eq!(made.cells(), &vec![a, a, b, b, a, a, b, b, c, c, d, d, c, c, d, d]);
}

#[test]
fn picture_that_is_not_square_is_sampled_to_the_square() {
    // one row of four becomes two rows of two
    let made = prepare_target(&vec![0, 51, 102, 255], 4, 1, 2, Shape::Square).unwrap();
    assert_eq!(made.cells(), &vec![2_000, 10_000, 2_000, 10_000]);
}

#[test]
fn bad_side_is_refused_first() {
    assert_eq!(prepare_target(&vec![1; 4], 2, 2, 1, Shape::Square).err(), Some(ConfigError::Side));
    assert_eq!(prepare_target(&vec![1; 4], 2, 2, 0, Shape::Circle).err(), Some(ConfigError::Side));
    assert_eq!(
        prepare_target(&vec![1; 4], 2, 2, 4097, Shape::Square).err(),
        Some(ConfigError::Side)
    );
    assert_eq!(prepare_target(&vec![], 0, 0, 1, Shape::Square).err(), Some(ConfigError::Side));
}

#[test]
fn bad_source_is_refused() {
    assert_eq!(prepare_target(&vec![], 0, 0, 2, Shape::Square).err(), Some(ConfigError::Source));
    assert_eq!(prepare_target(&vec![], 0, 5, 2, Shape::Square).err(), Some(ConfigError::Source));
    assert_eq!(prepare_target(&vec![], 5, 0, 2, Shape::Square).err(), Some(ConfigError::Source));
    assert_eq!(
        prepare_target(&vec![1; 5], 2, 2, 2, Shape::Square).err(),
        Some(ConfigError::Source)
    );
    assert_eq!(
        prepare_target(&vec![1; 3], 2, 2, 2, Shape::Circle).err(),
        Some(ConfigError::Source)
    );
}
