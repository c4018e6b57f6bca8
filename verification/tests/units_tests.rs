use string_art::units::{darkness_from_level, level_from_darkness, CEILING, REACH, UNIT};

#[test]
fn constants_are_the_twentieth_and_six_tenths_of_the_unit() {
    assert_eq!(UNIT, 10_000);
    assert_eq!(CEILING * 20, UNIT);
    assert_eq!(REACH * 10, UNIT * 6);
}

#[test]
fn darkness_of_extreme_levels() {
    assert_eq!(darkness_from_level(0), 0);
    assert_eq!(darkness_from_level(255), 10_000);
}

#[test]
fn darkness_is_rounded_to_the_nearest_unit() {
    // 128 / 255 = 0.501960..., 1 / 255 = 0.003921..., 51 / 255 = 0.2 exactly
    assert_eq!(darkness_from_level(128), 5_020);
    assert_eq!(darkness_from_level(1), 39);
    assert_eq!(darkness_from_level(51), 2_000);
    assert_eq!(darkness_from_level(254), 9_961);
}

#[test]
fn level_is_rounded_to_the_nearest_level() {
    assert_eq!(level_from_darkness(0), 0);
    assert_eq!(level_from_darkness(10_000), 255);
    // 0.5 * 255 = 127.5 rounds up
    assert_eq!(level_from_darkness(5_000), 128);
    // 0.05 * 255 = 12.75
    assert_eq!(level_from_darkness(500), 13);
    // 0.0019 * 255 = 0.4845, 0.002 * 255 = 0.51
    assert_eq!(level_from_darkness(19), 0);
    assert_eq!(level_from_darkness(20), 1);
}

#[test]
fn level_is_capped_at_full_darkness() {
    assert_eq!(level_from_darkness(10_001), 255);
    assert_eq!(level_from_darkness(38_000), 255);
    assert_eq!(level_from_darkness(u64::MAX), 255);
}

#[test]
fn every_level_survives_the_round_trip() {
    for level in 0..=255u8 {
        assert_eq!(level_from_darkness(darkness_from_level(level)), level);
    }
}
