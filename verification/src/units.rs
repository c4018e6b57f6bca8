//! Fixed-point darkness and its conversion to and from 8-bit levels.

use vstd::prelude::*;

verus! {

/// Darkness of a fully dark pixel. A darkness `v` stands for the real number `v / UNIT`.
pub const UNIT: u64 = 10_000;

/// The most that one chord adds to one pixel: a twentieth of `UNIT`.
pub const CEILING: u64 = 500;

/// Distance from a line, in `1 / UNIT` of a pixel, at which its contribution vanishes:
/// six tenths of a pixel.
pub const REACH: u64 = 6_000;

/// The brightest 8-bit level.
pub const TOP_LEVEL: u64 = 255;

/// The numbers that the definitions of this crate spell out are these constants:
/// twice and the square of `UNIT`, twice `TOP_LEVEL`, `REACH`, `CEILING`, and
/// `REACH` less `CEILING` and less one.
pub proof fn lemma_constants()
    ensures
        2 * UNIT == 20_000,
        UNIT * UNIT == 100_000_000,
        2 * TOP_LEVEL == 510,
        REACH == 6_000,
        CEILING == 500,
        REACH - CEILING == 5_500,
        REACH - 1 == 5_999,
        CEILING * 20 == UNIT,
        REACH * 10 == UNIT * 6,
{
}

/// The darkness that an 8-bit level stands for: `level / 255` of `UNIT`,
/// to the nearest unit, halves rounded up.
pub open spec fn darkness_of_level(level: int) -> int {
    (20_000 * level + 255) / 510
}

/// The 8-bit level that shows a darkness: the darkness is capped at `UNIT`,
/// scaled to `0..=255` and rounded to the nearest level, halves rounded up.
pub open spec fn level_of_darkness(darkness: int) -> int {
    let capped = if darkness < 10_000 { darkness } else { 10_000 };
    (510 * capped + 10_000) / 20_000
}

/// The darkness of a level is the integer within half a unit of
/// `level * UNIT / 255`: twice their distance, times 255, is at most 255.
pub proof fn lemma_darkness_is_nearest(level: int)
    requires
        0 <= level <= TOP_LEVEL,
    ensures
        510 * darkness_of_level(level) - 255 <= 20_000 * level < 510 * darkness_of_level(level)
            + 255,
        0 <= darkness_of_level(level) <= UNIT,
{
}

/// The level of a darkness is the integer within half a level of
/// `min(darkness, UNIT) * 255 / UNIT`: twice their distance, times `UNIT`, is
/// at most `UNIT`.
pub proof fn lemma_level_is_nearest(darkness: int)
    requires
        0 <= darkness,
    ensures
        20_000 * level_of_darkness(darkness) - 10_000 <= 510 * (if darkness < UNIT {
            darkness
        } else {
            UNIT as int
        }) < 20_000 * level_of_darkness(darkness) + 10_000,
        0 <= level_of_darkness(darkness) <= TOP_LEVEL,
{
}

/// Converts an 8-bit level to darkness.
pub fn darkness_from_level(level: u8) -> (darkness: u64)
    ensures
        darkness as int == darkness_of_level(level as int),
        darkness <= UNIT,
{
    (20_000 * (level as u64) + 255) / 510
}

/// Converts a darkness to the 8-bit level that shows it.
pub fn level_from_darkness(darkness: u64) -> (level: u8)
    ensures
        level as int == level_of_darkness(darkness as int),
{
    let capped: u64 = if darkness < UNIT { darkness } else { UNIT };
    let level: u64 = (510 * capped + 10_000) / 20_000;
    level as u8
}

/// A level survives the way to darkness and back.
pub proof fn lemma_level_round_trip(level: int)
    requires
        0 <= level <= 255,
    ensures
        level_of_darkness(darkness_of_level(level)) == level,
{
}

} // verus!
