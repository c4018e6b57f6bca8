//! What can be wrong with a configuration.

use vstd::prelude::*;

verus! {

/// Why a configuration was refused.
#[derive(Debug, Clone, Copy, PartialEq, Eq, Structural)]
pub enum ConfigError {
    /// The side is below two pixels or above `MAX_SIDE`.
    Side,
    /// There are fewer than two anchors, or more than `MAX_ANCHORS`.
    AnchorCount,
    /// Anchors on a square were asked for in a number that is no multiple of four.
    NotMultipleOfFour,
    /// An anchor lies outside the working region.
    AnchorOutside,
    /// Two anchors lie on the same point.
    AnchorsCoincide,
    /// The anchors were made for another side than the configuration names.
    AnchorSide,
    /// The starting anchor is not in the table.
    StartAnchor,
    /// The target does not have the configured side.
    TargetSide,
    /// A target value is darker than `UNIT`.
    TargetRange,
    /// The source picture is empty, or its buffer does not hold one value
    /// for each of its pixels.
    Source,
}

impl ConfigError {
    /// The text that describes the error.
    pub open spec fn text(self) -> Seq<char> {
        match self {
            ConfigError::Side => "the side must be from 2 to 4096 pixels"@,
            ConfigError::AnchorCount => "there must be from 2 to 4096 anchors"@,
            ConfigError::NotMultipleOfFour => "anchors on a square must come in a multiple of four"@,
            ConfigError::AnchorOutside => "an anchor lies outside the working region"@,
            ConfigError::AnchorsCoincide => "two anchors lie on the same point"@,
            ConfigError::AnchorSide => "the anchors were made for another side"@,
            ConfigError::StartAnchor => "the starting anchor is not in the table"@,
            ConfigError::TargetSide => "the target does not have the configured side"@,
            ConfigError::TargetRange => "a target value is darker than full darkness"@,
            ConfigError::Source => "the source picture is empty or its buffer has the wrong length"@,
        }
    }

    /// A message that describes the error.
    pub fn message(&self) -> (message: &'static str)
        ensures
            message@ == self.text(),
    {
        match self {
            ConfigError::Side => "the side must be from 2 to 4096 pixels",
            ConfigError::AnchorCount => "there must be from 2 to 4096 anchors",
            ConfigError::NotMultipleOfFour => "anchors on a square must come in a multiple of four",
            ConfigError::AnchorOutside => "an anchor lies outside the working region",
            ConfigError::AnchorsCoincide => "two anchors lie on the same point",
            ConfigError::AnchorSide => "the anchors were made for another side",
            ConfigError::StartAnchor => "the starting anchor is not in the table",
            ConfigError::TargetSide => "the target does not have the configured side",
            ConfigError::TargetRange => "a target value is darker than full darkness",
            ConfigError::Source => "the source picture is empty or its buffer has the wrong length",
        }
    }
}

} // verus!
