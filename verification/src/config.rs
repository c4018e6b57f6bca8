//! What a run is configured with.

use vstd::prelude::*;

verus! {

/// The usual tolerance: half the loss of one pixel that is white where it
/// should be fully dark.
pub const DEFAULT_TOLERANCE: u128 = 50_000_000;

/// How the candidates of a step are chosen.
#[derive(Debug, Clone, Copy, PartialEq, Eq, Structural)]
pub enum Mode {
    /// Only chords that start at the anchor where the last one ended: the
    /// chords form one connected thread.
    Fast,
    /// Every admissible chord.
    Slow,
}

/// The shape of the working region.
#[derive(Debug, Clone, Copy, PartialEq, Eq, Structural)]
pub enum Shape {
    /// The disk inscribed in the square; pixels outside it stay white.
    Circle,
    /// The whole square.
    Square,
}

/// What a run is configured with.
#[derive(Debug, Clone, Copy)]
pub struct Config {
    /// The side of the grids, in pixels.
    pub side: usize,
    /// The shape of the working region.
    pub shape: Shape,
    /// How candidates are chosen.
    pub mode: Mode,
    /// By how much the loss may rise with an accepted chord, in units of
    /// `1 / (UNIT * UNIT)`.
    pub tolerance: u128,
    /// The anchor at which the thread starts in fast mode.
    pub start: usize,
    /// The loss that the first chord is measured against; `None` for no bound.
    pub baseline: Option<u128>,
}

} // verus!
