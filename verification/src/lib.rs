//! Greedy string art on an integer grid.
//!
//! A picture is approximated by straight chords drawn between anchors on the
//! boundary of a square working region. Darkness is held in fixed point, so
//! that every quantity the search compares is an exact integer.

pub mod anchors;
pub mod config;
pub mod error;
pub mod grid;
pub mod raster;
pub mod scorer;
pub mod selector;
pub mod sink;
pub mod target;
pub mod trace;
pub mod units;
