//! Verified utilities for line-oriented puzzle inputs: a schematic grid
//! engine (part-number sums and gear-ratio sums over a character grid),
//! calibration-digit recovery, and cube-game record parsing.

pub mod calibration;
pub mod games;
pub mod laws;
pub mod schematic;
pub mod text;
