//! Arithmetic on fixed-resolution genomic score tracks: rolling window
//! statistics, robust z-scores and counts-per-million scaling.
//!
//! Scores are fixed-point numbers: an `i64` counts millionths of a unit, so
//! every transform is exact integer arithmetic with stated rounding.

pub mod error;
pub mod window;
pub mod stats;
pub mod roll;
pub mod track;
pub mod norm;
pub mod parse;
pub mod render;
pub mod roundtrip;
pub mod symmetry;
