//! Lumber cut planning: packs rectangular cut pieces onto stock boards.
//!
//! Dimensions are integers counted in steps of `model::RESOLUTION` per unit of
//! length, and scores are fixed-point fractions of `solver::SCORE_ONE`.
pub mod model;
pub mod text;
pub mod lane;
pub mod board;
pub mod solver;
pub mod allocator;
pub mod ranking;
mod random;
