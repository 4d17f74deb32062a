//! A verified Sokoban solution checker.
//!
//! A level is a jagged grid of tile characters; a solution is a sequence of
//! directional moves. The library simulates the moves one by one (moving the
//! player and pushing boxes) and decides whether every box ends up on a goal.

pub mod checker;
pub mod grid;
pub mod laws;
pub mod parse;
