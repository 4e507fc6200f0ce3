//! Rule engine for a sliding-tile merge puzzle on a square grid.
//!
//! Tiles are positive values in the cells of an N x N board; `0` marks an
//! empty cell. A move compacts and merges each row or column toward one
//! side, a successful move spawns a fresh tile in a random empty cell, and
//! the game ends when a tile reaches the target value (win) or when the
//! board is full and no move can change it (lose).

pub mod board;
pub mod engine;
pub mod game;
pub mod rng;
