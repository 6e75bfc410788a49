//! Greedy best-first solver for the N x N sliding-tile puzzle.
//!
//! A board is a square grid of `i32` cells in which the value `0` marks the
//! single blank. A move swaps the blank with one of its orthogonal
//! neighbours. The search expands the frontier node with the lowest
//! misplaced-tile count against a fixed goal grid; it is greedy, not A*:
//! path cost is ignored, so the solution found is not guaranteed shortest.

pub mod board;
pub mod grid;
pub mod search;
pub mod visited;
