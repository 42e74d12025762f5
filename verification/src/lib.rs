//! N-Queens local search: a board model with a conflict-counting heuristic,
//! a greedy hill-climbing descent, and a genetic population search built on it.

pub mod point;
pub mod rng;
pub mod board;
pub mod text;
pub mod hill;
pub mod genetic;
