//! An N-puzzle (sliding-tile) solver.
//!
//! The library models an n-by-n board holding a permutation of the values
//! `0 .. n*n - 1` (0 is the blank), computes admissible lower bounds on the
//! number of moves left (Manhattan distance and linear conflict), and runs
//! iterative-deepening depth-first search, plain or heuristic-pruned (IDA*),
//! to find a move sequence into the solved board.

pub mod board;
pub mod grid_ext;
pub mod parse;
pub mod solver;
