//! Exhaustive Sudoku solver.
//!
//! A `Board` holds a 9x9 grid of optional digits and answers constraint
//! queries; the solver enumerates every completion of a partial grid by
//! depth-first backtracking, branching on the most constrained empty cell.

pub mod board;
pub mod solver;
