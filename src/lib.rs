//! A simulated-annealing Sudoku solver: the board and cost model, the
//! block-preserving swap move and the integer side of the acceptance rule
//! and of the annealing schedule.

pub mod random;
pub mod solver;
pub mod sudoku;
