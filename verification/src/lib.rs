//! Sudoku boards, a solver and a puzzle generator, verified with Verus.
//!
//! A board is a [`SudokuMatrix`]. [`solve_sudoku`] decides whether a board
//! has a solution and can write it into the board; it works by filling the
//! cells that have one candidate left and, where that stalls, branching on
//! the cell with the fewest candidates. [`create_matrix`] generates a puzzle
//! with a given number of filled cells that has a solution.
//!
//! The contracts speak of boards as grids of numbers: `grid` defines what it
//! means for such a grid to be complete, free of conflicts and solvable,
//! `candidates` the candidate sets, `propagation` and `search` what the
//! solver arrives at and why that is a solution whenever there is one.

pub mod candidates;
pub mod command;
pub mod game;
pub mod generator;
pub mod grid;
pub mod matrix;
pub mod pattern;
pub mod propagation;
pub mod random;
pub mod render;
pub mod scarcity;
pub mod search;
pub mod solver;

pub use game::App;
pub use generator::create_matrix;
pub use matrix::SudokuMatrix;
pub use solver::{search_board, solve_sudoku, SearchEnd, SudokuSolverState};
