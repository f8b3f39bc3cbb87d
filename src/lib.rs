//! A 9x9 Sudoku board with a step-wise, resumable backtracking solver.
//!
//! `board` holds the cell model and position indexing, `check` the
//! constraint checker, and `search` the single-step search with its laws.

pub mod board;
pub mod check;
pub mod search;
