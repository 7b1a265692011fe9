//! A 9x9 Sudoku solver: candidate sets, naked-single propagation and
//! backtracking search, with contracts proved by Verus.
pub mod choices;
pub mod sudoku;

pub use choices::Choices;
pub use sudoku::{FormatError, Sudoku};
