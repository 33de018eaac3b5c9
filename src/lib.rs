//! Parsing, checking and solving 9×9 number-placement puzzles.
//!
//! A [`Sudoku`] is read from text with [`Sudoku::from_str`], takes digits through the
//! rule-checked [`Sudoku::try_insert`], and is completed by depth-first search with
//! [`Sudoku::solution`]. Grids are values: a placement returns a new grid.
pub mod grid;
pub mod render;
pub mod solver;

pub use grid::{InsertError, ParseError, Sudoku, SudokuNum};
pub use solver::{Observer, Quiet};
