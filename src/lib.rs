//! A square Sudoku board with a backtracking solver.
//!
//! The board is a grid of `i32` cells where `0` marks an empty cell and
//! `1..=N` a placed digit. Rows, columns and 3×3 boxes are the units in
//! which a digit may appear at most once.

pub mod grid;
pub mod board;
pub mod text;
pub mod rules;

pub use board::Board;
