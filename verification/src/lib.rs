//! A solver for 9×9 Sudoku puzzles, together with the text forms a puzzle is
//! read from and shown in.

pub mod candidates;
pub mod completion;
pub mod digit;
pub mod grid;
pub mod parse;
pub mod render;
pub mod solved;
pub mod solver;

pub use grid::Sudoku;
pub use parse::ParseError;
