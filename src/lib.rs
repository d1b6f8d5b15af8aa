pub mod constraint;
pub mod error;
pub mod grid;
pub mod solver;
pub mod sudoku;
pub mod sudoku_generator;
pub mod text;
pub mod utilities;

pub use grid::{GridModel, SudokuGrid};
pub use sudoku::Sudoku;
