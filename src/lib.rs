//! A Sudoku engine: board rules, a uniqueness-checking solver, puzzle
//! generation, and a playing session with notes, hints and undo/redo.
pub mod board;
mod clock;
pub mod game;
pub mod laws;
pub mod log;
pub mod random;
pub mod solver;

pub use game::{Difficulty, GameMove, MoveType, SudokuGame};
