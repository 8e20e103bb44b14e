//! A Sudoku engine: generation of solved grids, digging of puzzles with a
//! unique solution, bounded solution counting, and a player session with
//! undo, checks, hints and a byte snapshot.

pub mod board;
pub mod codec;
mod entropy;
pub mod session;

pub use board::Board;
pub use codec::DecodeError;
pub use session::{Cell, Difficulty, GameState, Move, Sudoku, MAX_CHECKS, MAX_HINTS};
