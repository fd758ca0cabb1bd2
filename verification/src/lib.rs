//! A solver for 9x9 Sudoku puzzles: constraint propagation by naked and hidden
//! singles, and a backtracking search on the cell with the fewest candidates.

pub mod board;
pub mod construct;
pub mod grid;
pub mod laws;
pub mod line;
pub mod mask;
pub mod propagate;
pub mod search;
pub mod sudoku;

pub use crate::construct::ConstructError;
pub use crate::line::{answer, Answer};
pub use crate::propagate::Pass;
pub use crate::sudoku::Sudoku;
