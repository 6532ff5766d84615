//! Sudoku grid generation by constraint propagation with random collapse
//! and full restart from a saved checkpoint.

pub mod cell;
pub mod driver;
pub mod screen;
pub mod solved;
pub mod sudoku;
pub mod tracker;

pub use cell::Cell;
pub use driver::{loop_sudoku, step_with, SudokuStatus};
pub use screen::{digit_value, Action, App, CurrentScreen, Key};
pub use sudoku::{ResetError, Sudoku};
pub use tracker::ConstraintTracker;
