//! A Sudoku board for interactive play: the grid with its rule check, and the
//! session around it (focus, fill, undo, redo, hint, phases).

pub mod board;
pub mod laws;
pub mod model;
pub mod sudoku;
pub mod supplier;
