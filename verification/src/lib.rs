//! Candidate elimination and forced-choice propagation on a 9×9 Sudoku grid.
//!
//! The grid holds 81 cells, each either fixed to a digit or open with a
//! status for each of the nine digits. Two deduction rules narrow the open
//! cells: a digit fixed in a row, column or square is excluded from the
//! other cells of that group, and a digit that is live in a single open cell
//! of a group pushes out that cell's other candidates.
pub mod board;
pub mod digit;
pub mod geometry;
pub mod laws;
pub mod narrow;
pub mod rules;
pub mod solve;
pub mod value;

pub use board::Board;
pub use value::{Choice, Rule, Value};
