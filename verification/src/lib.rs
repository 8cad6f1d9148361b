//! Constraint propagation for classic 9x9 Sudoku puzzles.
//!
//! A board holds one candidate set per cell. Two propagation techniques narrow
//! the candidate sets: exclusion around three-cell fragments and resolution of
//! values that fit a single cell of a row, column or block.

pub mod bits;
pub mod board;
pub mod cell;
pub mod exclusion;
pub mod fragment;
pub mod render;
pub mod solver;
pub mod unique;
