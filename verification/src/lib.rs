//! A Sudoku engine that fills a 9×9 board by single-candidate elimination.
//!
//! The board is modelled as a sequence of 81 optional digits in row-major
//! order; every contract in this crate is stated over that model.

pub mod board;
pub mod cell;
pub mod digit;
pub mod index;
pub mod possible;
pub mod rules;
pub mod solver;
pub mod text;
