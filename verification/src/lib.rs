//! A Killer Sudoku library: the rules of rows, columns, blocks and cages,
//! a check that marks the cells of broken houses, and a search that solves
//! a puzzle, with contracts that Verus proves.

pub mod digits;
pub mod grid;
pub mod houses;
pub mod models;
pub mod puzzle;
pub mod search;
pub mod setup;
pub mod solver;
mod tally;
