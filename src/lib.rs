//! A small collection of verified routines: a Sudoku validator, solver,
//! puzzle generator and renderer, a Fibonacci function, and merge sort and
//! quicksort on slices.

pub mod fibonacci;
mod random;
pub mod sort;
pub mod sudoku;
