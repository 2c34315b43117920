//! A 9×9 Sudoku solver: peer-elimination propagation and exhaustive
//! minimum-remaining-candidates search, proved to enumerate every solution.
pub mod candidates;
pub mod topology;
pub mod board;
pub mod propagate;
pub mod search;
pub mod laws;
pub mod display;
