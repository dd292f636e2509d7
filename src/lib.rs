//! Constraint-propagation engine for 9x9 sudoku puzzles.
pub mod num;
pub mod word;
pub mod cell;
pub mod text;
pub mod idx;
pub mod section;
pub mod filter;
pub mod grid;
pub mod area;
pub mod board;
pub mod propagate;
pub mod solver;
pub mod render;
pub mod backtrack;
