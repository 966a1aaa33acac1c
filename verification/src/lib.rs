//! A verified solver for colored nonogram (picture-logic) puzzles.
//!
//! Each cell of the grid carries a 64-bit mask of the colors it may still
//! take; bit 0 stands for the background color.  A single-line solver
//! computes, for one row or column, the exact union of colors over all
//! fillings that satisfy the line's run constraints, and a grid propagator
//! iterates rows and columns to a fixpoint, intersecting the two views of
//! every cell after each round.

pub mod grid_laws;
pub mod grid_model;
pub mod masks;
pub mod nonogram_solver;
pub mod puzzle_crawler;
pub mod line_solutions;
pub mod one_line_solver;
