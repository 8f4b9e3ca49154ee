//! Counting non-backtracking lattice walks that reach a target cell within a
//! time limit, avoiding a fixed set of blocked cells.
pub mod grid;
pub mod walk;
pub mod input;
