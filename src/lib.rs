//! Conway's Game of Life on a fixed, non-wrapping rectangular grid.

pub mod cell;
pub mod gameoflife;
pub mod lemmas;
pub mod pattern;
