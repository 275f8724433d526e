//! A falling-sand cellular automaton on a fixed rectangular grid of cells.

pub mod grid;
pub mod settle;
mod random;
pub mod spawn;
pub mod line;
