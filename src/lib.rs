//! A Tower of Hanoi simulator: pegs holding size-ordered rings, the classical
//! recursive solver, and a character-grid renderer of peg state.

pub mod screen;
pub mod solver;
pub mod stack;
