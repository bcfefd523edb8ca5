//! A double-buffered toroidal grid that advances a cellular automaton one
//! generation at a time, and Conway's Game of Life as one rule for it.

pub mod board;
pub mod life;
