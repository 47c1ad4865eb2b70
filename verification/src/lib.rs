//! A verified Conway's Game of Life engine on a fixed toroidal grid, with a
//! pattern-generation subsystem that seeds the initial grid state.

pub mod generate;
pub mod life;
