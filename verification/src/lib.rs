//! Rules engine of a grid-based mine-detection puzzle: a rectangular field of
//! blocks, some secretly mined, where a player incrementally sweeps blocks and
//! the game ends when a mine is swept (loss) or every safe block is swept
//! (win).

pub mod block;
pub mod game;
pub mod minefield;
