//! Conway's Game of Life on a toroidal grid whose cells carry their age, with
//! the pacing logic that feeds a simulation worker at a fixed tick rate.
pub mod gol;
pub mod state;
pub mod worker;
