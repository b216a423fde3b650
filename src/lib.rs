//! Simulation core of a falling-rock cave game: the cell kinds, the grid,
//! the rock physics, the player controller and the scene machine.

pub mod cell;
pub mod grid;
pub mod game;
pub mod physics;
pub mod player;
pub mod levelgen;
pub mod scene;
