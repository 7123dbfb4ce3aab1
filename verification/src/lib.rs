//! Core simulation engines of a falling-sand block game: a per-tick sand
//! physics engine over a grid of colored grains, and a connectivity engine
//! that detects same-colored regions spanning the board and computes the
//! region to clear.

pub mod block;
pub mod constants;
pub mod grid;
pub mod pathfinding;
pub mod physics;
mod rng;
