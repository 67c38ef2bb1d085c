//! Verified core of a terminal 2048 game: a fixed 4x4 grid of numbered
//! tiles, a directional slide/merge engine, a tile spawner, an animation
//! stepper that emits intermediate snapshots, and the game-loop state
//! machine.  Terminal input and rendering live outside the library.

pub mod engine;
pub mod stepper;
pub mod game;
pub mod grid;
mod rng;
pub mod tile;
