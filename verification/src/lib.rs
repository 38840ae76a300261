//! A snake game on a 30 x 30 board whose snake steers itself towards the
//! apple, with a verified model of the board, the snake's movement and the
//! path search that drives it.

pub mod draw;
pub mod events;
pub mod frame;
pub mod geometry;
pub mod greedy;
pub mod pathfinding;
mod rng;
pub mod snake;

pub use geometry::{SNAKE_GRID_SIZE, SNAKE_GRID_SIZE_I32};
