//! A grid-based snake simulation core: a fixed-size board of tiles, a snake
//! that moves one cell per tick, grows when it eats food, and loses when it
//! runs into a wall or its own body. Rendering, input handling and tick
//! pacing belong to the driver; this crate holds the verified simulation.

pub mod board;
pub mod game;
mod rng;
pub mod tile;
