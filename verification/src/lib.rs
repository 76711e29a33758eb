//! A Sokoban puzzle engine: a parser for the textual level-set format and a
//! movement resolver with an undo/reset history, with verified contracts.

pub mod board;
pub mod game;
pub mod laws;
pub mod loader;
pub mod menu;
pub mod token;
pub mod types;
pub mod world;

pub use types::Coordinate;
pub use types::Direction;
pub use types::Entity;
pub use types::Tile;
pub use world::World;
