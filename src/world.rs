pub mod dungeon;
pub mod fov;
pub mod generator;
pub mod path;
pub mod rng;
pub mod tile;

pub use dungeon::Dungeon;
pub use fov::Fov;
pub use generator::Room;
pub use tile::TileType;
