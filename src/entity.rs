pub mod player;
pub mod position;
