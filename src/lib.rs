//! A small turn-based dungeon crawler: procedural level generation and
//! shadowcasting field of view, with their contracts proved by Verus.
pub mod entity;
pub mod game;
pub mod ui;
pub mod world;

pub use game::Game;
