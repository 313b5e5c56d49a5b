use vstd::prelude::*;

verus! {

/// Width of a generated level, in cells.
pub const DUNGEON_WIDTH: usize = 80;

/// Height of a generated level, in cells.
pub const DUNGEON_HEIGHT: usize = 50;

/// Fewest rooms a level aims for.
pub const MIN_ROOMS: usize = 8;

/// Most rooms a level holds.
pub const MAX_ROOMS: usize = 12;

/// Smallest side of a room.
pub const MIN_ROOM_SIZE: i32 = 6;

/// Largest side of a room.
pub const MAX_ROOM_SIZE: i32 = 10;

/// Deepest level the player can reach.
pub const MAX_DEPTH: u32 = 10;

} // verus!
