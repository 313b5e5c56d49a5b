use vstd::prelude::*;
use crate::entity::position::Position;

verus! {

/// The actor controlled by the user.
pub struct Player {
    pub position: Position,
}

impl Player {
    pub fn new(position: Position) -> (r: Self)
        ensures
            r.position == position,
    {
        Player { position }
    }

    /// The glyph the player is drawn with.
    pub fn to_char(&self) -> (c: char)
        ensures
            c == '@',
    {
        '@'
    }
}

} // verus!
