use vstd::prelude::*;

verus! {

/// A cell coordinate on the dungeon grid.
#[derive(Debug, Clone, Copy, PartialEq, Eq, Structural)]
pub struct Position {
    pub x: i32,
    pub y: i32,
}

impl Position {
    /// Offsets the position by `(dx, dy)`.
    pub fn translate(self, dx: i32, dy: i32) -> (r: Self)
        requires
            i32::MIN <= self.x + dx <= i32::MAX,
            i32::MIN <= self.y + dy <= i32::MAX,
        ensures
            r.x == self.x + dx,
            r.y == self.y + dy,
    {
        Self { x: self.x + dx, y: self.y + dy }
    }
}

} // verus!
