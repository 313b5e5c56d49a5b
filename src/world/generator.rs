use vstd::prelude::*;
use crate::entity::position::Position;

verus! {

/// An axis-aligned rectangular room: the cells with `x1 <= x < x2` and
/// `y1 <= y < y2`.
#[derive(Debug, Clone, Copy, PartialEq, Eq, Structural)]
pub struct Room {
    pub x1: i32,
    pub y1: i32,
    pub x2: i32,
    pub y2: i32,
}

/// Integer midpoint of `a` and `b`, rounded toward zero.
pub open spec fn midpoint(a: int, b: int) -> int {
    let s = a + b;
    if s >= 0 { s / 2 } else { -((-s) / 2) }
}

/// What a level is generated from: the grid's size, the range the room
/// count is drawn from, and the range each side of a room is drawn from.
#[derive(Debug, Clone, Copy, PartialEq, Eq, Structural)]
pub struct GenParams {
    pub width: usize,
    pub height: usize,
    pub min_rooms: usize,
    pub max_rooms: usize,
    pub min_room_size: i32,
    pub max_room_size: i32,
}

/// Why no level could be generated.
#[derive(Debug, Clone, Copy, PartialEq, Eq, Structural)]
pub enum GenerationError {
    /// The parameters let no room be placed: a range is empty or a room of
    /// the largest size, with a wall around it, does not fit the grid.
    NoRoomPlaced,
}

impl GenParams {
    /// Both ranges are non-empty and start at one or more, and a room of the
    /// largest size fits inside the grid's outer wall with a cell to spare on
    /// each axis; coordinates fit `i32`.
    pub open spec fn valid(self) -> bool {
        &&& 1 <= self.min_rooms <= self.max_rooms
        &&& 1 <= self.min_room_size <= self.max_room_size
        &&& self.max_room_size + 3 <= self.width <= i32::MAX
        &&& self.max_room_size + 3 <= self.height <= i32::MAX
    }

    /// The room's sides are within the size range and it lies strictly
    /// inside the grid's outer wall.
    pub open spec fn room_fits(self, r: Room) -> bool {
        &&& self.min_room_size <= r.x2 - r.x1 <= self.max_room_size
        &&& self.min_room_size <= r.y2 - r.y1 <= self.max_room_size
        &&& 1 <= r.x1
        &&& r.x2 <= self.width - 2
        &&& 1 <= r.y1
        &&& r.y2 <= self.height - 2
    }
}

impl Room {
    /// A room is well formed when it holds at least one cell.
    pub open spec fn wf(self) -> bool {
        self.x1 < self.x2 && self.y1 < self.y2
    }

    pub open spec fn spec_center(self) -> Position {
        Position { x: midpoint(self.x1 as int, self.x2 as int) as i32, y: midpoint(self.y1 as int, self.y2 as int) as i32 }
    }

    /// The cell `(x, y)` lies within the room.
    pub open spec fn contains(self, x: int, y: int) -> bool {
        self.x1 <= x < self.x2 && self.y1 <= y < self.y2
    }

    /// The rectangles overlap, touch, or leave only a one-cell gap between them.
    pub open spec fn spec_intersects(self, other: Room) -> bool {
        &&& self.x1 <= other.x2 + 1
        &&& self.x2 >= other.x1 - 1
        &&& self.y1 <= other.y2 + 1
        &&& self.y2 >= other.y1 - 1
    }

    /// The rooms share no cell and at least two cells lie between them on
    /// some axis.
    pub open spec fn separated(self, other: Room) -> bool {
        ||| other.x1 - self.x2 >= 2
        ||| self.x1 - other.x2 >= 2
        ||| other.y1 - self.y2 >= 2
        ||| self.y1 - other.y2 >= 2
    }

    /// The center of a room at non-negative coordinates lies inside it.
    pub proof fn lemma_center_inside(self)
        requires
            self.wf(),
            0 <= self.x1,
            0 <= self.y1,
        ensures
            self.contains(self.spec_center().x as int, self.spec_center().y as int),
    {
    }

    /// Creates the room with top-left corner `(x, y)` and the given size.
    pub fn new(x: i32, y: i32, width: i32, height: i32) -> (r: Self)
        requires
            x + width <= i32::MAX,
            y + height <= i32::MAX,
            x + width >= i32::MIN,
            y + height >= i32::MIN,
        ensures
            r.x1 == x,
            r.y1 == y,
            r.x2 == x + width,
            r.y2 == y + height,
    {
        Room { x1: x, y1: y, x2: x + width, y2: y + height }
    }

    /// The middle cell of the room, coordinates truncated toward zero.
    pub fn center(&self) -> (c: Position)
        ensures
            c == self.spec_center(),
            c.x == midpoint(self.x1 as int, self.x2 as int),
            c.y == midpoint(self.y1 as int, self.y2 as int),
    {
        let sx: i64 = self.x1 as i64 + self.x2 as i64;
        let sy: i64 = self.y1 as i64 + self.y2 as i64;
        Position { x: (sx / 2) as i32, y: (sy / 2) as i32 }
    }

    /// Margin-inclusive overlap test used when placing rooms.
    pub fn intersects(&self, other: &Room) -> (r: bool)
        ensures
            r == self.spec_intersects(*other),
            !r <==> self.separated(*other),
    {
        self.x1 as i64 <= other.x2 as i64 + 1
            && self.x2 as i64 >= other.x1 as i64 - 1
            && self.y1 as i64 <= other.y2 as i64 + 1
            && self.y2 as i64 >= other.y1 as i64 - 1
    }
}

} // verus!
