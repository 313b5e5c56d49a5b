use vstd::prelude::*;

verus! {

/// Classification of a single grid cell.
#[derive(Debug, Clone, Copy, PartialEq, Eq, Structural)]
pub enum TileType {
    /// Opaque and impassable.
    Wall,
    /// Passable and transparent.
    Floor,
    /// Passable and transparent; leads to the next level.
    StairsDown,
}

impl TileType {
    /// Walls block movement; every other cell can be walked on.
    pub open spec fn spec_walkable(self) -> bool {
        self != TileType::Wall
    }

    /// Walls block light; every other cell lets it through.
    pub open spec fn spec_transparent(self) -> bool {
        self != TileType::Wall
    }

    pub open spec fn spec_char(self) -> char {
        match self {
            TileType::Wall => '#',
            TileType::Floor => '.',
            TileType::StairsDown => '>',
        }
    }

    pub fn is_walkable(&self) -> (r: bool)
        ensures
            r == self.spec_walkable(),
    {
        match self {
            TileType::Wall => false,
            TileType::Floor | TileType::StairsDown => true,
        }
    }

    pub fn is_transparent(&self) -> (r: bool)
        ensures
            r == self.spec_transparent(),
    {
        match self {
            TileType::Wall => false,
            TileType::Floor | TileType::StairsDown => true,
        }
    }

    pub fn to_char(&self) -> (c: char)
        ensures
            c == self.spec_char(),
    {
        match self {
            TileType::Wall => '#',
            TileType::Floor => '.',
            TileType::StairsDown => '>',
        }
    }
}

} // verus!
