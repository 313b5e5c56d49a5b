use vstd::prelude::*;
use crate::entity::position::Position;
use crate::game::config::{
    DUNGEON_HEIGHT, DUNGEON_WIDTH, MAX_ROOMS, MAX_ROOM_SIZE, MIN_ROOMS, MIN_ROOM_SIZE,
};
use crate::world::generator::{GenParams, GenerationError, Room};
use crate::world::path::{connects, grows, lemma_connects_grows, lemma_connects_trans, lemma_corridor_connects, lemma_single, pt};
use crate::world::rng::{draw_i32, draw_usize, flip_coin, fresh_rng};
use crate::world::tile::TileType;
use rand::rngs::StdRng;

verus! {

/// The classification of cell `(x, y)` of a grid stored row by row, or
/// `None` when the cell lies outside it.
pub open spec fn cell(tiles: Seq<Vec<TileType>>, x: int, y: int) -> Option<TileType> {
    if 0 <= y < tiles.len() && 0 <= x < tiles[y]@.len() {
        Some(tiles[y]@[x])
    } else {
        None
    }
}

/// Bounds of the single room of the fixed level.
pub const ROOM_X_START: i32 = 35;
pub const ROOM_X_END: i32 = 45;
pub const ROOM_Y_START: i32 = 20;
pub const ROOM_Y_END: i32 = 30;

/// Center of the single room of the fixed level.
pub const ROOM_CENTER_X: i32 = 40;
pub const ROOM_CENTER_Y: i32 = 25;

/// How many candidate rooms generation tries before it settles for fewer
/// rooms than it drew.
pub const MAX_ATTEMPTS: usize = 200;

/// Cell `(x, y)` exists and can be walked on.
pub open spec fn walkable(tiles: Seq<Vec<TileType>>, x: int, y: int) -> bool {
    match cell(tiles, x, y) {
        Some(t) => t.spec_walkable(),
        None => false,
    }
}

/// Cell `(x, y)` exists and lets light through.
pub open spec fn transparent(tiles: Seq<Vec<TileType>>, x: int, y: int) -> bool {
    match cell(tiles, x, y) {
        Some(t) => t.spec_transparent(),
        None => false,
    }
}

/// The grid has `height` rows of `width` cells each.
pub open spec fn grid_shape(tiles: Seq<Vec<TileType>>, width: int, height: int) -> bool {
    &&& tiles.len() == height
    &&& forall|y: int| 0 <= y < height ==> #[trigger] tiles[y]@.len() == width
}

/// Both grids have the same rows, each of the same length.
pub open spec fn same_shape(a: Seq<Vec<TileType>>, b: Seq<Vec<TileType>>) -> bool {
    &&& a.len() == b.len()
    &&& forall|j: int| 0 <= j < a.len() ==> #[trigger] a[j]@.len() == b[j]@.len()
}

/// `v` lies between `a` and `b`, whichever of the two is smaller.
pub open spec fn between(v: int, a: int, b: int) -> bool {
    (a <= v <= b) || (b <= v <= a)
}

/// Cell `(x, y)` lies on the L-shaped corridor from `a` to `b` that runs
/// along `a`'s row first when `horizontal_first`, along `a`'s column first
/// otherwise.
pub open spec fn on_corridor(a: Position, b: Position, horizontal_first: bool, x: int, y: int) -> bool {
    if horizontal_first {
        (y == a.y && between(x, a.x as int, b.x as int)) || (x == b.x && between(y, a.y as int, b.y as int))
    } else {
        (x == a.x && between(y, a.y as int, b.y as int)) || (y == b.y && between(x, a.x as int, b.x as int))
    }
}

/// Querying a cell agrees with its classification: a wall is neither
/// walkable nor transparent, a floor or stairs cell is both, and so is
/// nothing outside the grid; a cell is walkable exactly when it is
/// transparent.
pub proof fn lemma_classification_consistent(d: &Dungeon, x: int, y: int)
    ensures
        d.tile_at(x, y) == Some(TileType::Wall) ==> !walkable(d.tiles@, x, y) && !transparent(
            d.tiles@,
            x,
            y,
        ),
        d.tile_at(x, y) == Some(TileType::Floor) ==> walkable(d.tiles@, x, y) && transparent(
            d.tiles@,
            x,
            y,
        ),
        d.tile_at(x, y) == Some(TileType::StairsDown) ==> walkable(d.tiles@, x, y) && transparent(
            d.tiles@,
            x,
            y,
        ),
        d.tile_at(x, y) is None ==> !walkable(d.tiles@, x, y) && !transparent(d.tiles@, x, y),
        walkable(d.tiles@, x, y) == transparent(d.tiles@, x, y),
{
}

/// What holds of the grid while rooms are being placed: its size, the rooms
/// fit and are carved, no stairs yet, an outer wall all around, and a walk
/// from the first room's center to every room's center.
pub open spec fn layout_ok(tiles: Seq<Vec<TileType>>, rooms: Seq<Room>, params: GenParams) -> bool {
    &&& grid_shape(tiles, params.width as int, params.height as int)
    &&& forall|i: int| 0 <= i < rooms.len() ==> params.room_fits(#[trigger] rooms[i])
    &&& forall|i: int, x: int, y: int|
        0 <= i < rooms.len() && #[trigger] rooms[i].contains(x, y) ==> walkable(tiles, x, y)
    &&& forall|x: int, y: int| #[trigger] cell(tiles, x, y) != Some(TileType::StairsDown)
    &&& forall|x: int, y: int|
        0 <= x < params.width && 0 <= y < params.height && (x == 0 || y == 0 || x == params.width - 1
            || y == params.height - 1) ==> #[trigger] cell(tiles, x, y) == Some(TileType::Wall)
    &&& forall|i: int|
        0 <= i < rooms.len() ==> connects(
            tiles,
            pt(rooms[0].spec_center()),
            pt(#[trigger] rooms[i].spec_center()),
        )
}

/// The parameters the game's levels are generated with: 80 by 50 cells,
/// 8 to 12 rooms, sides of 6 to 10 cells.
pub open spec fn standard_params() -> GenParams {
    GenParams {
        width: DUNGEON_WIDTH,
        height: DUNGEON_HEIGHT,
        min_rooms: MIN_ROOMS,
        max_rooms: MAX_ROOMS,
        min_room_size: MIN_ROOM_SIZE,
        max_room_size: MAX_ROOM_SIZE,
    }
}

/// The indices of the candidates that greedy placement keeps among the
/// first `n`: a candidate is kept while fewer than `target` are kept and it
/// stays clear of every kept one.
pub open spec fn placed(cands: Seq<Room>, target: int, n: int) -> Seq<int>
    decreases n,
{
    if n <= 0 {
        seq![]
    } else {
        let prev = placed(cands, target, n - 1);
        if prev.len() < target && forall|k: int|
            0 <= k < prev.len() ==> #[trigger] cands[prev[k]].separated(cands[n - 1]) {
            prev.push(n - 1)
        } else {
            prev
        }
    }
}

/// The candidates at the given indices.
pub open spec fn rooms_at(idx: Seq<int>, cands: Seq<Room>) -> Seq<Room> {
    idx.map_values(|k: int| cands[k])
}

/// The coin tosses at the given indices.
pub open spec fn coins_at(idx: Seq<int>, coins: Seq<bool>) -> Seq<bool> {
    idx.map_values(|k: int| coins[k])
}

/// Cell `(x, y)` lies in room `i`, or on the corridor from room `i - 1`'s
/// center to room `i`'s, row first when `hfs[i]`.
pub open spec fn layout_part(rooms: Seq<Room>, hfs: Seq<bool>, i: int, x: int, y: int) -> bool {
    rooms[i].contains(x, y) || (i >= 1 && on_corridor(
        rooms[i - 1].spec_center(),
        rooms[i].spec_center(),
        hfs[i],
        x,
        y,
    ))
}

/// Cell `(x, y)` lies in some room or on some corridor between consecutive
/// rooms.
pub open spec fn in_layout(rooms: Seq<Room>, hfs: Seq<bool>, x: int, y: int) -> bool {
    exists|i: int| 0 <= i < rooms.len() && #[trigger] layout_part(rooms, hfs, i, x, y)
}

proof fn lemma_layout_push(rooms: Seq<Room>, hfs: Seq<bool>, room: Room, hf: bool, x: int, y: int)
    requires
        rooms.len() == hfs.len(),
    ensures
        in_layout(rooms.push(room), hfs.push(hf), x, y) == (in_layout(rooms, hfs, x, y) || room.contains(
            x,
            y,
        ) || (rooms.len() >= 1 && on_corridor(rooms.last().spec_center(), room.spec_center(), hf, x, y))),
{
    let nr = rooms.push(room);
    let nh = hfs.push(hf);
    assert forall|i: int| 0 <= i < rooms.len() implies #[trigger] layout_part(nr, nh, i, x, y)
        == layout_part(rooms, hfs, i, x, y) by {
        assert(nr[i] == rooms[i]);
        if i >= 1 {
            assert(nr[i - 1] == rooms[i - 1]);
            assert(nh[i] == hfs[i]);
        }
    }
    let n = rooms.len() as int;
    assert(layout_part(nr, nh, n, x, y) == (room.contains(x, y) || (rooms.len() >= 1 && on_corridor(
        rooms.last().spec_center(),
        room.spec_center(),
        hf,
        x,
        y,
    ))));
    if in_layout(nr, nh, x, y) {
        let i = choose|i: int| 0 <= i < nr.len() && #[trigger] layout_part(nr, nh, i, x, y);
        if i < n {
            assert(layout_part(rooms, hfs, i, x, y));
        }
    }
    if in_layout(rooms, hfs, x, y) {
        let i = choose|i: int| 0 <= i < rooms.len() && #[trigger] layout_part(rooms, hfs, i, x, y);
        assert(layout_part(nr, nh, i, x, y));
    }
}

/// Once `target` candidates are kept, later candidates change nothing.
proof fn lemma_placed_stops(cands: Seq<Room>, target: int, i: int, n: int)
    requires
        0 <= i <= n,
        i == n || placed(cands, target, i).len() >= target,
    ensures
        placed(cands, target, n) == placed(cands, target, i),
    decreases n - i,
{
    if n > i {
        lemma_placed_stops(cands, target, i, n - 1);
    }
}

/// One dungeon level: its grid, the rooms carved into it in placement order,
/// its depth, and where the player enters and leaves it.
pub struct Dungeon {
    pub tiles: Vec<Vec<TileType>>,
    pub width: usize,
    pub height: usize,
    pub rooms: Vec<Room>,
    pub depth: u32,
    pub player_start: Position,
    pub stairs_position: Position,
}

/// A grid of the given size holding walls only.
fn wall_grid(width: usize, height: usize) -> (tiles: Vec<Vec<TileType>>)
    ensures
        grid_shape(tiles@, width as int, height as int),
        forall|x: int, y: int|
            0 <= x < width && 0 <= y < height ==> #[trigger] cell(tiles@, x, y) == Some(
                TileType::Wall,
            ),
{
    let mut tiles: Vec<Vec<TileType>> = Vec::new();
    let mut j: usize = 0;
    while j < height
        invariant
            j <= height,
            tiles@.len() == j,
            forall|y: int| 0 <= y < j ==> #[trigger] tiles@[y]@.len() == width,
            forall|x: int, y: int|
                0 <= x < width && 0 <= y < j ==> #[trigger] tiles@[y]@[x] == TileType::Wall,
        decreases height - j,
    {
        let mut row: Vec<TileType> = Vec::new();
        let mut i: usize = 0;
        while i < width
            invariant
                i <= width,
                row@.len() == i,
                forall|x: int| 0 <= x < i ==> #[trigger] row@[x] == TileType::Wall,
            decreases width - i,
        {
            row.push(TileType::Wall);
            i += 1;
        }
        tiles.push(row);
        j += 1;
    }
    tiles
}

/// Sets cell `(x, y)` of the grid to `t`.
fn set_cell(tiles: &mut Vec<Vec<TileType>>, x: usize, y: usize, t: TileType)
    requires
        y < old(tiles)@.len(),
        x < old(tiles)@[y as int]@.len(),
    ensures
        same_shape(final(tiles)@, old(tiles)@),
        forall|i: int, j: int|
            #[trigger] cell(final(tiles)@, i, j) == if i == x && j == y {
                Some(t)
            } else {
                cell(old(tiles)@, i, j)
            },
{
    tiles[y][x] = t;
}

impl Dungeon {
    /// The classification of cell `(x, y)`, or `None` outside the grid.
    pub open spec fn tile_at(self, x: int, y: int) -> Option<TileType> {
        cell(self.tiles@, x, y)
    }

    /// The grid is `width` cells wide and `height` cells tall.
    pub open spec fn wf(self) -> bool {
        grid_shape(self.tiles@, self.width as int, self.height as int)
    }

    /// No two rooms overlap, and between any two lie at least two cells on
    /// some axis.
    pub open spec fn rooms_apart(self) -> bool {
        forall|i: int, j: int|
            0 <= i < j < self.rooms@.len() ==> #[trigger] self.rooms@[i].separated(
                #[trigger] self.rooms@[j],
            )
    }

    /// Every cell of every room can be walked on.
    pub open spec fn rooms_carved(self) -> bool {
        forall|i: int, x: int, y: int|
            0 <= i < self.rooms@.len() && #[trigger] self.rooms@[i].contains(x, y) ==> walkable(
                self.tiles@,
                x,
                y,
            )
    }

    /// The player starts at the center of the first room and the stairs
    /// stand at the center of the last; both cells can be walked on, and the
    /// stairs cell is the only one of its kind on the grid.
    pub open spec fn endpoints_placed(self) -> bool {
        &&& self.rooms@.len() > 0
        &&& self.player_start == self.rooms@[0].spec_center()
        &&& self.stairs_position == self.rooms@.last().spec_center()
        &&& self.rooms@[0].contains(self.player_start.x as int, self.player_start.y as int)
        &&& self.rooms@.last().contains(self.stairs_position.x as int, self.stairs_position.y as int)
        &&& walkable(self.tiles@, self.player_start.x as int, self.player_start.y as int)
        &&& walkable(self.tiles@, self.stairs_position.x as int, self.stairs_position.y as int)
        &&& forall|x: int, y: int|
            #[trigger] self.tile_at(x, y) == Some(TileType::StairsDown) <==> (x == self.stairs_position.x
                && y == self.stairs_position.y)
    }

    /// From the player's start a walk reaches the center of every room.
    pub open spec fn rooms_connected(self) -> bool {
        forall|i: int|
            0 <= i < self.rooms@.len() ==> connects(
                self.tiles@,
                pt(self.player_start),
                pt(#[trigger] self.rooms@[i].spec_center()),
            )
    }

    /// Every cell on the grid's outer edge is a wall.
    pub open spec fn walled_in(self) -> bool {
        forall|x: int, y: int|
            0 <= x < self.width && 0 <= y < self.height && (x == 0 || y == 0 || x == self.width - 1
                || y == self.height - 1) ==> #[trigger] self.tile_at(x, y) == Some(TileType::Wall)
    }

    /// Cell `(x, y)` lies in room `i`, or on one of the two L-shaped
    /// corridors from room `i - 1`'s center to room `i`'s.
    pub open spec fn explained_by(self, i: int, x: int, y: int) -> bool {
        0 <= i < self.rooms@.len() && (self.rooms@[i].contains(x, y) || (i >= 1 && (on_corridor(
            self.rooms@[i - 1].spec_center(),
            self.rooms@[i].spec_center(),
            true,
            x,
            y,
        ) || on_corridor(self.rooms@[i - 1].spec_center(), self.rooms@[i].spec_center(), false, x, y))))
    }

    pub open spec fn explained(self, x: int, y: int) -> bool {
        exists|i: int| #[trigger] self.explained_by(i, x, y)
    }

    /// Every cell that is not a wall lies in a room or on a corridor between
    /// consecutive rooms.
    pub open spec fn floor_explained(self) -> bool {
        forall|x: int, y: int|
            0 <= x < self.width && 0 <= y < self.height && #[trigger] self.tile_at(x, y) != Some(
                TileType::Wall,
            ) ==> self.explained(x, y)
    }

    /// The level is one that generation at `depth` with `params` can yield.
    pub open spec fn is_generated(self, depth: u32, params: GenParams) -> bool {
        &&& self.wf()
        &&& self.width == params.width
        &&& self.height == params.height
        &&& self.depth == depth
        &&& 1 <= self.rooms@.len() <= params.max_rooms
        &&& forall|i: int| 0 <= i < self.rooms@.len() ==> params.room_fits(#[trigger] self.rooms@[i])
        &&& self.rooms_apart()
        &&& self.rooms_carved()
        &&& self.endpoints_placed()
        &&& self.rooms_connected()
        &&& self.walled_in()
        &&& self.floor_explained()
    }

    /// Draws what generation decides on, then places the rooms: a room
    /// count from the count range, and `MAX_ATTEMPTS` candidate rooms, each
    /// with a size from the size range, a position inside the outer wall,
    /// and a coin toss for the shape of the corridor that would lead to it.
    pub fn generate(depth: u32, params: &GenParams, rng: &mut StdRng) -> (r: Result<
        Dungeon,
        GenerationError,
    >)
        ensures
            r is Err <==> !params.valid(),
            r matches Err(e) ==> e == GenerationError::NoRoomPlaced,
            r matches Ok(d) ==> d.is_generated(depth, *params),
    {
        if !(1 <= params.min_rooms && params.min_rooms <= params.max_rooms && 1
            <= params.min_room_size && params.min_room_size <= params.max_room_size
            && params.width <= i32::MAX as usize && params.height <= i32::MAX as usize
            && params.max_room_size as i64 + 3 <= params.width as i64
            && params.max_room_size as i64 + 3 <= params.height as i64) {
            return Err(GenerationError::NoRoomPlaced);
        }
        let w = params.width as i32;
        let h = params.height as i32;
        let target = draw_usize(rng, params.min_rooms, params.max_rooms);
        let mut candidates: Vec<Room> = Vec::new();
        let mut coins: Vec<bool> = Vec::new();
        let mut n: usize = 0;
        while n < MAX_ATTEMPTS
            invariant
                params.valid(),
                w == params.width,
                h == params.height,
                n <= MAX_ATTEMPTS,
                candidates@.len() == n,
                coins@.len() == n,
                forall|k: int| 0 <= k < n ==> params.room_fits(#[trigger] candidates@[k]),
            decreases MAX_ATTEMPTS - n,
        {
            let room_w = draw_i32(rng, params.min_room_size, params.max_room_size);
            let room_h = draw_i32(rng, params.min_room_size, params.max_room_size);
            let x = draw_i32(rng, 1, w - room_w - 2);
            let y = draw_i32(rng, 1, h - room_h - 2);
            let new_room = Room::new(x, y, room_w, room_h);
            candidates.push(new_room);
            coins.push(flip_coin(rng));
            n += 1;
        }
        Ok(Self::place_rooms(depth, params, target, &candidates, &coins))
    }

    /// Places rooms greedily: takes the candidates in order, keeps each
    /// that stays clear of every room kept so far until `target` rooms are
    /// kept, and carves each kept room and, from the second on, the L-shaped
    /// corridor from the previous kept room's center to its own, along the
    /// row first when its coin is `true`. The player starts at the first
    /// room's center; the stairs go at the last room's.
    pub fn place_rooms(
        depth: u32,
        params: &GenParams,
        target: usize,
        candidates: &Vec<Room>,
        coins: &Vec<bool>,
    ) -> (d: Dungeon)
        requires
            params.valid(),
            1 <= target <= params.max_rooms,
            1 <= candidates@.len(),
            coins@.len() == candidates@.len(),
            forall|k: int| 0 <= k < candidates@.len() ==> params.room_fits(#[trigger] candidates@[k]),
        ensures
            d.rooms@ == rooms_at(placed(candidates@, target as int, candidates@.len() as int), candidates@),
            forall|x: int, y: int|
                0 <= x < params.width && 0 <= y < params.height ==> #[trigger] d.tile_at(x, y) == if x
                    == d.stairs_position.x && y == d.stairs_position.y {
                    Some(TileType::StairsDown)
                } else if in_layout(
                    d.rooms@,
                    coins_at(placed(candidates@, target as int, candidates@.len() as int), coins@),
                    x,
                    y,
                ) {
                    Some(TileType::Floor)
                } else {
                    Some(TileType::Wall)
                },
            d.is_generated(depth, *params),
    {
        let width = params.width;
        let height = params.height;
        let mut tiles = wall_grid(width, height);
        let mut rooms: Vec<Room> = Vec::new();
        let mut i: usize = 0;
        proof {
            assert(rooms@ =~= rooms_at(placed(candidates@, target as int, 0), candidates@));
        }
        while i < candidates.len() && rooms.len() < target
            invariant
                params.valid(),
                width == params.width,
                height == params.height,
                1 <= target <= params.max_rooms,
                coins@.len() == candidates@.len(),
                forall|k: int| 0 <= k < candidates@.len() ==> params.room_fits(#[trigger] candidates@[k]),
                i <= candidates@.len(),
                rooms@ == rooms_at(placed(candidates@, target as int, i as int), candidates@),
                rooms@.len() <= target,
                i > 0 ==> rooms@.len() > 0,
                forall|a: int, b: int|
                    0 <= a < b < rooms@.len() ==> #[trigger] rooms@[a].separated(#[trigger] rooms@[b]),
                layout_ok(tiles@, rooms@, *params),
                forall|x: int, y: int|
                    0 <= x < params.width && 0 <= y < params.height ==> #[trigger] cell(tiles@, x, y)
                        == if in_layout(
                        rooms@,
                        coins_at(placed(candidates@, target as int, i as int), coins@),
                        x,
                        y,
                    ) {
                        Some(TileType::Floor)
                    } else {
                        Some(TileType::Wall)
                    },
            decreases candidates@.len() - i,
        {
            let new_room = candidates[i];
            let mut hit = false;
            let mut k: usize = 0;
            while k < rooms.len() && !hit
                invariant
                    k <= rooms@.len(),
                    hit ==> rooms@.len() > 0,
                    !hit ==> forall|j: int| 0 <= j < k ==> !(#[trigger] rooms@[j]).spec_intersects(new_room),
                    hit ==> exists|j: int| 0 <= j < rooms@.len() && (#[trigger] rooms@[j]).spec_intersects(new_room),
                decreases rooms@.len() - k + (if hit { 0int } else { 1int }),
            {
                if rooms[k].intersects(&new_room) {
                    hit = true;
                }
                k += 1;
            }
            let ghost prev = placed(candidates@, target as int, i as int);
            proof {
                assert(new_room == candidates@[i as int]);
                assert forall|k: int| 0 <= k < prev.len() implies #[trigger] rooms@[k] == candidates@[prev[k]] by {
                }
                if hit {
                    let j = choose|j: int| 0 <= j < rooms@.len() && (#[trigger] rooms@[j]).spec_intersects(new_room);
                    assert(!candidates@[prev[j]].separated(candidates@[i as int]));
                    assert(placed(candidates@, target as int, i + 1) == prev);
                } else {
                    assert forall|k: int| 0 <= k < prev.len() implies #[trigger] candidates@[prev[k]].separated(candidates@[i as int]) by {
                        assert(!rooms@[k].spec_intersects(new_room));
                    }
                    assert(placed(candidates@, target as int, i + 1) == prev.push(i as int));
                    assert(rooms_at(prev.push(i as int), candidates@) =~= rooms_at(prev, candidates@).push(new_room));
                    assert(coins_at(prev.push(i as int), coins@) =~= coins_at(prev, coins@).push(coins@[i as int]));
                }
            }
            if !hit {
                proof {
                    assert forall|j: int| 0 <= j < rooms@.len() implies (#[trigger] rooms@[j]).separated(new_room) by {
                        assert(!rooms@[j].spec_intersects(new_room));
                    }
                }
                let horizontal_first = if rooms.len() > 0 {
                    coins[i]
                } else {
                    false
                };
                let ghost before = tiles@;
                Self::place_room(&mut tiles, &rooms, &new_room, params, horizontal_first);
                proof {
                    let hs = coins_at(placed(candidates@, target as int, i as int), coins@);
                    assert forall|x: int, y: int|
                        0 <= x < params.width && 0 <= y < params.height implies #[trigger] cell(tiles@, x, y)
                        == if in_layout(rooms@.push(new_room), hs.push(coins@[i as int]), x, y) {
                        Some(TileType::Floor)
                    } else {
                        Some(TileType::Wall)
                    } by {
                        lemma_layout_push(rooms@, hs, new_room, coins@[i as int], x, y);
                        assert(cell(before, x, y) == if in_layout(rooms@, hs, x, y) {
                            Some(TileType::Floor)
                        } else {
                            Some(TileType::Wall)
                        });
                    }
                }
                rooms.push(new_room);
            }
            i += 1;
        }
        proof {
            lemma_placed_stops(candidates@, target as int, i as int, candidates@.len() as int);
        }
        let player_start = rooms[0].center();
        let stairs_position = rooms[rooms.len() - 1].center();
        let ghost t0 = tiles@;
        proof {
            rooms@[0].lemma_center_inside();
            rooms@[rooms@.len() - 1].lemma_center_inside();
            assert(rooms@[rooms@.len() - 1].contains(stairs_position.x as int, stairs_position.y as int));
        }
        set_cell(&mut tiles, stairs_position.x as usize, stairs_position.y as usize, TileType::StairsDown);
        let ghost hs = coins_at(placed(candidates@, target as int, i as int), coins@);
        let d = Dungeon { tiles, width, height, rooms, depth, player_start, stairs_position };
        proof {
            let t1 = d.tiles@;
            assert(grows(t0, t1));
            assert forall|i: int| 0 <= i < d.rooms@.len() implies connects(
                t1,
                pt(d.player_start),
                pt(#[trigger] d.rooms@[i].spec_center()),
            ) by {
                lemma_connects_grows(t0, t1, pt(d.player_start), pt(d.rooms@[i].spec_center()));
            }
            assert forall|x: int, y: int|
                0 <= x < d.width && 0 <= y < d.height && #[trigger] d.tile_at(x, y) != Some(TileType::Wall)
                implies d.explained(x, y) by {
                if x == d.stairs_position.x && y == d.stairs_position.y {
                    assert(d.rooms@[d.rooms@.len() - 1].contains(x, y));
                    assert(d.explained_by(d.rooms@.len() - 1, x, y));
                } else {
                    assert(cell(t0, x, y) != Some(TileType::Wall));
                    assert(in_layout(d.rooms@, hs, x, y));
                    let k = choose|k: int| 0 <= k < d.rooms@.len() && #[trigger] layout_part(d.rooms@, hs, k, x, y);
                    assert(d.explained_by(k, x, y));
                }
            }
        }
        d
    }

    /// Generates a level of the standard size at `depth`, with a generator
    /// seeded from the operating system.
    pub fn new_random(depth: u32) -> (d: Self)
        ensures
            d.is_generated(depth, standard_params()),
    {
        let mut rng = fresh_rng();
        Self::new_random_with_rng(depth, &mut rng)
    }

    /// Generates a level of the standard size at `depth`, drawing from `rng`.
    pub fn new_random_with_rng(depth: u32, rng: &mut StdRng) -> (d: Self)
        ensures
            d.is_generated(depth, standard_params()),
    {
        let params = GenParams {
            width: DUNGEON_WIDTH,
            height: DUNGEON_HEIGHT,
            min_rooms: MIN_ROOMS,
            max_rooms: MAX_ROOMS,
            min_room_size: MIN_ROOM_SIZE,
            max_room_size: MAX_ROOM_SIZE,
        };
        match Self::generate(depth, &params, rng) {
            Ok(d) => d,
            Err(_) => vstd::pervasive::unreached(),
        }
    }

    /// Carves `room` and, when rooms were placed before it, the L-shaped
    /// corridor from the last one's center to its center, along the row
    /// first when `horizontal_first` and along the column first otherwise.
    fn place_room(
        tiles: &mut Vec<Vec<TileType>>,
        rooms: &Vec<Room>,
        room: &Room,
        params: &GenParams,
        horizontal_first: bool,
    )
        requires
            params.valid(),
            layout_ok(old(tiles)@, rooms@, *params),
            params.room_fits(*room),
        ensures
            same_shape(final(tiles)@, old(tiles)@),
            forall|x: int, y: int|
                #[trigger] cell(final(tiles)@, x, y) == if room.contains(x, y) || (rooms@.len() > 0
                    && on_corridor(
                    rooms@.last().spec_center(),
                    room.spec_center(),
                    horizontal_first,
                    x,
                    y,
                )) {
                    Some(TileType::Floor)
                } else {
                    cell(old(tiles)@, x, y)
                },
            layout_ok(final(tiles)@, rooms@.push(*room), *params),
    {
        let ghost t0 = tiles@;
        let ghost nr = rooms@.push(*room);
        Self::carve_room(tiles, room);
        let ghost t1 = tiles@;
        proof {
            room.lemma_center_inside();
            assert(grows(t0, t1));
        }
        if rooms.len() > 0 {
            let prev = rooms[rooms.len() - 1].center();
            let here = room.center();
            proof {
                rooms@[rooms@.len() - 1].lemma_center_inside();
            }
            Self::carve_corridor(tiles, prev, here, horizontal_first);
            proof {
                let t2 = tiles@;
                assert(grows(t1, t2));
                lemma_corridor_connects(t2, prev, here, horizontal_first);
                let c0 = pt(rooms@[0].spec_center());
                assert(connects(t0, c0, pt(rooms@[rooms@.len() - 1].spec_center())));
                lemma_connects_grows(t0, t2, c0, pt(prev));
                lemma_connects_trans(t2, c0, pt(prev), pt(here));
                assert forall|i: int| 0 <= i < nr.len() implies connects(
                    t2,
                    pt(nr[0].spec_center()),
                    pt(#[trigger] nr[i].spec_center()),
                ) by {
                    if i < rooms@.len() {
                        assert(nr[i] == rooms@[i]);
                        lemma_connects_grows(t0, t2, c0, pt(rooms@[i].spec_center()));
                    }
                }
            }
        } else {
            proof {
                let c = room.spec_center();
                assert(nr[0] == *room);
                lemma_single(t1, pt(c));
            }
        }
    }

    /// A level of 80 by 50 cells, walls but for one room of 10 by 10
    /// (columns 35 to 44, rows 20 to 29), where the player starts.
    pub fn new_fixed() -> (d: Self)
        ensures
            d.wf(),
            d.width == DUNGEON_WIDTH,
            d.height == DUNGEON_HEIGHT,
            forall|x: int, y: int|
                0 <= x < DUNGEON_WIDTH && 0 <= y < DUNGEON_HEIGHT ==> #[trigger] d.tile_at(x, y)
                    == if 35 <= x < 45 && 20 <= y < 30 {
                    Some(TileType::Floor)
                } else {
                    Some(TileType::Wall)
                },
            d.rooms@.len() == 0,
            d.depth == 1,
            d.player_start == (Position { x: 40, y: 25 }),
            d.stairs_position == (Position { x: 40, y: 25 }),
    {
        let mut tiles = wall_grid(DUNGEON_WIDTH, DUNGEON_HEIGHT);
        let room = Room { x1: ROOM_X_START, y1: ROOM_Y_START, x2: ROOM_X_END, y2: ROOM_Y_END };
        Self::carve_room(&mut tiles, &room);
        Dungeon {
            tiles,
            width: DUNGEON_WIDTH,
            height: DUNGEON_HEIGHT,
            rooms: Vec::new(),
            depth: 1,
            player_start: Position { x: ROOM_CENTER_X, y: ROOM_CENTER_Y },
            stairs_position: Position { x: ROOM_CENTER_X, y: ROOM_CENTER_Y },
        }
    }

    /// The classification of the cell at `pos`; `None` outside the grid.
    pub fn get_tile(&self, pos: Position) -> (r: Option<TileType>)
        ensures
            r == self.tile_at(pos.x as int, pos.y as int),
    {
        if pos.x < 0 || pos.y < 0 {
            return None;
        }
        let x = pos.x as usize;
        let y = pos.y as usize;
        if y < self.tiles.len() && x < self.tiles[y].len() {
            Some(self.tiles[y][x])
        } else {
            None
        }
    }

    /// The cell at `pos` exists and can be walked on.
    pub fn is_walkable(&self, pos: Position) -> (r: bool)
        ensures
            r == walkable(self.tiles@, pos.x as int, pos.y as int),
    {
        match self.get_tile(pos) {
            Some(t) => t.is_walkable(),
            None => false,
        }
    }

    /// The cell at `pos` exists and lets light through: floors and stairs do,
    /// walls and cells outside the grid do not.
    pub fn is_transparent(&self, pos: Position) -> (r: bool)
        ensures
            r == transparent(self.tiles@, pos.x as int, pos.y as int),
    {
        match self.get_tile(pos) {
            Some(t) => t.is_transparent(),
            None => false,
        }
    }

    /// Turns every cell of `room` into floor.
    fn carve_room(tiles: &mut Vec<Vec<TileType>>, room: &Room)
        requires
            0 <= room.x1 <= room.x2,
            0 <= room.y1 <= room.y2,
            0 <= room.y1,
            room.y2 <= old(tiles)@.len(),
            forall|j: int| room.y1 <= j < room.y2 ==> room.x2 <= #[trigger] old(tiles)@[j]@.len(),
        ensures
            same_shape(final(tiles)@, old(tiles)@),
            forall|x: int, y: int|
                #[trigger] cell(final(tiles)@, x, y) == if room.contains(x, y) {
                    Some(TileType::Floor)
                } else {
                    cell(old(tiles)@, x, y)
                },
    {
        let ghost start = tiles@;
        let mut y: i32 = room.y1;
        while y < room.y2
            invariant
                0 <= room.y1 <= y <= room.y2,
                0 <= room.x1 <= room.x2,
                room.y2 <= start.len(),
                forall|j: int| room.y1 <= j < room.y2 ==> room.x2 <= #[trigger] start[j]@.len(),
                same_shape(tiles@, start),
                forall|i: int, j: int|
                    #[trigger] cell(tiles@, i, j) == if room.contains(i, j) && j < y {
                        Some(TileType::Floor)
                    } else {
                        cell(start, i, j)
                    },
            decreases room.y2 - y,
        {
            let mut x: i32 = room.x1;
            while x < room.x2
                invariant
                    0 <= room.y1 <= y < room.y2,
                    0 <= room.x1 <= x <= room.x2,
                    room.y2 <= start.len(),
                    forall|j: int| room.y1 <= j < room.y2 ==> room.x2 <= #[trigger] start[j]@.len(),
                    same_shape(tiles@, start),
                    forall|i: int, j: int|
                        #[trigger] cell(tiles@, i, j) == if room.contains(i, j) && (j < y || (
                        j == y && i < x)) {
                            Some(TileType::Floor)
                        } else {
                            cell(start, i, j)
                        },
                decreases room.x2 - x,
            {
                set_cell(tiles, x as usize, y as usize, TileType::Floor);
                x += 1;
            }
            y += 1;
        }
    }

    /// Turns the cells of row `y` from column `x1` to column `x2`, both
    /// included, into floor.
    fn carve_horizontal_tunnel(tiles: &mut Vec<Vec<TileType>>, x1: i32, x2: i32, y: i32)
        requires
            0 <= y < old(tiles)@.len(),
            0 <= x1 < old(tiles)@[y as int]@.len(),
            0 <= x2 < old(tiles)@[y as int]@.len(),
        ensures
            same_shape(final(tiles)@, old(tiles)@),
            forall|i: int, j: int|
                #[trigger] cell(final(tiles)@, i, j) == if j == y && between(i, x1 as int, x2 as int) {
                    Some(TileType::Floor)
                } else {
                    cell(old(tiles)@, i, j)
                },
    {
        let ghost start = tiles@;
        let (min_x, max_x) = if x1 < x2 { (x1, x2) } else { (x2, x1) };
        let mut x: i64 = min_x as i64;
        while x <= max_x as i64
            invariant
                min_x <= x <= max_x + 1,
                0 <= min_x <= max_x < start[y as int]@.len(),
                min_x == x1 || min_x == x2,
                max_x == x1 || max_x == x2,
                min_x <= x1 && min_x <= x2,
                0 <= y < start.len(),
                same_shape(tiles@, start),
                forall|i: int, j: int|
                    #[trigger] cell(tiles@, i, j) == if j == y && min_x <= i < x {
                        Some(TileType::Floor)
                    } else {
                        cell(start, i, j)
                    },
            decreases max_x + 1 - x,
        {
            set_cell(tiles, x as usize, y as usize, TileType::Floor);
            x += 1;
        }
    }

    /// Turns the cells of column `x` from row `y1` to row `y2`, both
    /// included, into floor.
    fn carve_vertical_tunnel(tiles: &mut Vec<Vec<TileType>>, y1: i32, y2: i32, x: i32)
        requires
            0 <= y1 < old(tiles)@.len(),
            0 <= y2 < old(tiles)@.len(),
            0 <= x,
            forall|j: int| between(j, y1 as int, y2 as int) ==> x < #[trigger] old(tiles)@[j]@.len(),
        ensures
            same_shape(final(tiles)@, old(tiles)@),
            forall|i: int, j: int|
                #[trigger] cell(final(tiles)@, i, j) == if i == x && between(j, y1 as int, y2 as int) {
                    Some(TileType::Floor)
                } else {
                    cell(old(tiles)@, i, j)
                },
    {
        let ghost start = tiles@;
        let (min_y, max_y) = if y1 < y2 { (y1, y2) } else { (y2, y1) };
        let mut y: i64 = min_y as i64;
        while y <= max_y as i64
            invariant
                min_y <= y <= max_y + 1,
                0 <= min_y <= max_y < start.len(),
                min_y == y1 || min_y == y2,
                max_y == y1 || max_y == y2,
                min_y <= y1 && min_y <= y2,
                0 <= x,
                forall|j: int| between(j, y1 as int, y2 as int) ==> x < #[trigger] start[j]@.len(),
                same_shape(tiles@, start),
                forall|i: int, j: int|
                    #[trigger] cell(tiles@, i, j) == if i == x && min_y <= j < y {
                        Some(TileType::Floor)
                    } else {
                        cell(start, i, j)
                    },
            decreases max_y + 1 - y,
        {
            assert(between(y as int, y1 as int, y2 as int));
            set_cell(tiles, x as usize, y as usize, TileType::Floor);
            y += 1;
        }
    }

    /// Carves the L-shaped corridor from `start` to `end`; `horizontal_first`
    /// picks which leg starts at `start`.
    fn carve_corridor(tiles: &mut Vec<Vec<TileType>>, start: Position, end: Position, horizontal_first: bool)
        requires
            0 <= start.y < old(tiles)@.len(),
            0 <= end.y < old(tiles)@.len(),
            0 <= start.x,
            0 <= end.x,
            forall|j: int|
                0 <= j < old(tiles)@.len() ==> start.x < #[trigger] old(tiles)@[j]@.len() && end.x
                    < old(tiles)@[j]@.len(),
        ensures
            same_shape(final(tiles)@, old(tiles)@),
            forall|i: int, j: int|
                #[trigger] cell(final(tiles)@, i, j) == if on_corridor(start, end, horizontal_first, i, j) {
                    Some(TileType::Floor)
                } else {
                    cell(old(tiles)@, i, j)
                },
    {
        if horizontal_first {
            Self::carve_horizontal_tunnel(tiles, start.x, end.x, start.y);
            Self::carve_vertical_tunnel(tiles, start.y, end.y, end.x);
        } else {
            Self::carve_vertical_tunnel(tiles, start.y, end.y, start.x);
            Self::carve_horizontal_tunnel(tiles, start.x, end.x, end.y);
        }
    }
}

} // verus!
