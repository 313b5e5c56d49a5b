//! Field of view by recursive shadowcasting.
//!
//! Slopes are exact rationals: the edges of a cell lie at half-integer
//! offsets, so every slope the scan compares is a ratio of small odd or even
//! integers, and comparisons cross-multiply.
use vstd::prelude::*;
use vstd::arithmetic::div_mod::lemma_fundamental_div_mod_converse;
use vstd::relations::injective_on;
use vstd::set_lib::lemma_map_size;
use std::collections::HashSet;
use crate::entity::position::Position;
use crate::world::dungeon::{transparent, Dungeon};
use crate::world::tile::TileType;

verus! {

broadcast use vstd::std_specs::hash::group_hash_axioms;

/// The key under which cell `(x, y)` is stored: distinct cells with `i32`
/// coordinates get distinct keys.
pub open spec fn key_of(x: int, y: int) -> int {
    x * 0x1_0000_0000 + (y + 0x8000_0000)
}

/// The cell a key stands for.
pub open spec fn pos_of(k: int) -> Position {
    Position { x: (k / 0x1_0000_0000) as i32, y: (k % 0x1_0000_0000 - 0x8000_0000) as i32 }
}

/// The cells whose keys `keys` holds.
pub open spec fn cells_of(keys: Set<i64>) -> Set<Position> {
    Set::new(|p: Position| keys.contains(key_of(p.x as int, p.y as int) as i64))
}

/// `keys` is finite and holds only keys of cells.
pub open spec fn keys_ok(keys: Set<i64>) -> bool {
    &&& keys.finite()
    &&& forall|k: i64|
        #[trigger] keys.contains(k) ==> key_of(pos_of(k as int).x as int, pos_of(k as int).y as int)
            == k
}

/// Squared Euclidean distance between two cells.
pub open spec fn dist2(p: Position, c: Position) -> int {
    (p.x - c.x) * (p.x - c.x) + (p.y - c.y) * (p.y - c.y)
}

/// The cells within Euclidean distance `r` of `c`.
pub open spec fn disk(c: Position, r: int) -> Set<Position> {
    Set::new(|p: Position| dist2(p, c) <= r * r)
}

/// Every cell of the square of half-side `r` around `c`, `c` aside, lets
/// light through: nothing near `c` can cast a shadow.
pub open spec fn open_around(d: &Dungeon, c: Position, r: int) -> bool {
    forall|x: int, y: int|
        c.x - r <= x <= c.x + r && c.y - r <= y <= c.y + r && !(x == c.x && y == c.y)
            ==> #[trigger] transparent(d.tiles@, x, y)
}

/// Every cell within `r` of `c`, on both axes, has `i32` coordinates.
pub open spec fn fits(c: Position, r: int) -> bool {
    r <= 0 || (i32::MIN <= c.x - r && c.x + r <= i32::MAX && i32::MIN <= c.y - r && c.y + r
        <= i32::MAX)
}

proof fn lemma_key_round_trip(x: int, y: int)
    requires
        i32::MIN <= x <= i32::MAX,
        i32::MIN <= y <= i32::MAX,
    ensures
        pos_of(key_of(x, y)) == (Position { x: x as i32, y: y as i32 }),
        i64::MIN <= key_of(x, y) <= i64::MAX,
{
    lemma_fundamental_div_mod_converse(key_of(x, y), 0x1_0000_0000, x, y + 0x8000_0000);
}

/// A set of cell keys holds as many keys as it names cells.
proof fn lemma_cells_len(keys: Set<i64>)
    requires
        keys_ok(keys),
    ensures
        cells_of(keys).finite(),
        cells_of(keys).len() == keys.len(),
{
    let f = |k: i64| pos_of(k as int);
    let cells = cells_of(keys);
    assert forall|p: Position| #[trigger] cells.contains(p) implies keys.map(f).contains(p) by {
        lemma_key_round_trip(p.x as int, p.y as int);
        let k = key_of(p.x as int, p.y as int) as i64;
        assert(keys.contains(k) && f(k) == p);
    }
    assert forall|p: Position| #[trigger] keys.map(f).contains(p) implies cells.contains(p) by {
        let k = choose|k: i64| keys.contains(k) && p == f(k);
        assert(key_of(p.x as int, p.y as int) == k);
    }
    assert(keys.map(f) =~= cells);
    assert(injective_on(f, keys)) by {
        assert forall|k1: i64, k2: i64|
            keys.contains(k1) && keys.contains(k2) && #[trigger] f(k1) == #[trigger] f(k2) implies k1
            == k2 by {
            assert(key_of(f(k1).x as int, f(k1).y as int) == k1);
            assert(key_of(f(k2).x as int, f(k2).y as int) == k2);
        }
    }
    lemma_map_size(keys, cells, f);
}

/// The key of cell `(x, y)`.
fn cell_key(x: i32, y: i32) -> (k: i64)
    ensures
        k == key_of(x as int, y as int),
{
    (x as i64) * 0x1_0000_0000 + (y as i64 + 0x8000_0000)
}

/// The coordinate transform of each octant, `(xx, xy, yx, yy)`: a cell
/// `dx` across and `dy` ahead in the octant's own frame lies at
/// `(dx * xx + dy * xy, dx * yx + dy * yy)` from the origin.
pub open spec fn octant_table(o: int) -> (int, int, int, int) {
    if o == 0 {
        (1, 0, 0, 1)
    } else if o == 1 {
        (0, 1, 1, 0)
    } else if o == 2 {
        (0, -1, 1, 0)
    } else if o == 3 {
        (-1, 0, 0, 1)
    } else if o == 4 {
        (-1, 0, 0, -1)
    } else if o == 5 {
        (0, -1, -1, 0)
    } else if o == 6 {
        (0, 1, -1, 0)
    } else {
        (1, 0, 0, -1)
    }
}

/// Where the cell `dx` across in row `j` of octant `o` lies relative to
/// the origin; the same as the transform `octant_table(o)` applied to
/// `(dx, -j)`.
pub open spec fn octant_offset(o: int, dx: int, j: int) -> (int, int) {
    if o == 0 {
        (dx, -j)
    } else if o == 1 {
        (-j, dx)
    } else if o == 2 {
        (j, dx)
    } else if o == 3 {
        (-dx, -j)
    } else if o == 4 {
        (-dx, j)
    } else if o == 5 {
        (j, -dx)
    } else if o == 6 {
        (-j, -dx)
    } else {
        (dx, j)
    }
}

/// The cell `dx` across in row `j` of octant `o` around `c`.
pub open spec fn octant_cell(c: Position, o: int, dx: int, j: int) -> Position {
    let off = octant_offset(o, dx, j);
    Position { x: (c.x + off.0) as i32, y: (c.y + off.1) as i32 }
}

proof fn lemma_unit_mul(a: int, m: int)
    requires
        m == -1 || m == 0 || m == 1,
    ensures
        a * m == (if m == 1 {
            a
        } else if m == -1 {
            -a
        } else {
            0
        }),
{
    if m == 1 {
    } else if m == -1 {
        assert(a * -1 == -a) by (nonlinear_arith);
    } else {
    }
}

proof fn lemma_octant_table(o: int, dx: int, j: int)
    requires
        0 <= o < 8,
    ensures
        dx * octant_table(o).0 + (-j) * octant_table(o).1 == octant_offset(o, dx, j).0,
        dx * octant_table(o).2 + (-j) * octant_table(o).3 == octant_offset(o, dx, j).1,
{
    let m = octant_table(o);
    lemma_unit_mul(dx, m.0);
    lemma_unit_mul(-j, m.1);
    lemma_unit_mul(dx, m.2);
    lemma_unit_mul(-j, m.3);
    if o == 0 {
    } else if o == 1 {
    } else if o == 2 {
    } else if o == 3 {
    } else if o == 4 {
    } else if o == 5 {
    } else if o == 6 {
    } else {
    }
}

proof fn lemma_octant_offset(o: int, dx: int, j: int)
    requires
        0 <= o < 8,
        1 <= j,
        -j <= dx <= 0,
    ensures
        ({
            let off = octant_offset(o, dx, j);
            &&& off.0 * off.0 + off.1 * off.1 == dx * dx + j * j
            &&& -j <= off.0 <= j
            &&& -j <= off.1 <= j
            &&& !(off.0 == 0 && off.1 == 0)
            &&& (off.0 == j || off.0 == -j || off.1 == j || off.1 == -j)
        }),
{
    assert((-dx) * (-dx) == dx * dx) by (nonlinear_arith);
    assert((-j) * (-j) == j * j) by (nonlinear_arith);
}

/// Every cell of the square of half-side `r` around `c` but `c` itself is a
/// cell of some octant, in a row from 1 to `r`.
proof fn lemma_octants_cover(c: Position, x: int, y: int, r: int) -> (w: (int, int, int))
    requires
        c.x - r <= x <= c.x + r,
        c.y - r <= y <= c.y + r,
        !(x == c.x && y == c.y),
        fits(c, r),
    ensures
        0 <= w.0 < 8,
        1 <= w.2 <= r,
        -w.2 <= w.1 <= 0,
        octant_cell(c, w.0, w.1, w.2) == (Position { x: x as i32, y: y as i32 }),
{
    let a = x - c.x;
    let b = y - c.y;
    let aa = if a >= 0 { a } else { -a };
    let bb = if b >= 0 { b } else { -b };
    if bb >= aa {
        if b < 0 {
            if a <= 0 { (0, a, -b) } else { (3, -a, -b) }
        } else {
            if a >= 0 { (4, -a, b) } else { (7, a, b) }
        }
    } else {
        if a < 0 {
            if b <= 0 { (1, b, -a) } else { (6, -b, -a) }
        } else {
            if b <= 0 { (2, b, a) } else { (5, -b, a) }
        }
    }
}

/// The transform of octant `octant`, as `octant_table` gives it.
fn octant_multipliers(octant: usize) -> (m: (i64, i64, i64, i64))
    requires
        octant < 8,
    ensures
        (m.0 as int, m.1 as int, m.2 as int, m.3 as int) == octant_table(octant as int),
{
    match octant {
        0 => (1, 0, 0, 1),
        1 => (0, 1, 1, 0),
        2 => (0, -1, 1, 0),
        3 => (-1, 0, 0, 1),
        4 => (-1, 0, 0, -1),
        5 => (0, -1, -1, 0),
        6 => (0, 1, -1, 0),
        _ => (1, 0, 0, -1),
    }
}

/// A rational slope `num / den`.
#[derive(Clone, Copy)]
pub struct Slope {
    pub num: i64,
    pub den: i64,
}

/// The denominator is positive and both parts are small enough that their
/// cross products fit `i128`.
pub open spec fn bounded(s: Slope) -> bool {
    &&& 0 < s.den <= 0x2_0000_0000
    &&& -0x2_0000_0000 <= s.num <= 0x2_0000_0000
}

pub open spec fn slope_lt(a: Slope, b: Slope) -> bool {
    a.num * b.den < b.num * a.den
}

/// Slope of the left edge of the cell `dx` across in row `j`:
/// `(dx - 1/2) / (-j + 1/2)`.
pub open spec fn l_slope_spec(dx: int, j: int) -> Slope {
    Slope { num: (1 - 2 * dx) as i64, den: (2 * j - 1) as i64 }
}

/// Slope of the right edge of the cell `dx` across in row `j`:
/// `(dx + 1/2) / (-j - 1/2)`.
pub open spec fn r_slope_spec(dx: int, j: int) -> Slope {
    Slope { num: (-(2 * dx + 1)) as i64, den: (2 * j + 1) as i64 }
}

/// Right edges further across a row lie at smaller slopes.
proof fn lemma_r_slope_mono(a: int, b: int, j: int)
    requires
        1 <= j <= i32::MAX,
        -j <= a < b <= 0,
    ensures
        !slope_lt(r_slope_spec(a, j), r_slope_spec(b, j)),
{
    let sa = r_slope_spec(a, j);
    let sb = r_slope_spec(b, j);
    assert(sa.num == -(2 * a + 1) && sb.num == -(2 * b + 1));
    assert(sa.den == 2 * j + 1 && sb.den == 2 * j + 1);
    assert(!(sa.num * sb.den < sb.num * sa.den)) by (nonlinear_arith)
        requires
            sa.num == -(2 * a + 1),
            sb.num == -(2 * b + 1),
            sa.den == 2 * j + 1,
            sb.den == 2 * j + 1,
            a < b,
            1 <= j,
    ;
}

/// Comparisons against the slopes 1 and 0 that a full octant spans.
proof fn lemma_unit_slopes(s: Slope)
    ensures
        slope_lt(Slope { num: 1, den: 1 }, s) == (s.den < s.num),
        slope_lt(s, Slope { num: 0, den: 1 }) == (s.num < 0),
        slope_lt(Slope { num: 1, den: 1 }, Slope { num: 0, den: 1 }) == false,
{
}

/// `a < b` as rationals.
fn slope_less(a: Slope, b: Slope) -> (r: bool)
    requires
        bounded(a),
        bounded(b),
    ensures
        r == slope_lt(a, b),
{
    proof {
        lemma_products_fit(a.num as int, b.den as int);
        lemma_products_fit(b.num as int, a.den as int);
    }
    (a.num as i128) * (b.den as i128) < (b.num as i128) * (a.den as i128)
}

proof fn lemma_products_fit(n: int, d: int)
    requires
        -0x2_0000_0000 <= n <= 0x2_0000_0000,
        0 < d <= 0x2_0000_0000,
    ensures
        -0x4_0000_0000_0000_0000 <= n * d <= 0x4_0000_0000_0000_0000,
{
    assert(-0x4_0000_0000_0000_0000 <= n * d <= 0x4_0000_0000_0000_0000) by (nonlinear_arith)
        requires
            -0x2_0000_0000 <= n <= 0x2_0000_0000,
            0 < d <= 0x2_0000_0000,
    ;
}

/// Every cell in rows `from` to `r` of octant `o` around `c` lets light
/// through.
pub open spec fn rows_clear(d: &Dungeon, c: Position, o: int, from: int, r: int) -> bool {
    forall|j: int, dx: int|
        from <= j <= r && -j <= dx <= 0 ==> transparent(
            d.tiles@,
            (#[trigger] octant_cell(c, o, dx, j)).x as int,
            octant_cell(c, o, dx, j).y as int,
        )
}

/// `s` holds every cell in rows `from` to `to` of octant `o` around `c`
/// that lies within distance `r` of `c`.
pub open spec fn rows_seen(s: Set<Position>, c: Position, o: int, from: int, to: int, r: int) -> bool {
    forall|j: int, dx: int|
        from <= j <= to && -j <= dx <= 0 && dx * dx + j * j <= r * r ==> s.contains(
            #[trigger] octant_cell(c, o, dx, j),
        )
}

proof fn lemma_key_inj(p: Position, q: Position)
    requires
        key_of(p.x as int, p.y as int) as i64 == key_of(q.x as int, q.y as int) as i64,
    ensures
        p == q,
{
    lemma_key_round_trip(p.x as int, p.y as int);
    lemma_key_round_trip(q.x as int, q.y as int);
}

proof fn lemma_square_bound(dx: int, j: int)
    requires
        1 <= j <= i32::MAX,
        -j <= dx <= 0,
    ensures
        0 <= dx * dx <= j * j,
        j * j <= 0x3fff_ffff_0000_0001,
{
    assert(0 <= dx * dx <= j * j) by (nonlinear_arith)
        requires
            1 <= j,
            -j <= dx <= 0,
    ;
    assert(j * j <= 0x3fff_ffff_0000_0001) by (nonlinear_arith)
        requires
            1 <= j <= 0x7fff_ffff,
    ;
}

/// A cell within distance `r` of `c` is within `r` of it on each axis.
proof fn lemma_within_square(p: Position, c: Position, r: int)
    requires
        0 <= r,
        dist2(p, c) <= r * r,
    ensures
        c.x - r <= p.x <= c.x + r,
        c.y - r <= p.y <= c.y + r,
{
    let a = p.x - c.x;
    let b = p.y - c.y;
    assert(a * a + b * b <= r * r);
    assert(0 <= b * b) by (nonlinear_arith);
    assert(0 <= a * a) by (nonlinear_arith);
    assert(-r <= a <= r) by (nonlinear_arith)
        requires
            a * a <= r * r,
            0 <= r,
    ;
    assert(-r <= b <= r) by (nonlinear_arith)
        requires
            b * b <= r * r,
            0 <= r,
    ;
}

/// Largest of the distances from `c` to `p` along each axis.
pub open spec fn cheb(p: Position, c: Position) -> int {
    let ax = if p.x >= c.x { p.x - c.x } else { c.x - p.x };
    let ay = if p.y >= c.y { p.y - c.y } else { c.y - p.y };
    if ax >= ay { ax } else { ay }
}

/// What one scan of octant `o` around `c` adds to `vis`: it starts at row
/// `row`, with the beam between `start` and `end`, and reaches out to
/// radius `r`. An empty beam, or a first row beyond the radius, adds
/// nothing.
pub open spec fn scan(
    tiles: Seq<Vec<TileType>>,
    c: Position,
    r: int,
    o: int,
    row: int,
    start: Slope,
    end: Slope,
    vis: Set<Position>,
) -> Set<Position>
    decreases r + 1 - row, 2int, 0int,
{
    if row > r || slope_lt(start, end) {
        vis
    } else {
        scan_rows(tiles, c, r, o, row, start, end, false, start, vis)
    }
}

/// The scan from row `j` on: it stops beyond the radius, or when the
/// previous row ended on an opaque cell (`blocked`); otherwise it sweeps row
/// `j` and goes on with the next row. `next` is the slope the beam resumes
/// at when a run of opaque cells ends.
pub open spec fn scan_rows(
    tiles: Seq<Vec<TileType>>,
    c: Position,
    r: int,
    o: int,
    j: int,
    start: Slope,
    end: Slope,
    blocked: bool,
    next: Slope,
    vis: Set<Position>,
) -> Set<Position>
    decreases r + 1 - j, 1int, 0int,
{
    if j > r || blocked {
        vis
    } else {
        let s = scan_cells(tiles, c, r, o, j, -j, start, end, false, next, vis);
        scan_rows(tiles, c, r, o, j + 1, s.1, end, s.2, s.3, s.0)
    }
}

/// The sweep of row `j` from the cell `dx` across to the axis (`dx == 0`).
/// A cell not yet in the beam (`start` below its right edge) is passed
/// over; once the beam has passed a cell (`end` above its left edge) the row
/// ends. Otherwise the cell is visible when within the radius, and:
/// - in a run of opaque cells, an opaque cell moves `next` to its right
///   edge, and a transparent one ends the run, the beam resuming at `next`;
/// - outside such a run, an opaque cell before the last row starts a run:
///   the part of the beam left of it is scanned from the next row on, and
///   `next` moves to its right edge.
/// The result is the visible set, the beam's start, whether the row ended in
/// a run of opaque cells, and `next`.
pub open spec fn scan_cells(
    tiles: Seq<Vec<TileType>>,
    c: Position,
    r: int,
    o: int,
    j: int,
    dx: int,
    start: Slope,
    end: Slope,
    blocked: bool,
    next: Slope,
    vis: Set<Position>,
) -> (Set<Position>, Slope, bool, Slope)
    decreases r + 1 - j, 0int, 1 - dx,
{
    if dx > 0 {
        (vis, start, blocked, next)
    } else {
        let ls = l_slope_spec(dx, j);
        let rs = r_slope_spec(dx, j);
        if slope_lt(start, rs) {
            scan_cells(tiles, c, r, o, j, dx + 1, start, end, blocked, next, vis)
        } else if slope_lt(ls, end) {
            (vis, start, blocked, next)
        } else {
            let cell = octant_cell(c, o, dx, j);
            let vis1 = if dx * dx + j * j <= r * r {
                vis.insert(cell)
            } else {
                vis
            };
            let opaque = !transparent(tiles, cell.x as int, cell.y as int);
            if blocked {
                if opaque {
                    scan_cells(tiles, c, r, o, j, dx + 1, start, end, true, rs, vis1)
                } else {
                    scan_cells(tiles, c, r, o, j, dx + 1, next, end, false, next, vis1)
                }
            } else if opaque && j < r {
                let vis2 = scan(tiles, c, r, o, j + 1, start, ls, vis1);
                scan_cells(tiles, c, r, o, j, dx + 1, start, end, true, rs, vis2)
            } else {
                scan_cells(tiles, c, r, o, j, dx + 1, start, end, blocked, next, vis1)
            }
        }
    }
}

/// The origin, then the scans of octants `0` to `k - 1` in turn, each over
/// the full beam from slope 1 to slope 0 starting at row 1.
pub open spec fn octant_scans(tiles: Seq<Vec<TileType>>, c: Position, r: int, k: int) -> Set<Position>
    decreases k,
{
    if k <= 0 {
        set![c]
    } else {
        scan(
            tiles,
            c,
            r,
            k - 1,
            1,
            Slope { num: 1, den: 1 },
            Slope { num: 0, den: 1 },
            octant_scans(tiles, c, r, k - 1),
        )
    }
}

/// The cells visible from `c` out to radius `r` by recursive shadowcasting.
pub open spec fn shadowcast(tiles: Seq<Vec<TileType>>, c: Position, r: int) -> Set<Position> {
    octant_scans(tiles, c, r, 8)
}

/// Every cell named by a key of `a` is named by a key of `b` when `a`'s keys
/// are among `b`'s.
proof fn lemma_cells_subset(a: Set<i64>, b: Set<i64>)
    requires
        a.subset_of(b),
    ensures
        cells_of(a).subset_of(cells_of(b)),
{
}

/// Which cells a viewer sees from where it stands now, and which it has
/// ever seen, out to a fixed radius.
pub struct Fov {
    /// Keys of the cells visible now.
    visible: HashSet<i64>,
    /// Keys of the cells ever seen.
    explored: HashSet<i64>,
    radius: i32,
}

impl Fov {
    /// The cells visible now.
    pub closed spec fn visible_set(&self) -> Set<Position> {
        cells_of(self.visible@)
    }

    /// The cells seen at some point.
    pub closed spec fn explored_set(&self) -> Set<Position> {
        cells_of(self.explored@)
    }

    pub closed spec fn spec_radius(&self) -> i32 {
        self.radius
    }

    /// Both sets are finite and every visible cell is explored.
    pub closed spec fn inv(&self) -> bool {
        &&& keys_ok(self.visible@)
        &&& keys_ok(self.explored@)
        &&& self.visible@.subset_of(self.explored@)
    }

    /// A viewer that has seen nothing yet and sees out to `radius`.
    pub fn new(radius: i32) -> (f: Self)
        ensures
            f.inv(),
            f.visible_set() == Set::<Position>::empty(),
            f.explored_set() == Set::<Position>::empty(),
            f.spec_radius() == radius,
    {
        let f = Self { visible: HashSet::new(), explored: HashSet::new(), radius };
        assert(f.visible_set() =~= Set::<Position>::empty());
        assert(f.explored_set() =~= Set::<Position>::empty());
        f
    }

    /// Marks cell `(x, y)` visible and explored.
    fn mark_visible(&mut self, x: i32, y: i32)
        requires
            old(self).inv(),
        ensures
            final(self).inv(),
            final(self).radius == old(self).radius,
            final(self).visible_set() == old(self).visible_set().insert(Position { x, y }),
            final(self).explored_set() == old(self).explored_set().insert(Position { x, y }),
    {
        let k = cell_key(x, y);
        let ghost p = Position { x, y };
        let ghost v0 = self.visible_set();
        let ghost e0 = self.explored_set();
        proof {
            lemma_key_round_trip(x as int, y as int);
        }
        self.visible.insert(k);
        self.explored.insert(k);
        proof {
            assert forall|q: Position| #[trigger] self.visible_set().contains(q) <==> v0.insert(p).contains(q) by {
                if key_of(q.x as int, q.y as int) as i64 == k {
                    lemma_key_inj(p, q);
                }
            }
            assert forall|q: Position| #[trigger] self.explored_set().contains(q) <==> e0.insert(p).contains(q) by {
                if key_of(q.x as int, q.y as int) as i64 == k {
                    lemma_key_inj(p, q);
                }
            }
            assert(self.visible_set() =~= v0.insert(p));
            assert(self.explored_set() =~= e0.insert(p));
        }
    }

    /// Recomputes what is visible from `origin` in `dungeon`: the origin
    /// itself, and every cell that shadowcasting in the eight octants reaches
    /// within the radius, opaque cells included; cells outside the grid count
    /// as opaque. Everything visible is added to what has been explored.
    pub fn calculate(&mut self, origin: Position, dungeon: &Dungeon)
        requires
            old(self).inv(),
            fits(origin, old(self).spec_radius() as int),
        ensures
            final(self).inv(),
            final(self).spec_radius() == old(self).spec_radius(),
            final(self).visible_set() == shadowcast(dungeon.tiles@, origin, old(self).spec_radius() as int),
            final(self).visible_set().contains(origin),
            old(self).spec_radius() <= 0 ==> final(self).visible_set() == set![origin],
            forall|p: Position|
                1 <= old(self).spec_radius() && cheb(p, origin) == 1 && dist2(p, origin)
                    <= old(self).spec_radius() * old(self).spec_radius() ==> #[trigger] final(self).visible_set().contains(p),
            forall|p: Position| #[trigger]
                final(self).visible_set().contains(p) ==> dist2(p, origin) <= old(self).spec_radius()
                    * old(self).spec_radius(),
            final(self).explored_set() == old(self).explored_set().union(final(self).visible_set()),
            (0 <= old(self).spec_radius() && open_around(dungeon, origin, old(self).spec_radius() as int))
                ==> final(self).visible_set() == disk(origin, old(self).spec_radius() as int),
    {
        let ghost r = self.radius as int;
        let ghost e0 = self.explored_set();
        self.visible.clear();
        proof {
            assert(self.visible_set() =~= Set::<Position>::empty());
            assert(e0.union(self.visible_set()) =~= e0);
        }
        self.mark_visible(origin.x, origin.y);
        proof {
            assert(0 <= r * r) by (nonlinear_arith);
            assert(dist2(origin, origin) == 0);
            assert(self.visible_set() =~= set![origin]);
            assert(self.explored_set() =~= e0.union(self.visible_set()));
        }
        let ghost open = 0 <= r && open_around(dungeon, origin, r);
        let mut octant: usize = 0;
        while octant < 8
            invariant
                self.inv(),
                self.radius == r,
                r == old(self).radius,
                e0 == old(self).explored_set(),
                fits(origin, r),
                octant <= 8,
                self.visible_set().contains(origin),
                self.visible_set() == octant_scans(dungeon.tiles@, origin, r, octant as int),
                r <= 0 ==> self.visible_set() == set![origin],
                1 <= r ==> forall|o: int| 0 <= o < octant ==> #[trigger] rows_seen(self.visible_set(), origin, o, 1, 1, r),
                forall|p: Position| #[trigger]
                    self.visible_set().contains(p) ==> dist2(p, origin) <= r * r,
                self.explored_set() == e0.union(self.visible_set()),
                open == (0 <= r && open_around(dungeon, origin, r)),
                open ==> forall|o: int| 0 <= o < octant ==> #[trigger] rows_seen(self.visible_set(), origin, o, 1, r, r),
            decreases 8 - octant,
        {
            proof {
                assert((origin.x - origin.x) * (origin.x - origin.x) == 0);
                assert(0 <= r * r) by (nonlinear_arith);
                if open {
                    assert forall|j: int, dx: int|
                        1 <= j <= r && -j <= dx <= 0 implies transparent(
                        dungeon.tiles@,
                        (#[trigger] octant_cell(origin, octant as int, dx, j)).x as int,
                        octant_cell(origin, octant as int, dx, j).y as int,
                    ) by {
                        lemma_octant_offset(octant as int, dx, j);
                    }
                }
            }
            let ghost before = self.visible_set();
            self.cast_light(dungeon, origin, 1, Slope { num: 1, den: 1 }, Slope { num: 0, den: 1 }, octant);
            proof {
                assert forall|p: Position| #[trigger] self.visible_set().contains(p) implies dist2(p, origin) <= r * r by {
                    if before.contains(p) {
                    }
                }
                assert(self.explored_set() =~= e0.union(self.visible_set()));
                if 1 <= r {
                    assert forall|o: int| 0 <= o < octant + 1 implies #[trigger] rows_seen(self.visible_set(), origin, o, 1, 1, r) by {
                        if o < octant {
                            assert(rows_seen(before, origin, o, 1, 1, r));
                            assert forall|j: int, dx: int|
                                1 <= j <= 1 && -j <= dx <= 0 && dx * dx + j * j <= r * r implies self.visible_set().contains(
                                #[trigger] octant_cell(origin, o, dx, j),
                            ) by {
                                assert(before.contains(octant_cell(origin, o, dx, j)));
                            }
                        }
                    }
                }
                if open {
                    assert forall|o: int| 0 <= o < octant + 1 implies #[trigger] rows_seen(self.visible_set(), origin, o, 1, r, r) by {
                        if o < octant {
                            assert(rows_seen(before, origin, o, 1, r, r));
                            assert forall|j: int, dx: int|
                                1 <= j <= r && -j <= dx <= 0 && dx * dx + j * j <= r * r implies self.visible_set().contains(
                                #[trigger] octant_cell(origin, o, dx, j),
                            ) by {
                                assert(before.contains(octant_cell(origin, o, dx, j)));
                            }
                        }
                    }
                }
            }
            octant += 1;
        }
        proof {
            if 1 <= r {
                assert forall|p: Position|
                    cheb(p, origin) == 1 && dist2(p, origin) <= r * r implies #[trigger] self.visible_set().contains(p) by {
                    let w = lemma_octants_cover(origin, p.x as int, p.y as int, 1);
                    lemma_octant_offset(w.0, w.1, w.2);
                    assert(rows_seen(self.visible_set(), origin, w.0, 1, 1, r));
                    assert(octant_cell(origin, w.0, w.1, w.2) == p);
                }
            }
            if open {
                assert forall|p: Position| #[trigger] disk(origin, r).contains(p) implies self.visible_set().contains(p) by {
                    if p != origin {
                        lemma_within_square(p, origin, r);
                        let w = lemma_octants_cover(origin, p.x as int, p.y as int, r);
                        lemma_octant_offset(w.0, w.1, w.2);
                        assert(rows_seen(self.visible_set(), origin, w.0, 1, r, r));
                        assert(octant_cell(origin, w.0, w.1, w.2) == p);
                    }
                }
                assert(self.visible_set() =~= disk(origin, r));
            }
        }
    }

    /// Scans octant `octant` around `origin` from row `row` outward, between
    /// the slopes `start_slope` and `end_slope`: marks visible each cell the
    /// beam reaches within the radius, and where an opaque cell interrupts a
    /// row, scans the part of the beam left of it further out and resumes
    /// past it.
    fn cast_light(
        &mut self,
        dungeon: &Dungeon,
        origin: Position,
        row: i64,
        start_slope: Slope,
        end_slope: Slope,
        octant: usize,
    )
        requires
            old(self).inv(),
            1 <= row,
            octant < 8,
            fits(origin, old(self).radius as int),
            bounded(start_slope),
            bounded(end_slope),
        ensures
            final(self).inv(),
            final(self).radius == old(self).radius,
            old(self).visible_set().subset_of(final(self).visible_set()),
            final(self).visible_set() == scan(
                dungeon.tiles@,
                origin,
                old(self).radius as int,
                octant as int,
                row as int,
                start_slope,
                end_slope,
                old(self).visible_set(),
            ),
            forall|p: Position| #[trigger]
                final(self).visible_set().contains(p) ==> old(self).visible_set().contains(p) || (
                dist2(p, origin) <= old(self).radius * old(self).radius && row <= cheb(p, origin)
                    <= old(self).radius),
            (row > old(self).radius || slope_lt(start_slope, end_slope)) ==> (final(self).visible_set()
                == old(self).visible_set() && final(self).explored_set() == old(self).explored_set()),
            final(self).explored_set() == old(self).explored_set().union(final(self).visible_set()),
            (start_slope == Slope { num: 1, den: 1 } && end_slope == Slope { num: 0, den: 1 }
                && rows_clear(dungeon, origin, octant as int, row as int, old(self).radius as int))
                ==> rows_seen(
                final(self).visible_set(),
                origin,
                octant as int,
                row as int,
                old(self).radius as int,
                old(self).radius as int,
            ),
            (start_slope == Slope { num: 1, den: 1 } && end_slope == Slope { num: 0, den: 1 } && row
                <= old(self).radius) ==> rows_seen(
                final(self).visible_set(),
                origin,
                octant as int,
                row as int,
                row as int,
                old(self).radius as int,
            ),
        decreases old(self).radius - row + 1,
    {
        let ghost r = self.radius as int;
        let ghost v0 = self.visible_set();
        let ghost e0 = self.explored_set();
        let ghost start0 = start_slope;
        let ghost open = start_slope == (Slope { num: 1, den: 1 }) && end_slope == (Slope { num: 0, den: 1 })
            && rows_clear(dungeon, origin, octant as int, row as int, r);
        let ghost target = scan(dungeon.tiles@, origin, r, octant as int, row as int, start_slope, end_slope, v0);
        proof {
            lemma_cells_subset(self.visible@, self.explored@);
            assert(e0 =~= e0.union(v0));
        }
        let ghost first = start_slope == (Slope { num: 1, den: 1 }) && end_slope == (Slope { num: 0, den: 1 });
        let mut start = start_slope;
        proof {
            lemma_unit_slopes(end_slope);
        }
        if slope_less(start, end_slope) {
            return;
        }
        let (xx, xy, yx, yy) = octant_multipliers(octant);
        let radius = self.radius as i64;
        let mut blocked = false;
        let mut next_start_slope = start;
        let mut j: i64 = row;
        while j <= radius
            invariant
                self.inv(),
                self.radius == r,
                r == old(self).radius,
                v0 == old(self).visible_set(),
                start0 == start_slope,
                target == scan(dungeon.tiles@, origin, r, octant as int, row as int, start_slope, end_slope, v0),
                !slope_lt(start_slope, end_slope),
                scan_rows(dungeon.tiles@, origin, r, octant as int, j as int, start, end_slope, blocked, next_start_slope, self.visible_set()) == target,
                e0 == old(self).explored_set(),
                radius == r,
                octant < 8,
                (xx as int, xy as int, yx as int, yy as int) == octant_table(octant as int),
                fits(origin, r),
                1 <= row <= j,
                j <= r + 1 || j == row,
                bounded(start),
                bounded(end_slope),
                bounded(next_start_slope),
                v0.subset_of(self.visible_set()),
                forall|p: Position| #[trigger]
                    self.visible_set().contains(p) ==> v0.contains(p) || (dist2(p, origin) <= r * r && row
                        <= cheb(p, origin) <= r),
                self.explored_set() == e0.union(self.visible_set()),
                open == (start0 == (Slope { num: 1, den: 1 }) && end_slope == (Slope { num: 0, den: 1 })
                    && rows_clear(dungeon, origin, octant as int, row as int, r)),
                first == (start0 == (Slope { num: 1, den: 1 }) && end_slope == (Slope { num: 0, den: 1 })),
                first && j > row ==> rows_seen(self.visible_set(), origin, octant as int, row as int, row as int, r),
                first && j == row ==> start == start0 && next_start_slope == start0,
                j == row ==> !blocked,
                open ==> !blocked && start == start0 && rows_seen(
                    self.visible_set(),
                    origin,
                    octant as int,
                    row as int,
                    j - 1,
                    r,
                ),
            decreases r + 1 - j,
        {
            if blocked {
                return;
            }
            let mut dx: i64 = -j;
            let mut row_done = false;
            proof {
                assert forall|d: int| dx <= d <= 0 implies #[trigger] r_slope_spec(d, j as int) == r_slope_spec(d, j as int)
                    && (first && j == row ==> !slope_lt(start, r_slope_spec(d, j as int)) && !slope_lt(
                    next_start_slope,
                    r_slope_spec(d, j as int),
                )) by {
                    lemma_unit_slopes(r_slope_spec(d, j as int));
                }
            }
            while dx <= 0 && !row_done
                invariant
                    self.inv(),
                    self.radius == r,
                    r == old(self).radius,
                    !blocked || row_done || dx > -j,
                    (if row_done {
                        scan_rows(dungeon.tiles@, origin, r, octant as int, j + 1, start, end_slope, blocked, next_start_slope, self.visible_set())
                    } else {
                        let st = scan_cells(dungeon.tiles@, origin, r, octant as int, j as int, dx as int, start, end_slope, blocked, next_start_slope, self.visible_set());
                        scan_rows(dungeon.tiles@, origin, r, octant as int, j + 1, st.1, end_slope, st.2, st.3, st.0)
                    }) == target,
                    radius == r,
                    octant < 8,
                    (xx as int, xy as int, yx as int, yy as int) == octant_table(octant as int),
                    fits(origin, r),
                    1 <= row <= j <= r,
                    -j <= dx <= 1,
                    bounded(start),
                    bounded(end_slope),
                    bounded(next_start_slope),
                    v0.subset_of(self.visible_set()),
                    forall|p: Position| #[trigger]
                        self.visible_set().contains(p) ==> v0.contains(p) || (dist2(p, origin) <= r * r && row
                        <= cheb(p, origin) <= r),
                    self.explored_set() == e0.union(self.visible_set()),
                    open == (start0 == (Slope { num: 1, den: 1 }) && end_slope == (Slope { num: 0, den: 1 })
                        && rows_clear(dungeon, origin, octant as int, row as int, r)),
                    open ==> !blocked && !row_done && start == start0 && rows_seen(
                        self.visible_set(),
                        origin,
                        octant as int,
                        row as int,
                        j - 1,
                        r,
                    ),
                    first == (start0 == (Slope { num: 1, den: 1 }) && end_slope == (Slope { num: 0, den: 1 })),
                    first && j > row ==> rows_seen(self.visible_set(), origin, octant as int, row as int, row as int, r),
                    first && j == row ==> !row_done,
                    first && j == row ==> forall|d: int|
                        -j <= d < dx && d * d + j * j <= r * r ==> self.visible_set().contains(
                            #[trigger] octant_cell(origin, octant as int, d, j as int),
                        ),
                    first && j == row ==> forall|d: int|
                        dx <= d <= 0 ==> !slope_lt(start, #[trigger] r_slope_spec(d, j as int)) && !slope_lt(
                            next_start_slope,
                            r_slope_spec(d, j as int),
                        ),
                    open ==> forall|d: int|
                        -j <= d < dx && d * d + j * j <= r * r ==> self.visible_set().contains(
                            #[trigger] octant_cell(origin, octant as int, d, j as int),
                        ),
                decreases 1 - dx,
            {
                let dy: i64 = -j;
                proof {
                    lemma_octant_table(octant as int, dx as int, j as int);
                    lemma_octant_offset(octant as int, dx as int, j as int);
                    lemma_unit_mul(dx as int, xx as int);
                    lemma_unit_mul(dy as int, xy as int);
                    lemma_unit_mul(dx as int, yx as int);
                    lemma_unit_mul(dy as int, yy as int);
                    lemma_square_bound(dx as int, j as int);
                    lemma_square_bound(dx as int, r);
                    lemma_unit_slopes(r_slope_spec(dx as int, j as int));
                    lemma_unit_slopes(l_slope_spec(dx as int, j as int));
                }
                let map_x: i64 = origin.x as i64 + dx * xx + dy * xy;
                let map_y: i64 = origin.y as i64 + dx * yx + dy * yy;
                let cell = Position { x: map_x as i32, y: map_y as i32 };
                assert(cell == octant_cell(origin, octant as int, dx as int, j as int));
                let l_slope = Slope { num: 1 - 2 * dx, den: 2 * j - 1 };
                let r_slope = Slope { num: -(2 * dx + 1), den: 2 * j + 1 };
                assert(l_slope == l_slope_spec(dx as int, j as int));
                assert(r_slope == r_slope_spec(dx as int, j as int));
                proof {
                    assert forall|d: int| dx < d <= 0 implies !slope_lt(r_slope, #[trigger] r_slope_spec(d, j as int)) by {
                        lemma_r_slope_mono(dx as int, d, j as int);
                    }
                }
                if slope_less(start, r_slope) {
                    // The beam has not reached this cell yet.
                } else if slope_less(l_slope, end_slope) {
                    // The beam has passed this cell: the rest of the row is dark.
                    row_done = true;
                } else {
                    let dist_sq = dx * dx + j * j;
                    if dist_sq <= radius * radius {
                        assert(cheb(cell, origin) == j);
                        self.mark_visible(cell.x, cell.y);
                    }
                    let tile_blocks = !dungeon.is_transparent(cell);
                    if blocked {
                        if tile_blocks {
                            next_start_slope = r_slope;
                        } else {
                            blocked = false;
                            start = next_start_slope;
                        }
                    } else if tile_blocks && j < radius {
                        blocked = true;
                        self.cast_light(dungeon, origin, j + 1, start, l_slope, octant);
                        next_start_slope = r_slope;
                    }
                }
                dx += 1;
            }
            proof {
                if first && j == row {
                    assert forall|jj: int, d: int|
                        row <= jj <= row && -jj <= d <= 0 && d * d + jj * jj <= r * r implies self.visible_set().contains(
                        #[trigger] octant_cell(origin, octant as int, d, jj),
                    ) by {
                        assert(jj == j);
                    }
                }
                if open {
                    assert forall|jj: int, d: int|
                        row <= jj <= j && -jj <= d <= 0 && d * d + jj * jj <= r * r implies self.visible_set().contains(
                        #[trigger] octant_cell(origin, octant as int, d, jj),
                    ) by {
                        if jj < j {
                        }
                    }
                }
            }
            j += 1;
        }
    }

    /// The cell at `pos` is visible now.
    pub fn is_visible(&self, pos: Position) -> (r: bool)
        requires
            self.inv(),
        ensures
            r == self.visible_set().contains(pos),
    {
        let k = cell_key(pos.x, pos.y);
        self.visible.contains(&k)
    }

    /// The cell at `pos` has been seen at some point.
    pub fn is_explored(&self, pos: Position) -> (r: bool)
        requires
            self.inv(),
        ensures
            r == self.explored_set().contains(pos),
    {
        let k = cell_key(pos.x, pos.y);
        self.explored.contains(&k)
    }

    /// How many cells are visible now.
    pub fn visible_count(&self) -> (n: usize)
        requires
            self.inv(),
        ensures
            n == self.visible_set().len(),
    {
        proof {
            lemma_cells_len(self.visible@);
        }
        self.visible.len()
    }
}

} // verus!
