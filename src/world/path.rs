//! Walks over the passable cells of a grid, and the lemmas that build them.
use vstd::prelude::*;
use crate::world::dungeon::{between, on_corridor, walkable};
use crate::entity::position::Position;
use crate::world::tile::TileType;

verus! {

/// The cell that `p` names, as a pair of mathematical integers.
pub open spec fn pt(p: Position) -> (int, int) {
    (p.x as int, p.y as int)
}

/// `a` and `b` share a side.
pub open spec fn adjacent(a: (int, int), b: (int, int)) -> bool {
    ||| a.0 == b.0 && (a.1 == b.1 + 1 || b.1 == a.1 + 1)
    ||| a.1 == b.1 && (a.0 == b.0 + 1 || b.0 == a.0 + 1)
}

/// `p` is a non-empty sequence of walkable cells, each sharing a side with
/// the next: a route that a walker moving one step up, down, left or right at
/// a time can follow.
pub open spec fn is_walk(tiles: Seq<Vec<TileType>>, p: Seq<(int, int)>) -> bool {
    &&& p.len() > 0
    &&& forall|i: int| 0 <= i < p.len() ==> walkable(tiles, #[trigger] p[i].0, p[i].1)
    &&& forall|i: int| 0 <= i < p.len() - 1 ==> #[trigger] adjacent(p[i], p[i + 1])
}

/// Some walk leads from `a` to `b`.
pub open spec fn connects(tiles: Seq<Vec<TileType>>, a: (int, int), b: (int, int)) -> bool {
    exists|p: Seq<(int, int)>| #[trigger] is_walk(tiles, p) && p[0] == a && p.last() == b
}

/// Every cell walkable in `a` is walkable in `b`.
pub open spec fn grows(a: Seq<Vec<TileType>>, b: Seq<Vec<TileType>>) -> bool {
    forall|x: int, y: int| #[trigger] walkable(a, x, y) ==> walkable(b, x, y)
}

/// One step from `v` toward `t`.
pub open spec fn step_toward(v: int, t: int) -> int {
    if v < t {
        v + 1
    } else if v > t {
        v - 1
    } else {
        v
    }
}

pub open spec fn dist1(a: (int, int), b: (int, int)) -> nat {
    ((if a.0 >= b.0 { a.0 - b.0 } else { b.0 - a.0 }) + (if a.1 >= b.1 { a.1 - b.1 } else { b.1 - a.1 })) as nat
}

/// The route from `a` along its row to `b`'s column, then along that column
/// to `b`.
pub open spec fn row_then_column(a: (int, int), b: (int, int)) -> Seq<(int, int)>
    decreases dist1(a, b),
{
    if a == b {
        seq![a]
    } else if a.0 != b.0 {
        seq![a] + row_then_column((step_toward(a.0, b.0), a.1), b)
    } else {
        seq![a] + row_then_column((a.0, step_toward(a.1, b.1)), b)
    }
}

/// A single cell is a walk when it is walkable.
pub proof fn lemma_single(tiles: Seq<Vec<TileType>>, a: (int, int))
    requires
        walkable(tiles, a.0, a.1),
    ensures
        connects(tiles, a, a),
{
    let p = seq![a];
    assert(is_walk(tiles, p));
}

/// Walks survive when cells only become walkable.
pub proof fn lemma_connects_grows(
    t1: Seq<Vec<TileType>>,
    t2: Seq<Vec<TileType>>,
    a: (int, int),
    b: (int, int),
)
    requires
        grows(t1, t2),
        connects(t1, a, b),
    ensures
        connects(t2, a, b),
{
    let p = choose|p: Seq<(int, int)>| #[trigger] is_walk(t1, p) && p[0] == a && p.last() == b;
    assert forall|i: int| 0 <= i < p.len() implies walkable(t2, #[trigger] p[i].0, p[i].1) by {
        assert(walkable(t1, p[i].0, p[i].1));
    }
    assert(is_walk(t2, p));
}

/// Walks compose end to end.
pub proof fn lemma_connects_trans(
    tiles: Seq<Vec<TileType>>,
    a: (int, int),
    b: (int, int),
    c: (int, int),
)
    requires
        connects(tiles, a, b),
        connects(tiles, b, c),
    ensures
        connects(tiles, a, c),
{
    let p = choose|p: Seq<(int, int)>| #[trigger] is_walk(tiles, p) && p[0] == a && p.last() == b;
    let q = choose|q: Seq<(int, int)>| #[trigger] is_walk(tiles, q) && q[0] == b && q.last() == c;
    let r = p + q.subrange(1, q.len() as int);
    assert forall|i: int| 0 <= i < r.len() implies walkable(tiles, #[trigger] r[i].0, r[i].1) by {
        if i < p.len() {
            assert(r[i] == p[i]);
        } else {
            assert(r[i] == q[i - p.len() + 1]);
        }
    }
    assert forall|i: int| 0 <= i < r.len() - 1 implies #[trigger] adjacent(r[i], r[i + 1]) by {
        if i < p.len() - 1 {
            assert(r[i] == p[i] && r[i + 1] == p[i + 1]);
            assert(adjacent(p[i], p[i + 1]));
        } else if i == p.len() - 1 {
            assert(r[i] == q[0] && r[i + 1] == q[1]);
            assert(adjacent(q[0], q[1]));
        } else {
            let k = i - p.len() + 1;
            assert(r[i] == q[k] && r[i + 1] == q[k + 1]);
            assert(adjacent(q[k], q[k + 1]));
        }
    }
    assert(is_walk(tiles, r));
    if q.len() == 1 {
        assert(r.last() == p.last());
    } else {
        assert(r.last() == q.last());
    }
}

/// Walks can be followed backwards.
pub proof fn lemma_connects_symm(tiles: Seq<Vec<TileType>>, a: (int, int), b: (int, int))
    requires
        connects(tiles, a, b),
    ensures
        connects(tiles, b, a),
{
    let p = choose|p: Seq<(int, int)>| #[trigger] is_walk(tiles, p) && p[0] == a && p.last() == b;
    let r = p.reverse();
    assert forall|i: int| 0 <= i < r.len() implies walkable(tiles, #[trigger] r[i].0, r[i].1) by {
        assert(r[i] == p[p.len() - 1 - i]);
    }
    assert forall|i: int| 0 <= i < r.len() - 1 implies #[trigger] adjacent(r[i], r[i + 1]) by {
        let k = p.len() - 2 - i;
        assert(r[i] == p[k + 1] && r[i + 1] == p[k]);
        assert(adjacent(p[k], p[k + 1]));
    }
    assert(is_walk(tiles, r));
}

/// The row-then-column route is a walk when every cell of the corridor that
/// runs along `a`'s row first is walkable.
pub proof fn lemma_row_then_column(tiles: Seq<Vec<TileType>>, a: (int, int), b: (int, int))
    requires
        forall|x: int, y: int|
            #[trigger] on_corridor(
                Position { x: a.0 as i32, y: a.1 as i32 },
                Position { x: b.0 as i32, y: b.1 as i32 },
                true,
                x,
                y,
            ) ==> walkable(tiles, x, y),
        i32::MIN <= a.0 <= i32::MAX,
        i32::MIN <= a.1 <= i32::MAX,
        i32::MIN <= b.0 <= i32::MAX,
        i32::MIN <= b.1 <= i32::MAX,
    ensures
        connects(tiles, a, b),
    decreases dist1(a, b),
{
    let pa = Position { x: a.0 as i32, y: a.1 as i32 };
    let pb = Position { x: b.0 as i32, y: b.1 as i32 };
    assert(on_corridor(pa, pb, true, a.0, a.1));
    if a == b {
        lemma_single(tiles, a);
    } else {
        let n = if a.0 != b.0 {
            (step_toward(a.0, b.0), a.1)
        } else {
            (a.0, step_toward(a.1, b.1))
        };
        let pn = Position { x: n.0 as i32, y: n.1 as i32 };
        assert forall|x: int, y: int| #[trigger] on_corridor(pn, pb, true, x, y) implies walkable(
            tiles,
            x,
            y,
        ) by {
            assert(on_corridor(pa, pb, true, x, y));
        }
        lemma_row_then_column(tiles, n, b);
        assert(walkable(tiles, a.0, a.1));
        let step = seq![a, n];
        assert(is_walk(tiles, step)) by {
            assert(adjacent(step[0], step[1]));
            assert(on_corridor(pa, pb, true, n.0, n.1));
        }
        lemma_connects_trans(tiles, a, n, b);
    }
}

/// The L-shaped corridor from `a` to `b`, once all its cells are walkable,
/// connects them, whichever leg comes first.
pub proof fn lemma_corridor_connects(
    tiles: Seq<Vec<TileType>>,
    a: Position,
    b: Position,
    horizontal_first: bool,
)
    requires
        forall|x: int, y: int| #[trigger] on_corridor(a, b, horizontal_first, x, y) ==> walkable(tiles, x, y),
    ensures
        connects(tiles, pt(a), pt(b)),
{
    if horizontal_first {
        lemma_row_then_column(tiles, pt(a), pt(b));
    } else {
        assert forall|x: int, y: int| #[trigger] on_corridor(b, a, true, x, y) implies walkable(
            tiles,
            x,
            y,
        ) by {
            assert(on_corridor(a, b, false, x, y));
        }
        lemma_row_then_column(tiles, pt(b), pt(a));
        lemma_connects_symm(tiles, pt(b), pt(a));
    }
}

} // verus!
