//! Walks over a tile map: sequences of orthogonal steps on walkable tiles,
//! and the facts about them that level generation relies on.

use vstd::prelude::*;

use crate::entity::Position;
use crate::map::{lemma_set_tile_reads, grid_index, on_corridor, TileMap, TileType};

verus! {

/// One step along a row or a column.
pub open spec fn steps_to(a: Position, b: Position) -> bool {
    ||| (a.x == b.x && (a.y - b.y == 1 || b.y - a.y == 1))
    ||| (a.y == b.y && (a.x - b.x == 1 || b.x - a.x == 1))
}

/// The `i`-th move of `path` is one orthogonal step.
pub open spec fn walk_step(path: Seq<Position>, i: int) -> bool {
    steps_to(path[i], path[i + 1])
}

/// `path` stays on walkable tiles of `m` and moves one orthogonal step at a
/// time.
pub open spec fn is_walk(m: TileMap, path: Seq<Position>) -> bool {
    &&& path.len() >= 1
    &&& forall|i: int| 0 <= i < path.len() ==> m.walkable_at(#[trigger] path[i])
    &&& forall|i: int| 0 <= i < path.len() - 1 ==> #[trigger] walk_step(path, i)
}

/// Some walk on `m` leads from `a` to `b`.
pub open spec fn connects(m: TileMap, a: Position, b: Position) -> bool {
    exists|path: Seq<Position>| #[trigger] is_walk(m, path) && path[0] == a && path.last() == b
}

/// Every tile walkable on `m1` is walkable on `m2`.
pub open spec fn keeps_walkable(m1: TileMap, m2: TileMap) -> bool {
    forall|p: Position| #[trigger] m1.walkable_at(p) ==> m2.walkable_at(p)
}

/// A walkable tile is reached from itself.
pub proof fn lemma_connects_refl(m: TileMap, a: Position)
    requires
        m.walkable_at(a),
    ensures
        connects(m, a, a),
{
    let path = seq![a];
    assert(is_walk(m, path));
}

/// Walks run both ways.
pub proof fn lemma_connects_sym(m: TileMap, a: Position, b: Position)
    requires
        connects(m, a, b),
    ensures
        connects(m, b, a),
{
    let path = choose|path: Seq<Position>| #[trigger] is_walk(m, path) && path[0] == a && path.last() == b;
    let n = path.len() as int;
    let back = Seq::new(path.len(), |i: int| path[n - 1 - i]);
    assert forall|i: int| 0 <= i < back.len() implies m.walkable_at(#[trigger] back[i]) by {
        assert(m.walkable_at(path[n - 1 - i]));
    }
    assert forall|i: int| 0 <= i < back.len() - 1 implies #[trigger] walk_step(back, i) by {
        assert(walk_step(path, n - 2 - i));
    }
    assert(is_walk(m, back));
}

/// Two walks that meet make one.
pub proof fn lemma_connects_trans(m: TileMap, a: Position, b: Position, c: Position)
    requires
        connects(m, a, b),
        connects(m, b, c),
    ensures
        connects(m, a, c),
{
    let p = choose|path: Seq<Position>| #[trigger] is_walk(m, path) && path[0] == a && path.last() == b;
    let q = choose|path: Seq<Position>| #[trigger] is_walk(m, path) && path[0] == b && path.last() == c;
    let rest = q.subrange(1, q.len() as int);
    let joined = p + rest;
    assert forall|i: int| 0 <= i < joined.len() implies m.walkable_at(#[trigger] joined[i]) by {
        if i < p.len() {
            assert(m.walkable_at(p[i]));
        } else {
            assert(m.walkable_at(q[i - p.len() + 1]));
        }
    }
    assert forall|i: int| 0 <= i < joined.len() - 1 implies #[trigger] walk_step(joined, i) by {
        if i < p.len() - 1 {
            assert(walk_step(p, i));
        } else if i == p.len() - 1 {
            assert(walk_step(q, 0));
        } else {
            assert(walk_step(q, i - p.len() + 1));
        }
    }
    assert(is_walk(m, joined));
    if q.len() == 1 {
        assert(joined.last() == p.last());
    } else {
        assert(joined.last() == q.last());
    }
}

/// A walk stays a walk on a map where no walkable tile was closed.
pub proof fn lemma_connects_keep(m1: TileMap, m2: TileMap, a: Position, b: Position)
    requires
        connects(m1, a, b),
        keeps_walkable(m1, m2),
    ensures
        connects(m2, a, b),
{
    let p = choose|path: Seq<Position>| #[trigger] is_walk(m1, path) && path[0] == a && path.last() == b;
    assert forall|i: int| 0 <= i < p.len() implies m2.walkable_at(#[trigger] p[i]) by {
        assert(m1.walkable_at(p[i]));
    }
    assert(is_walk(m2, p));
}

/// The sign of `v`.
pub open spec fn sign(v: int) -> int {
    if v < 0 {
        -1
    } else if v > 0 {
        1
    } else {
        0
    }
}

pub open spec fn abs(v: int) -> int {
    if v < 0 {
        -v
    } else {
        v
    }
}

/// The tiles of an L-shaped corridor in walking order: along the row of
/// `from` to the column of `to`, then along that column to `to`.
pub open spec fn corridor_walk(from: Position, to: Position) -> Seq<Position> {
    let ax = abs(to.x - from.x);
    let ay = abs(to.y - from.y);
    let sx = sign(to.x - from.x);
    let sy = sign(to.y - from.y);
    Seq::new(
        (ax + ay + 1) as nat,
        |i: int|
            if i <= ax {
                Position { x: (from.x + sx * i) as i32, y: from.y }
            } else {
                Position { x: to.x, y: (from.y + sy * (i - ax)) as i32 }
            },
    )
}

/// A carved corridor joins its two ends, once the far end is walkable.
pub proof fn lemma_corridor_connects(m: TileMap, from: Position, to: Position)
    requires
        m.spec_contains(from),
        m.spec_contains(to),
        m.walkable_at(to),
        forall|p: Position| #[trigger] m.spec_contains(p) && on_corridor(from, to, p) ==> m.walkable_at(p),
    ensures
        connects(m, from, to),
{
    let ax = abs(to.x - from.x);
    let ay = abs(to.y - from.y);
    let sx = sign(to.x - from.x);
    let sy = sign(to.y - from.y);
    let path = corridor_walk(from, to);
    let n = ax + ay + 1;
    assert forall|i: int| 0 <= i < path.len() implies m.walkable_at(#[trigger] path[i]) by {
        let p = path[i];
        if i <= ax {
            assert(sx * i == if sx < 0 { -i } else if sx > 0 { i } else { 0 }) by (nonlinear_arith)
                requires
                    sx == -1 || sx == 0 || sx == 1,
            ;
            assert(p.x == from.x + sx * i);
            assert(p.y == from.y);
        } else {
            assert(sy * (i - ax) == if sy < 0 { -(i - ax) } else if sy > 0 { i - ax } else { 0 }) by (
            nonlinear_arith)
                requires
                    sy == -1 || sy == 0 || sy == 1,
            ;
            assert(p.x == to.x);
            assert(p.y == from.y + sy * (i - ax));
        }
        if i == n - 1 {
            assert(p == to);
        } else {
            assert(m.spec_contains(p));
            assert(on_corridor(from, to, p));
        }
    }
    assert forall|i: int| 0 <= i < path.len() - 1 implies #[trigger] walk_step(path, i) by {
        assert(sx * i == if sx < 0 { -i } else if sx > 0 { i } else { 0 }) by (nonlinear_arith)
            requires
                sx == -1 || sx == 0 || sx == 1,
        ;
        assert(sx * (i + 1) == if sx < 0 { -(i + 1) } else if sx > 0 { i + 1 } else { 0 }) by (nonlinear_arith)
            requires
                sx == -1 || sx == 0 || sx == 1,
        ;
        assert(sy * (i - ax) == if sy < 0 { -(i - ax) } else if sy > 0 { i - ax } else { 0 }) by (
        nonlinear_arith)
            requires
                sy == -1 || sy == 0 || sy == 1,
        ;
        assert(sy * (i + 1 - ax) == if sy < 0 { -(i + 1 - ax) } else if sy > 0 { i + 1 - ax } else { 0 }) by (
        nonlinear_arith)
            requires
                sy == -1 || sy == 0 || sy == 1,
        ;
    }
    assert(path[0] == from);
    assert(path.last() == to);
    assert(is_walk(m, path));
}

/// Writing a walkable tile closes nothing.
pub proof fn lemma_set_tile_keeps(before: TileMap, after: TileMap, pos: Position, tile: TileType)
    requires
        before.wf(),
        tile != TileType::Wall,
        after.spec_width() == before.spec_width(),
        after.spec_height() == before.spec_height(),
        before.spec_contains(pos) ==> after.tile_seq() == before.tile_seq().update(
            grid_index(before.spec_width(), pos),
            tile,
        ),
        !before.spec_contains(pos) ==> after.tile_seq() == before.tile_seq(),
    ensures
        keeps_walkable(before, after),
        before.spec_contains(pos) ==> after.walkable_at(pos),
{
    assert forall|p: Position| #[trigger] before.walkable_at(p) implies after.walkable_at(p) by {
        if before.spec_contains(pos) {
            lemma_set_tile_reads(before, after, pos, tile, p);
        }
    }
    if before.spec_contains(pos) {
        lemma_set_tile_reads(before, after, pos, tile, pos);
    }
}

/// Carving a corridor closes nothing, and joins its two ends once the far
/// end is walkable.
pub proof fn lemma_corridor_joins(m0: TileMap, m1: TileMap, from: Position, to: Position)
    requires
        m1.spec_width() == m0.spec_width(),
        m1.spec_height() == m0.spec_height(),
        m0.spec_contains(from),
        m0.walkable_at(to),
        forall|p: Position| #[trigger] m1.spec_contains(p) ==> m1.tile_at(p) == (if on_corridor(from, to, p) {
            TileType::Floor
        } else {
            m0.tile_at(p)
        }),
    ensures
        keeps_walkable(m0, m1),
        connects(m1, from, to),
{
    assert forall|p: Position| #[trigger] m0.walkable_at(p) implies m1.walkable_at(p) by {
        assert(m1.spec_contains(p));
    }
    assert(m1.walkable_at(to));
    assert forall|p: Position| #[trigger] m1.spec_contains(p) && on_corridor(from, to, p) implies m1.walkable_at(p) by {
    }
    lemma_corridor_connects(m1, from, to);
}

/// `path` moves one orthogonal step at a time over tiles of `m` that are
/// walkable or listed in `gates`: tiles that open in time, such as shifting
/// walls.
pub open spec fn is_walk_past(m: TileMap, gates: Seq<Position>, path: Seq<Position>) -> bool {
    &&& path.len() >= 1
    &&& forall|i: int| 0 <= i < path.len() ==> m.walkable_at(#[trigger] path[i]) || gates.contains(path[i])
    &&& forall|i: int| 0 <= i < path.len() - 1 ==> #[trigger] walk_step(path, i)
}

/// Some walk on `m`, allowed through the `gates`, leads from `a` to `b`.
pub open spec fn connects_past(m: TileMap, gates: Seq<Position>, a: Position, b: Position) -> bool {
    exists|path: Seq<Position>| #[trigger] is_walk_past(m, gates, path) && path[0] == a && path.last() == b
}

/// A walk on `m0` is a walk through the gates of `m`, when every tile
/// walkable on `m0` is walkable on `m` or a gate.
pub proof fn lemma_connects_past(m0: TileMap, m: TileMap, gates: Seq<Position>, a: Position, b: Position)
    requires
        connects(m0, a, b),
        forall|p: Position| #[trigger] m0.walkable_at(p) ==> m.walkable_at(p) || gates.contains(p),
    ensures
        connects_past(m, gates, a, b),
{
    let path = choose|path: Seq<Position>| #[trigger] is_walk(m0, path) && path[0] == a && path.last() == b;
    assert forall|i: int| 0 <= i < path.len() implies m.walkable_at(#[trigger] path[i]) || gates.contains(path[i]) by {
        assert(m0.walkable_at(path[i]));
    }
    assert(is_walk_past(m, gates, path));
}

} // verus!
