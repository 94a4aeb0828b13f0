//! The dungeon map: terrain, walkability, the BFS distance field enemies use
//! to chase the player, the flashlight ray caster and level generation.

use vstd::prelude::*;

use std::collections::VecDeque;

use crate::entity::Position;

verus! {

pub const MAP_WIDTH: i32 = 55;

pub const MAP_HEIGHT: i32 = 33;

pub const FLASHLIGHT_RADIUS: i32 = 12;

/// Marker of a tile that the distance field cannot reach.
pub const UNREACHED: i32 = 2147483647;

#[derive(Clone, Copy, Debug, PartialEq, Eq, Hash, Structural)]
pub enum TileType {
    Floor,
    Wall,
    StairsDown,
    StairsUp,
    Fire,
    Lamp,
    PressurePlate,
}

/// A rectangular grid of tiles with a cached distance field.
#[derive(Clone, Debug)]
pub struct TileMap {
    pub width: i32,
    pub height: i32,
    tiles: Vec<TileType>,
    /// Distance field towards `dijkstra_target`, `UNREACHED` where no walkable
    /// path leads.
    dijkstra: Vec<i32>,
    dijkstra_target: Position,
}

/// Whether `p` lies inside a `w` by `h` grid.
pub open spec fn in_grid(w: int, h: int, p: Position) -> bool {
    0 <= p.x < w && 0 <= p.y < h
}

/// Row-major index of `p` in a grid of width `w`.
pub open spec fn grid_index(w: int, p: Position) -> int {
    p.y * w + p.x
}

/// The position of row-major index `i` in a grid of width `w`.
pub open spec fn grid_position(w: int, i: int) -> Position {
    Position { x: (i % w) as i32, y: (i / w) as i32 }
}

pub proof fn lemma_grid_index_bounds(w: int, h: int, p: Position)
    requires
        in_grid(w, h, p),
    ensures
        0 <= grid_index(w, p) < w * h,
{
    assert(0 <= p.y * w + p.x < w * h) by (nonlinear_arith)
        requires
            0 <= p.x < w,
            0 <= p.y < h,
    ;
}

pub proof fn lemma_grid_index_injective(w: int, p: Position, q: Position)
    requires
        0 <= p.x < w,
        0 <= q.x < w,
        p != q,
    ensures
        grid_index(w, p) != grid_index(w, q),
{
    if p.y == q.y {
        assert(p.x != q.x);
    } else if p.y < q.y {
        assert(p.y * w + w <= q.y * w) by (nonlinear_arith)
            requires
                p.y < q.y,
                0 < w,
        ;
    } else {
        assert(q.y * w + w <= p.y * w) by (nonlinear_arith)
            requires
                q.y < p.y,
                0 < w,
        ;
    }
}

pub proof fn lemma_grid_position_roundtrip(w: int, h: int, i: int)
    requires
        0 < w,
        0 <= h,
        0 <= i < w * h,
        w * h <= i32::MAX,
    ensures
        in_grid(w, h, grid_position(w, i)),
        grid_index(w, grid_position(w, i)) == i,
{
    let x = i % w;
    let y = i / w;
    assert(i == y * w + x && 0 <= x < w && 0 <= y < h) by (nonlinear_arith)
        requires
            0 < w,
            0 <= i < w * h,
            x == i % w,
            y == i / w,
    ;
}


/// The `k`-th orthogonal neighbour, in the order south, north, east, west.
pub open spec fn neighbor(p: Position, k: int) -> Position {
    if k == 0 {
        Position { x: p.x, y: (p.y + 1) as i32 }
    } else if k == 1 {
        Position { x: p.x, y: (p.y - 1) as i32 }
    } else if k == 2 {
        Position { x: (p.x + 1) as i32, y: p.y }
    } else {
        Position { x: (p.x - 1) as i32, y: p.y }
    }
}

/// The entry of a row-major field at a position.
pub open spec fn field_at(m: TileMap, f: Seq<i32>, p: Position) -> int {
    f[grid_index(m.spec_width(), p)] as int
}

/// Every walkable neighbour of `p` is at most one step farther than `p`.
pub open spec fn settled(m: TileMap, f: Seq<i32>, p: Position) -> bool {
    &&& (m.walkable_at(neighbor(p, 0)) ==> field_at(m, f, neighbor(p, 0)) <= field_at(m, f, p) + 1)
    &&& (m.walkable_at(neighbor(p, 1)) ==> field_at(m, f, neighbor(p, 1)) <= field_at(m, f, p) + 1)
    &&& (m.walkable_at(neighbor(p, 2)) ==> field_at(m, f, neighbor(p, 2)) <= field_at(m, f, p) + 1)
    &&& (m.walkable_at(neighbor(p, 3)) ==> field_at(m, f, neighbor(p, 3)) <= field_at(m, f, p) + 1)
}

/// Some in-bounds neighbour of `p` has an entry of at most `bound`.
pub open spec fn has_neighbor_within(m: TileMap, f: Seq<i32>, p: Position, bound: int) -> bool {
    ||| (m.spec_contains(neighbor(p, 0)) && field_at(m, f, neighbor(p, 0)) <= bound)
    ||| (m.spec_contains(neighbor(p, 1)) && field_at(m, f, neighbor(p, 1)) <= bound)
    ||| (m.spec_contains(neighbor(p, 2)) && field_at(m, f, neighbor(p, 2)) <= bound)
    ||| (m.spec_contains(neighbor(p, 3)) && field_at(m, f, neighbor(p, 3)) <= bound)
}

/// The entry of one cell of a breadth-first distance field towards `t`:
/// `UNREACHED` or a non-negative step count; zero at the target; every other
/// reached cell is walkable and one step past a neighbour; and no walkable
/// neighbour of a reached cell is more than one step farther.
pub open spec fn distance_cell(m: TileMap, t: Position, f: Seq<i32>, p: Position) -> bool {
    let v = field_at(m, f, p);
    &&& (v == UNREACHED || 0 <= v)
    &&& (p == t ==> v == 0)
    &&& (!m.spec_contains(t) ==> v == UNREACHED)
    &&& (p != t && v != UNREACHED ==> m.walkable_at(p) && has_neighbor_within(m, f, p, v - 1))
    &&& (v != UNREACHED ==> settled(m, f, p))
}

/// `f` is the breadth-first distance field of map `m` towards `t`: for every
/// cell, the number of orthogonal steps over walkable tiles from `t`, or
/// `UNREACHED` when no such path exists.
pub open spec fn is_distance_field(m: TileMap, t: Position, f: Seq<i32>) -> bool {
    &&& f.len() == m.spec_width() * m.spec_height()
    &&& forall|p: Position| #[trigger] m.spec_contains(p) ==> distance_cell(m, t, f, p)
}

/// Number of reached (not `UNREACHED`) entries.
pub open spec fn reached_count(f: Seq<i32>) -> nat
    decreases f.len(),
{
    if f.len() == 0 {
        0
    } else {
        reached_count(f.drop_last()) + if f.last() == UNREACHED {
            0nat
        } else {
            1nat
        }
    }
}

/// Sum of all entries.
pub open spec fn field_sum(f: Seq<i32>) -> int
    decreases f.len(),
{
    if f.len() == 0 {
        0
    } else {
        field_sum(f.drop_last()) + f.last()
    }
}

pub proof fn lemma_reached_count_bound(f: Seq<i32>)
    ensures
        reached_count(f) <= f.len(),
    decreases f.len(),
{
    if f.len() > 0 {
        lemma_reached_count_bound(f.drop_last());
    }
}

pub proof fn lemma_field_update(f: Seq<i32>, i: int, v: i32)
    requires
        0 <= i < f.len(),
    ensures
        field_sum(f.update(i, v)) == field_sum(f) - f[i] + v,
        reached_count(f.update(i, v)) == reached_count(f) - (if f[i] == UNREACHED {
            0int
        } else {
            1int
        }) + (if v == UNREACHED {
            0int
        } else {
            1int
        }),
    decreases f.len(),
{
    if i == f.len() - 1 {
        assert(f.update(i, v).drop_last() =~= f.drop_last());
    } else {
        assert(f.update(i, v).drop_last() =~= f.drop_last().update(i, v));
        lemma_field_update(f.drop_last(), i, v);
    }
}

pub proof fn lemma_field_sum_lower(f: Seq<i32>)
    requires
        forall|i: int| 0 <= i < f.len() ==> 0 <= #[trigger] f[i],
    ensures
        0 <= field_sum(f),
    decreases f.len(),
{
    if f.len() > 0 {
        lemma_field_sum_lower(f.drop_last());
    }
}

pub proof fn lemma_all_unreached_count(f: Seq<i32>)
    requires
        forall|i: int| 0 <= i < f.len() ==> #[trigger] f[i] == UNREACHED,
    ensures
        reached_count(f) == 0,
    decreases f.len(),
{
    if f.len() > 0 {
        lemma_all_unreached_count(f.drop_last());
    }
}

pub proof fn lemma_unreached_entry_count(f: Seq<i32>, i: int)
    requires
        0 <= i < f.len(),
        f[i] == UNREACHED,
    ensures
        reached_count(f) < f.len(),
    decreases f.len(),
{
    if i == f.len() - 1 {
        lemma_reached_count_bound(f.drop_last());
    } else {
        lemma_unreached_entry_count(f.drop_last(), i);
    }
}

/// The breadth-first search state: every reached cell other than `pending`
/// that is not queued is already settled.
pub open spec fn bfs_cell(m: TileMap, t: Position, f: Seq<i32>, q: Seq<Position>, pending: Position, p: Position) -> bool {
    let v = field_at(m, f, p);
    &&& (v == UNREACHED || 0 <= v < reached_count(f))
    &&& (p != t && v != UNREACHED ==> m.walkable_at(p) && has_neighbor_within(m, f, p, v - 1))
    &&& (v != UNREACHED && p != pending && !q.contains(p) ==> settled(m, f, p))
}

pub open spec fn bfs_state(m: TileMap, t: Position, f: Seq<i32>, q: Seq<Position>, pending: Position) -> bool {
    &&& f.len() == m.spec_width() * m.spec_height()
    &&& m.spec_contains(t)
    &&& field_at(m, f, t) == 0
    &&& (forall|i: int| 0 <= i < f.len() ==> 0 <= #[trigger] f[i])
    &&& (forall|k: int| 0 <= k < q.len() ==> m.spec_contains(#[trigger] q[k]) && field_at(m, f, q[k]) != UNREACHED)
    &&& forall|p: Position| #[trigger] m.spec_contains(p) ==> bfs_cell(m, t, f, q, pending, p)
}

pub proof fn lemma_neighbor_back(p: Position, k: int)
    requires
        0 <= k < 4,
        i32::MIN < p.x < i32::MAX,
        i32::MIN < p.y < i32::MAX,
    ensures
        neighbor(neighbor(p, k), if k == 0 {
            1int
        } else if k == 1 {
            0int
        } else if k == 2 {
            3int
        } else {
            2int
        }) == p,
{
}

/// A position that no grid contains.
pub open spec fn outside() -> Position {
    Position { x: -1i32, y: -1i32 }
}

pub proof fn lemma_relax_step(m0: TileMap, m1: TileMap, q0: Seq<Position>, q1: Seq<Position>, pos: Position, k: int, dist: i32)
    requires
        m0.wf(),
        0 <= k < 4,
        m0.spec_contains(pos),
        m0.walkable_at(neighbor(pos, k)),
        bfs_state(m0, m0.distance_target(), m0.distance_seq(), q0, pos),
        dist == field_at(m0, m0.distance_seq(), pos) + 1,
        dist < field_at(m0, m0.distance_seq(), neighbor(pos, k)),
        dist != UNREACHED,
        0 < dist,
        dist < reached_count(m1.distance_seq()),
        reached_count(m0.distance_seq()) <= reached_count(m1.distance_seq()),
        m1.spec_width() == m0.spec_width(),
        m1.spec_height() == m0.spec_height(),
        m1.tile_seq() == m0.tile_seq(),
        m1.distance_target() == m0.distance_target(),
        m1.distance_seq() == m0.distance_seq().update(grid_index(m0.spec_width(), neighbor(pos, k)), dist),
        q1 == q0.push(neighbor(pos, k)),
    ensures
        bfs_state(m1, m1.distance_target(), m1.distance_seq(), q1, pos),
        forall|p: Position| #[trigger] m0.spec_contains(p) ==> field_at(m1, m1.distance_seq(), p) <= field_at(m0, m0.distance_seq(), p)
            && (p != neighbor(pos, k) ==> field_at(m1, m1.distance_seq(), p) == field_at(m0, m0.distance_seq(), p)),
        field_at(m1, m1.distance_seq(), neighbor(pos, k)) == dist,
{
    let t = m0.distance_target();
    let f0 = m0.distance_seq();
    let f1 = m1.distance_seq();
    let nb = neighbor(pos, k);
    let w = m0.spec_width();
    let h = m0.spec_height();
    lemma_grid_index_bounds(w, h, nb);
    assert forall|p: Position| #[trigger] m0.spec_contains(p) implies field_at(m1, f1, p) <= field_at(m0, f0, p)
        && (p != nb ==> field_at(m1, f1, p) == field_at(m0, f0, p)) by {
        lemma_grid_index_bounds(w, h, p);
        if p != nb {
            lemma_grid_index_injective(w, p, nb);
        }
    }
    lemma_neighbor_back(pos, k);
    assert(q1.contains(nb)) by {
        assert(q1[q1.len() - 1] == nb);
    }
    assert forall|p: Position| #[trigger] m1.spec_contains(p) implies bfs_cell(m1, t, f1, q1, pos, p) by {
        assert(m0.spec_contains(p));
        lemma_relax_cell(m0, m1, q0, q1, pos, k, dist, p);
    }
    assert forall|i: int| 0 <= i < f1.len() implies 0 <= #[trigger] f1[i] by {
        assert(0 <= f0[i]);
    }
    assert forall|j: int| 0 <= j < q1.len() implies m1.spec_contains(#[trigger] q1[j])
        && field_at(m1, f1, q1[j]) != UNREACHED by {
        if j < q0.len() {
            assert(q1[j] == q0[j]);
            assert(m0.spec_contains(q0[j]));
        }
    }
}

proof fn lemma_relax_cell(m0: TileMap, m1: TileMap, q0: Seq<Position>, q1: Seq<Position>, pos: Position, k: int, dist: i32, p: Position)
    requires
        m0.spec_contains(p),
        0 <= k < 4,
        m0.walkable_at(neighbor(pos, k)),
        bfs_cell(m0, m0.distance_target(), m0.distance_seq(), q0, pos, p),
        dist == field_at(m0, m0.distance_seq(), pos) + 1,
        dist != UNREACHED,
        0 < dist,
        dist < reached_count(m1.distance_seq()),
        reached_count(m0.distance_seq()) <= reached_count(m1.distance_seq()),
        m1.spec_width() == m0.spec_width(),
        m1.spec_height() == m0.spec_height(),
        m1.tile_seq() == m0.tile_seq(),
        m1.distance_target() == m0.distance_target(),
        m1.distance_target() != neighbor(pos, k),
        neighbor(neighbor(pos, k), if k == 0 {
            1int
        } else if k == 1 {
            0int
        } else if k == 2 {
            3int
        } else {
            2int
        }) == pos,
        m0.spec_contains(pos),
        q1 == q0.push(neighbor(pos, k)),
        q1.contains(neighbor(pos, k)),
        field_at(m1, m1.distance_seq(), neighbor(pos, k)) == dist,
        forall|r: Position| #[trigger] m0.spec_contains(r) ==> field_at(m1, m1.distance_seq(), r) <= field_at(m0, m0.distance_seq(), r)
            && (r != neighbor(pos, k) ==> field_at(m1, m1.distance_seq(), r) == field_at(m0, m0.distance_seq(), r)),
    ensures
        bfs_cell(m1, m1.distance_target(), m1.distance_seq(), q1, pos, p),
{
    let t = m0.distance_target();
    let f0 = m0.distance_seq();
    let f1 = m1.distance_seq();
    let nb = neighbor(pos, k);
    if field_at(m1, f1, p) != UNREACHED && p != pos && !q1.contains(p) {
        assert(!q0.contains(p)) by {
            if q0.contains(p) {
                let j = choose|j: int| 0 <= j < q0.len() && q0[j] == p;
                assert(q1[j] == p);
            }
        }
        assert(p != nb);
        assert(settled(m0, f0, p));
        assert(m0.spec_contains(neighbor(p, 0)) ==> field_at(m1, f1, neighbor(p, 0)) <= field_at(m0, f0, neighbor(p, 0)));
        assert(m0.spec_contains(neighbor(p, 1)) ==> field_at(m1, f1, neighbor(p, 1)) <= field_at(m0, f0, neighbor(p, 1)));
        assert(m0.spec_contains(neighbor(p, 2)) ==> field_at(m1, f1, neighbor(p, 2)) <= field_at(m0, f0, neighbor(p, 2)));
        assert(m0.spec_contains(neighbor(p, 3)) ==> field_at(m1, f1, neighbor(p, 3)) <= field_at(m0, f0, neighbor(p, 3)));
    }
    if p != t && field_at(m1, f1, p) != UNREACHED {
        if p != nb {
            assert(has_neighbor_within(m0, f0, p, field_at(m0, f0, p) - 1));
            assert(m0.spec_contains(neighbor(p, 0)) ==> field_at(m1, f1, neighbor(p, 0)) <= field_at(m0, f0, neighbor(p, 0)));
            assert(m0.spec_contains(neighbor(p, 1)) ==> field_at(m1, f1, neighbor(p, 1)) <= field_at(m0, f0, neighbor(p, 1)));
            assert(m0.spec_contains(neighbor(p, 2)) ==> field_at(m1, f1, neighbor(p, 2)) <= field_at(m0, f0, neighbor(p, 2)));
            assert(m0.spec_contains(neighbor(p, 3)) ==> field_at(m1, f1, neighbor(p, 3)) <= field_at(m0, f0, neighbor(p, 3)));
        } else {
            assert(field_at(m1, f1, pos) == field_at(m0, f0, pos));
            assert(m1.walkable_at(nb));
            if k == 0 {
                assert(neighbor(nb, 1) == pos);
            } else if k == 1 {
                assert(neighbor(nb, 0) == pos);
            } else if k == 2 {
                assert(neighbor(nb, 3) == pos);
            } else {
                assert(neighbor(nb, 2) == pos);
            }
            assert(has_neighbor_within(m1, f1, p, field_at(m1, f1, p) - 1));
        }
    }
    let v1 = field_at(m1, f1, p);
    if p == nb {
        assert(v1 == UNREACHED || 0 <= v1 < reached_count(f1));
    } else {
        assert(field_at(m1, f1, p) == field_at(m0, f0, p));
        let v0 = field_at(m0, f0, p);
        assert(v0 == UNREACHED || 0 <= v0 < reached_count(f0));
        assert(v1 == UNREACHED || 0 <= v1 < reached_count(f1));
    }
}

pub proof fn lemma_bfs_start(m: TileMap, t: Position, q: Seq<Position>)
    requires
        m.wf(),
        m.spec_contains(t),
        q == seq![t],
        field_at(m, m.distance_seq(), t) == 0,
        reached_count(m.distance_seq()) == 1,
        forall|i: int| 0 <= i < m.distance_seq().len() && i != grid_index(m.spec_width(), t)
            ==> #[trigger] m.distance_seq()[i] == UNREACHED,
    ensures
        bfs_state(m, t, m.distance_seq(), q, outside()),
{
    let f = m.distance_seq();
    let w = m.spec_width();
    let h = m.spec_height();
    lemma_grid_index_bounds(w, h, t);
    assert forall|p: Position| #[trigger] m.spec_contains(p) implies bfs_cell(m, t, f, q, outside(), p) by {
        lemma_grid_index_bounds(w, h, p);
        if p != t {
            lemma_grid_index_injective(w, p, t);
        } else {
            assert(q[0] == t);
        }
    }
    assert forall|i: int| 0 <= i < f.len() implies 0 <= #[trigger] f[i] by {
    }
    assert forall|j: int| 0 <= j < q.len() implies m.spec_contains(#[trigger] q[j]) && field_at(m, f, q[j]) != UNREACHED by {
    }
}

pub proof fn lemma_bfs_pop(m: TileMap, t: Position, q0: Seq<Position>, q1: Seq<Position>)
    requires
        bfs_state(m, t, m.distance_seq(), q0, outside()),
        q0.len() > 0,
        q1 == q0.subrange(1, q0.len() as int),
    ensures
        bfs_state(m, t, m.distance_seq(), q1, q0[0]),
        m.spec_contains(q0[0]),
        field_at(m, m.distance_seq(), q0[0]) != UNREACHED,
{
    let f = m.distance_seq();
    let pos = q0[0];
    assert forall|p: Position| #[trigger] m.spec_contains(p) implies bfs_cell(m, t, f, q1, pos, p) by {
        assert(bfs_cell(m, t, f, q0, outside(), p));
        if p != pos && !q1.contains(p) {
            assert(!q0.contains(p)) by {
                if q0.contains(p) {
                    let j = choose|j: int| 0 <= j < q0.len() && q0[j] == p;
                    assert(j != 0);
                    assert(q1[j - 1] == p);
                }
            }
        }
    }
    assert forall|j: int| 0 <= j < q1.len() implies m.spec_contains(#[trigger] q1[j]) && field_at(m, f, q1[j]) != UNREACHED by {
        assert(q1[j] == q0[j + 1]);
    }
}

pub proof fn lemma_bfs_settle(m: TileMap, t: Position, q: Seq<Position>, pos: Position)
    requires
        bfs_state(m, t, m.distance_seq(), q, pos),
        m.spec_contains(pos),
        settled(m, m.distance_seq(), pos),
    ensures
        bfs_state(m, t, m.distance_seq(), q, outside()),
{
    let f = m.distance_seq();
    assert forall|p: Position| #[trigger] m.spec_contains(p) implies bfs_cell(m, t, f, q, outside(), p) by {
        assert(bfs_cell(m, t, f, q, pos, p));
    }
}

pub proof fn lemma_bfs_complete(m: TileMap, t: Position, q: Seq<Position>)
    requires
        bfs_state(m, t, m.distance_seq(), q, outside()),
        q.len() == 0,
    ensures
        is_distance_field(m, t, m.distance_seq()),
{
    let f = m.distance_seq();
    assert forall|p: Position| #[trigger] m.spec_contains(p) implies distance_cell(m, t, f, p) by {
        assert(bfs_cell(m, t, f, q, outside(), p));
        assert(!q.contains(p));
    }
}

/// The border of the prototype arena.
pub open spec fn outer_wall(p: Position) -> bool {
    p.y == 0 || p.y == MAP_HEIGHT - 1 || p.x == 0 || p.x == MAP_WIDTH - 1
}

/// The long wall at row 8, open at columns 23 and 24.
pub open spec fn upper_wall(p: Position) -> bool {
    p.y == 8 && 8 <= p.x < 44 && p.x != 23 && p.x != 24
}

/// The wall at column 31, open at row 18.
pub open spec fn middle_wall(p: Position) -> bool {
    p.x == 31 && 13 <= p.y < 25 && p.y != 18
}

/// The wall at row 21, open at column 42.
pub open spec fn lower_wall(p: Position) -> bool {
    p.y == 21 && 34 <= p.x < 50 && p.x != 42
}

/// The tile of the prototype arena at an in-bounds position.
pub open spec fn static_arena_tile(p: Position) -> TileType {
    if outer_wall(p) || upper_wall(p) || middle_wall(p) || lower_wall(p) {
        TileType::Wall
    } else {
        TileType::Floor
    }
}

/// Whether `v` lies on the half-open run that starts at `a` and heads
/// towards `b` (excluding `b`).
pub open spec fn on_run(a: int, b: int, v: int) -> bool {
    if a <= b {
        a <= v < b
    } else {
        b < v <= a
    }
}

/// The cells an L-shaped corridor carves: along the row of `from` up to (not
/// including) the column of `to`, then along the column of `to` up to (not
/// including) the row of `to`.
pub open spec fn on_corridor(from: Position, to: Position, p: Position) -> bool {
    ||| (p.y == from.y && on_run(from.x as int, to.x as int, p.x as int))
    ||| (p.x == to.x && on_run(from.y as int, to.y as int, p.y as int))
}

/// 1 when `p` is outside the map or a wall, else 0.
pub open spec fn blocked_count(m: TileMap, p: Position) -> int {
    if !m.spec_contains(p) || m.tile_at(p) == TileType::Wall {
        1
    } else {
        0
    }
}

/// Number of the eight surrounding cells of `(x, y)` that are walls or
/// outside the map.
pub open spec fn wall_neighbor_count(m: TileMap, x: int, y: int) -> int {
    blocked_count(m, Position { x: (x - 1) as i32, y: (y - 1) as i32 }) + blocked_count(
        m,
        Position { x: x as i32, y: (y - 1) as i32 },
    ) + blocked_count(m, Position { x: (x + 1) as i32, y: (y - 1) as i32 }) + blocked_count(
        m,
        Position { x: (x - 1) as i32, y: y as i32 },
    ) + blocked_count(m, Position { x: (x + 1) as i32, y: y as i32 }) + blocked_count(
        m,
        Position { x: (x - 1) as i32, y: (y + 1) as i32 },
    ) + blocked_count(m, Position { x: x as i32, y: (y + 1) as i32 }) + blocked_count(
        m,
        Position { x: (x + 1) as i32, y: (y + 1) as i32 },
    )
}

/// A rectangular room of the generator.
pub struct Room {
    pub x: i32,
    pub y: i32,
    pub w: i32,
    pub h: i32,
    pub kind: RoomType,
}

/// The role a generated room plays.
#[derive(Clone, Copy, Debug, PartialEq, Eq, Structural)]
pub enum RoomType {
    Entrance,
    Exit,
    Combat,
    Treasure,
    Boss,
}

/// Whether `p` lies inside the rectangle of a room.
pub open spec fn in_room(r: Room, p: Position) -> bool {
    r.x <= p.x < r.x + r.w && r.y <= p.y < r.y + r.h
}

/// Whether two rooms come closer than one tile to each other.
pub open spec fn rooms_overlap(a: Room, b: Room) -> bool {
    &&& a.x - 1 < b.x + b.w
    &&& a.x + a.w + 1 > b.x
    &&& a.y - 1 < b.y + b.h
    &&& a.y + a.h + 1 > b.y
}

/// Coordinates of a room that keep all room arithmetic in range.
pub open spec fn room_in_range(r: Room) -> bool {
    &&& i32::MIN < r.x
    &&& i32::MIN < r.y
    &&& 0 <= r.w
    &&& 0 <= r.h
    &&& r.x + r.w < i32::MAX
    &&& r.y + r.h < i32::MAX
}

impl Room {
    /// The middle tile of the room (rounded towards the top-left).
    pub fn center(&self) -> (c: Position)
        requires
            room_in_range(*self),
        ensures
            c.x == self.x + self.w / 2,
            c.y == self.y + self.h / 2,
    {
        Position::new(self.x + self.w / 2, self.y + self.h / 2)
    }

    /// Whether the rooms touch or overlap, counting a one-tile margin.
    pub fn overlaps(&self, other: &Room) -> (b: bool)
        requires
            room_in_range(*self),
            room_in_range(*other),
        ensures
            b == rooms_overlap(*self, *other),
    {
        self.x - 1 < other.x + other.w && self.x + self.w + 1 > other.x && self.y - 1 < other.y + other.h
            && self.y + self.h + 1 > other.y
    }
}

pub open spec fn abs_diff(a: int, b: int) -> int {
    if a <= b {
        b - a
    } else {
        a - b
    }
}

/// The wall count of the full rows `y - 1 ..< y + dy` around `(x, y)`.
pub open spec fn partial_wall_count(m: TileMap, x: int, y: int, dy: int) -> int {
    (if dy > -1 {
        row_wall_count(m, x, y - 1, 2, false)
    } else {
        0
    }) + (if dy > 0 {
        row_wall_count(m, x, y, 2, true)
    } else {
        0
    }) + (if dy > 1 {
        row_wall_count(m, x, y + 1, 2, false)
    } else {
        0
    })
}

/// The wall count of the cells `x - 1 ..< x + dx` of row `y`, skipping the
/// middle cell when `skip_middle`.
pub open spec fn row_wall_count(m: TileMap, x: int, y: int, dx: int, skip_middle: bool) -> int {
    (if dx > -1 {
        blocked_count(m, Position { x: (x - 1) as i32, y: y as i32 })
    } else {
        0
    }) + (if dx > 0 && !skip_middle {
        blocked_count(m, Position { x: x as i32, y: y as i32 })
    } else {
        0
    }) + (if dx > 1 {
        blocked_count(m, Position { x: (x + 1) as i32, y: y as i32 })
    } else {
        0
    })
}

/// Whether `p` comes before `q` in row-major order.
pub open spec fn row_major_before(p: Position, q: Position) -> bool {
    p.y < q.y || (p.y == q.y && p.x < q.x)
}

/// What a level generator produces: the map and where things go on it.
pub struct MapGenOutput {
    pub map: TileMap,
    pub player_start: Position,
    pub stairs_up: Position,
    pub stairs_down: Position,
    pub combat_spawns: Vec<Position>,
    pub boss_spawns: Vec<Position>,
}

/// The first stairs-down tile in row-major order, or `(2, 2)` when the map
/// has none.
pub fn find_stairs_down(map: &TileMap) -> (pos: Position)
    requires
        map.wf(),
    ensures
        (exists|q: Position| #[trigger] map.spec_contains(q) && map.tile_at(q) == TileType::StairsDown) ==> {
            &&& map.spec_contains(pos)
            &&& map.tile_at(pos) == TileType::StairsDown
            &&& forall|q: Position| #[trigger] map.spec_contains(q) && row_major_before(q, pos) ==> map.tile_at(q)
                != TileType::StairsDown
        },
        !(exists|q: Position| #[trigger] map.spec_contains(q) && map.tile_at(q) == TileType::StairsDown) ==> pos
            == (Position { x: 2i32, y: 2i32 }),
{
    let height = map.height();
    let width = map.width();
    let mut y: i32 = 0;
    while y < height
        invariant
            map.wf(),
            height == map.spec_height(),
            width == map.spec_width(),
            0 <= y <= height,
            forall|q: Position| #[trigger] map.spec_contains(q) && q.y < y ==> map.tile_at(q) != TileType::StairsDown,
        decreases height - y,
    {
        let mut x: i32 = 0;
        while x < width
            invariant
                map.wf(),
                height == map.spec_height(),
                width == map.spec_width(),
                0 <= y < height,
                0 <= x <= width,
                forall|q: Position| #[trigger] map.spec_contains(q) && (q.y < y || (q.y == y && q.x < x))
                    ==> map.tile_at(q) != TileType::StairsDown,
            decreases width - x,
        {
            let pos = Position::new(x, y);
            if map.tile(pos) == TileType::StairsDown {
                assert(map.spec_contains(pos) && map.tile_at(pos) == TileType::StairsDown);
                return pos;
            }
            x = x + 1;
        }
        y = y + 1;
    }
    Position::new(2, 2)
}

impl TileMap {
    /// The internal consistency of a map: both layers cover the whole grid.
    pub closed spec fn wf(&self) -> bool {
        &&& 0 <= self.width
        &&& 0 <= self.height
        &&& self.width * self.height <= i32::MAX
        &&& self.tiles@.len() == self.width * self.height
        &&& self.dijkstra@.len() == self.width * self.height
    }

    /// Number of columns.
    pub closed spec fn spec_width(&self) -> int {
        self.width as int
    }

    /// Number of rows.
    pub closed spec fn spec_height(&self) -> int {
        self.height as int
    }

    /// The tiles in row-major order.
    pub closed spec fn tile_seq(&self) -> Seq<TileType> {
        self.tiles@
    }

    /// The cached distance field in row-major order.
    pub closed spec fn distance_seq(&self) -> Seq<i32> {
        self.dijkstra@
    }

    /// The target the cached distance field was computed for.
    pub closed spec fn distance_target(&self) -> Position {
        self.dijkstra_target
    }

    pub open spec fn spec_contains(&self, p: Position) -> bool {
        in_grid(self.spec_width(), self.spec_height(), p)
    }

    /// The tile at an in-bounds position.
    pub open spec fn tile_at(&self, p: Position) -> TileType {
        self.tile_seq()[grid_index(self.spec_width(), p)]
    }

    pub open spec fn walkable_at(&self, p: Position) -> bool {
        self.spec_contains(p) && self.tile_at(p) != TileType::Wall
    }

    /// The distance-field entry of an in-bounds position.
    pub open spec fn distance_at(&self, p: Position) -> i32 {
        self.distance_seq()[grid_index(self.spec_width(), p)]
    }

    pub proof fn lemma_wf_len(&self)
        requires
            self.wf(),
        ensures
            self.tile_seq().len() == self.spec_width() * self.spec_height(),
            self.distance_seq().len() == self.spec_width() * self.spec_height(),
            0 <= self.spec_width(),
            0 <= self.spec_height(),
            self.spec_width() * self.spec_height() <= i32::MAX,
    {
    }

    /// Create a map with every tile set to the given type.
    pub fn new_filled(width: i32, height: i32, tile: TileType) -> (m: TileMap)
        requires
            0 <= width,
            0 <= height,
            width * height <= i32::MAX,
        ensures
            m.wf(),
            m.spec_width() == width,
            m.spec_height() == height,
            forall|p: Position| #[trigger] m.spec_contains(p) ==> m.tile_at(p) == tile,
            m.tile_seq() =~= Seq::new((width * height) as nat, |i: int| tile),
            m.distance_seq() =~= Seq::new((width * height) as nat, |i: int| UNREACHED),
            forall|p: Position| #[trigger] m.spec_contains(p) ==> m.distance_at(p) == UNREACHED,
    {
        assert(0 <= width * height) by (nonlinear_arith)
            requires
                0 <= width,
                0 <= height,
        ;
        let size = (width * height) as usize;
        let tiles = vec![tile; size];
        let dijkstra = vec![UNREACHED; size];
        let m = TileMap { width, height, tiles, dijkstra, dijkstra_target: Position::new(-1, -1) };
        assert forall|p: Position| #[trigger] m.spec_contains(p) implies m.tile_at(p) == tile && m.distance_at(p)
            == UNREACHED by {
            lemma_grid_index_bounds(width as int, height as int, p);
        }
        m
    }

    /// The fixed prototype arena: a walled 55 by 33 room with three inner
    /// walls, each broken by a doorway.
    pub fn new_static() -> (m: TileMap)
        ensures
            m.wf(),
            m.spec_width() == MAP_WIDTH,
            m.spec_height() == MAP_HEIGHT,
            forall|p: Position| #[trigger] m.spec_contains(p) ==> m.tile_at(p) == static_arena_tile(p),
    {
        let mut map = TileMap::new_filled(MAP_WIDTH, MAP_HEIGHT, TileType::Floor);
        let ghost w = MAP_WIDTH as int;
        let mut x: i32 = 0;
        while x < MAP_WIDTH
            invariant
                map.wf(),
                map.spec_width() == MAP_WIDTH,
                map.spec_height() == MAP_HEIGHT,
                0 <= x <= MAP_WIDTH,
                forall|p: Position| #[trigger] map.spec_contains(p) ==> map.tile_at(p) == (if (p.y == 0 || p.y
                    == MAP_HEIGHT - 1) && p.x < x {
                    TileType::Wall
                } else {
                    TileType::Floor
                }),
            decreases MAP_WIDTH - x,
        {
            let ghost m0 = map;
            let top = Position::new(x, 0);
            map.set_tile(top, TileType::Wall);
            let ghost m1 = map;
            let bottom = Position::new(x, MAP_HEIGHT - 1);
            map.set_tile(bottom, TileType::Wall);
            proof {
                assert forall|p: Position| #[trigger] map.spec_contains(p) implies map.tile_at(p) == (if (p.y == 0
                    || p.y == MAP_HEIGHT - 1) && p.x < x + 1 {
                    TileType::Wall
                } else {
                    TileType::Floor
                }) by {
                    assert(m0.spec_contains(p));
                    lemma_set_tile_reads(m0, m1, top, TileType::Wall, p);
                    lemma_set_tile_reads(m1, map, bottom, TileType::Wall, p);
                }
            }
            x = x + 1;
        }
        let mut y: i32 = 0;
        while y < MAP_HEIGHT
            invariant
                map.wf(),
                map.spec_width() == MAP_WIDTH,
                map.spec_height() == MAP_HEIGHT,
                0 <= y <= MAP_HEIGHT,
                forall|p: Position| #[trigger] map.spec_contains(p) ==> map.tile_at(p) == (if p.y == 0 || p.y
                    == MAP_HEIGHT - 1 || ((p.x == 0 || p.x == MAP_WIDTH - 1) && p.y < y) {
                    TileType::Wall
                } else {
                    TileType::Floor
                }),
            decreases MAP_HEIGHT - y,
        {
            let ghost m0 = map;
            let left = Position::new(0, y);
            map.set_tile(left, TileType::Wall);
            let ghost m1 = map;
            let right = Position::new(MAP_WIDTH - 1, y);
            map.set_tile(right, TileType::Wall);
            proof {
                assert forall|p: Position| #[trigger] map.spec_contains(p) implies map.tile_at(p) == (if p.y == 0
                    || p.y == MAP_HEIGHT - 1 || ((p.x == 0 || p.x == MAP_WIDTH - 1) && p.y < y + 1) {
                    TileType::Wall
                } else {
                    TileType::Floor
                }) by {
                    assert(m0.spec_contains(p));
                    lemma_set_tile_reads(m0, m1, left, TileType::Wall, p);
                    lemma_set_tile_reads(m1, map, right, TileType::Wall, p);
                }
            }
            y = y + 1;
        }
        let mut x: i32 = 8;
        while x < 44
            invariant
                map.wf(),
                map.spec_width() == MAP_WIDTH,
                map.spec_height() == MAP_HEIGHT,
                8 <= x <= 44,
                forall|p: Position| #[trigger] map.spec_contains(p) ==> map.tile_at(p) == (if outer_wall(p) || (p.y
                    == 8 && 8 <= p.x < x && p.x != 23 && p.x != 24) {
                    TileType::Wall
                } else {
                    TileType::Floor
                }),
            decreases 44 - x,
        {
            if x != 23 && x != 24 {
                let ghost m0 = map;
                let cell = Position::new(x, 8);
            map.set_tile(cell, TileType::Wall);
                proof {
                    assert forall|p: Position| #[trigger] map.spec_contains(p) implies map.tile_at(p) == (if outer_wall(
                        p,
                    ) || (p.y == 8 && 8 <= p.x < x + 1 && p.x != 23 && p.x != 24) {
                        TileType::Wall
                    } else {
                        TileType::Floor
                    }) by {
                        assert(m0.spec_contains(p));
                        lemma_set_tile_reads(m0, map, cell, TileType::Wall, p);
                    }
                }
            }
            x = x + 1;
        }
        let mut y: i32 = 13;
        while y < 25
            invariant
                map.wf(),
                map.spec_width() == MAP_WIDTH,
                map.spec_height() == MAP_HEIGHT,
                13 <= y <= 25,
                forall|p: Position| #[trigger] map.spec_contains(p) ==> map.tile_at(p) == (if outer_wall(p)
                    || upper_wall(p) || (p.x == 31 && 13 <= p.y < y && p.y != 18) {
                    TileType::Wall
                } else {
                    TileType::Floor
                }),
            decreases 25 - y,
        {
            if y != 18 {
                let ghost m0 = map;
                let cell = Position::new(31, y);
            map.set_tile(cell, TileType::Wall);
                proof {
                    assert forall|p: Position| #[trigger] map.spec_contains(p) implies map.tile_at(p) == (if outer_wall(
                        p,
                    ) || upper_wall(p) || (p.x == 31 && 13 <= p.y < y + 1 && p.y != 18) {
                        TileType::Wall
                    } else {
                        TileType::Floor
                    }) by {
                        assert(m0.spec_contains(p));
                        lemma_set_tile_reads(m0, map, cell, TileType::Wall, p);
                    }
                }
            }
            y = y + 1;
        }
        let mut x: i32 = 34;
        while x < 50
            invariant
                map.wf(),
                map.spec_width() == MAP_WIDTH,
                map.spec_height() == MAP_HEIGHT,
                34 <= x <= 50,
                forall|p: Position| #[trigger] map.spec_contains(p) ==> map.tile_at(p) == (if outer_wall(p)
                    || upper_wall(p) || middle_wall(p) || (p.y == 21 && 34 <= p.x < x && p.x != 42) {
                    TileType::Wall
                } else {
                    TileType::Floor
                }),
            decreases 50 - x,
        {
            if x != 42 {
                let ghost m0 = map;
                let cell = Position::new(x, 21);
            map.set_tile(cell, TileType::Wall);
                proof {
                    assert forall|p: Position| #[trigger] map.spec_contains(p) implies map.tile_at(p) == (if outer_wall(
                        p,
                    ) || upper_wall(p) || middle_wall(p) || (p.y == 21 && 34 <= p.x < x + 1 && p.x != 42) {
                        TileType::Wall
                    } else {
                        TileType::Floor
                    }) by {
                        assert(m0.spec_contains(p));
                        lemma_set_tile_reads(m0, map, cell, TileType::Wall, p);
                    }
                }
            }
            x = x + 1;
        }
        map
    }

    /// Number of the eight surrounding cells that are walls or off the map.
    pub fn count_wall_neighbors(&self, x: i32, y: i32) -> (count: usize)
        requires
            self.wf(),
            i32::MIN < x < i32::MAX,
            i32::MIN < y < i32::MAX,
        ensures
            count == wall_neighbor_count(*self, x as int, y as int),
    {
        let mut count: usize = 0;
        let mut dy: i32 = -1;
        while dy <= 1
            invariant
                self.wf(),
                i32::MIN < x < i32::MAX,
                i32::MIN < y < i32::MAX,
                -1 <= dy <= 2,
                count == partial_wall_count(*self, x as int, y as int, dy as int),
            decreases 2 - dy,
        {
            let mut dx: i32 = -1;
            while dx <= 1
                invariant
                    self.wf(),
                    i32::MIN < x < i32::MAX,
                    i32::MIN < y < i32::MAX,
                    -1 <= dy <= 1,
                    -1 <= dx <= 2,
                    count == partial_wall_count(*self, x as int, y as int, dy as int) + row_wall_count(
                        *self,
                        x as int,
                        (y + dy) as int,
                        dx as int,
                        dy == 0,
                    ),
                decreases 2 - dx,
            {
                if dx == 0 && dy == 0 {
                    dx = dx + 1;
                    continue;
                }
                let pos = Position::new(x + dx, y + dy);
                if !self.contains(pos) || self.tile(pos) == TileType::Wall {
                    count = count + 1;
                }
                dx = dx + 1;
            }
            dy = dy + 1;
        }
        count
    }

    /// Fill the rectangle of a room with floor (clipped to the map).
    pub fn carve_room(&mut self, room: &Room)
        requires
            old(self).wf(),
            room_in_range(*room),
        ensures
            final(self).wf(),
            final(self).spec_width() == old(self).spec_width(),
            final(self).spec_height() == old(self).spec_height(),
            final(self).distance_seq() == old(self).distance_seq(),
            final(self).distance_target() == old(self).distance_target(),
            forall|p: Position| #[trigger] final(self).spec_contains(p) ==> final(self).tile_at(p) == (if in_room(
                *room,
                p,
            ) {
                TileType::Floor
            } else {
                old(self).tile_at(p)
            }),
    {
        let ghost m0 = *self;
        let mut y = room.y;
        while y < room.y + room.h
            invariant
                self.wf(),
                room_in_range(*room),
                room.y <= y <= room.y + room.h,
                self.spec_width() == m0.spec_width(),
                self.spec_height() == m0.spec_height(),
                self.distance_seq() == m0.distance_seq(),
                self.distance_target() == m0.distance_target(),
                forall|p: Position| #[trigger] self.spec_contains(p) ==> self.tile_at(p) == (if in_room(*room, p)
                    && p.y < y {
                    TileType::Floor
                } else {
                    m0.tile_at(p)
                }),
            decreases room.y + room.h - y,
        {
            let mut x = room.x;
            while x < room.x + room.w
                invariant
                    self.wf(),
                    room_in_range(*room),
                    room.y <= y < room.y + room.h,
                    room.x <= x <= room.x + room.w,
                    self.spec_width() == m0.spec_width(),
                    self.spec_height() == m0.spec_height(),
                    self.distance_seq() == m0.distance_seq(),
                    self.distance_target() == m0.distance_target(),
                    forall|p: Position| #[trigger] self.spec_contains(p) ==> self.tile_at(p) == (if in_room(*room, p)
                        && (p.y < y || (p.y == y && p.x < x)) {
                        TileType::Floor
                    } else {
                        m0.tile_at(p)
                    }),
                decreases room.x + room.w - x,
            {
                let ghost before = *self;
                let cell = Position::new(x, y);
                self.set_tile(cell, TileType::Floor);
                proof {
                    assert forall|p: Position| #[trigger] self.spec_contains(p) implies self.tile_at(p) == (if in_room(
                        *room,
                        p,
                    ) && (p.y < y || (p.y == y && p.x < x + 1)) {
                        TileType::Floor
                    } else {
                        m0.tile_at(p)
                    }) by {
                        assert(before.spec_contains(p));
                        if before.spec_contains(cell) {
                            lemma_set_tile_reads(before, *self, cell, TileType::Floor, p);
                        }
                    }
                }
                x = x + 1;
            }
            y = y + 1;
        }
    }

    /// Carve an L-shaped floor corridor: first along the row of `from`, then
    /// along the column of `to`.
    pub fn carve_corridor(&mut self, from: Position, to: Position)
        requires
            old(self).wf(),
        ensures
            final(self).wf(),
            final(self).spec_width() == old(self).spec_width(),
            final(self).spec_height() == old(self).spec_height(),
            final(self).distance_seq() == old(self).distance_seq(),
            final(self).distance_target() == old(self).distance_target(),
            forall|p: Position| #[trigger] final(self).spec_contains(p) ==> final(self).tile_at(p) == (if on_corridor(
                from,
                to,
                p,
            ) {
                TileType::Floor
            } else {
                old(self).tile_at(p)
            }),
    {
        let ghost m0 = *self;
        let mut x = from.x;
        let y0 = from.y;
        while x != to.x
            invariant
                self.wf(),
                on_run(from.x as int, to.x as int, x as int) || x == to.x,
                self.spec_width() == m0.spec_width(),
                self.spec_height() == m0.spec_height(),
                self.distance_seq() == m0.distance_seq(),
                self.distance_target() == m0.distance_target(),
                forall|p: Position| #[trigger] self.spec_contains(p) ==> self.tile_at(p) == (if p.y == y0 && on_run(
                    from.x as int,
                    to.x as int,
                    p.x as int,
                ) && !on_run(x as int, to.x as int, p.x as int) {
                    TileType::Floor
                } else {
                    m0.tile_at(p)
                }),
            decreases abs_diff(x as int, to.x as int),
        {
            let ghost before = *self;
            let cell = Position::new(x, y0);
            self.set_tile(cell, TileType::Floor);
            let nx = if to.x > x {
                x + 1
            } else {
                x - 1
            };
            proof {
                assert forall|p: Position| #[trigger] self.spec_contains(p) implies self.tile_at(p) == (if p.y == y0
                    && on_run(from.x as int, to.x as int, p.x as int) && !on_run(nx as int, to.x as int, p.x as int) {
                    TileType::Floor
                } else {
                    m0.tile_at(p)
                }) by {
                    assert(before.spec_contains(p));
                    if before.spec_contains(cell) {
                        lemma_set_tile_reads(before, *self, cell, TileType::Floor, p);
                    }
                }
            }
            x = nx;
        }
        let ghost m1 = *self;
        let mut y = from.y;
        while y != to.y
            invariant
                self.wf(),
                x == to.x,
                on_run(from.y as int, to.y as int, y as int) || y == to.y,
                self.spec_width() == m0.spec_width(),
                self.spec_height() == m0.spec_height(),
                self.distance_seq() == m0.distance_seq(),
                self.distance_target() == m0.distance_target(),
                forall|p: Position| #[trigger] self.spec_contains(p) ==> self.tile_at(p) == (if (p.y == y0 && on_run(
                    from.x as int,
                    to.x as int,
                    p.x as int,
                )) || (p.x == to.x && on_run(from.y as int, to.y as int, p.y as int) && !on_run(
                    y as int,
                    to.y as int,
                    p.y as int,
                )) {
                    TileType::Floor
                } else {
                    m0.tile_at(p)
                }),
            decreases abs_diff(y as int, to.y as int),
        {
            let ghost before = *self;
            let cell = Position::new(x, y);
            self.set_tile(cell, TileType::Floor);
            let ny = if to.y > y {
                y + 1
            } else {
                y - 1
            };
            proof {
                assert forall|p: Position| #[trigger] self.spec_contains(p) implies self.tile_at(p) == (if (p.y == y0
                    && on_run(from.x as int, to.x as int, p.x as int)) || (p.x == to.x && on_run(
                    from.y as int,
                    to.y as int,
                    p.y as int,
                ) && !on_run(ny as int, to.y as int, p.y as int)) {
                    TileType::Floor
                } else {
                    m0.tile_at(p)
                }) by {
                    assert(before.spec_contains(p));
                    if before.spec_contains(cell) {
                        lemma_set_tile_reads(before, *self, cell, TileType::Floor, p);
                    }
                }
            }
            y = ny;
        }
    }

    /// Number of columns.
    pub fn width(&self) -> (w: i32)
        ensures
            w == self.spec_width(),
    {
        self.width
    }

    /// Number of rows.
    pub fn height(&self) -> (h: i32)
        ensures
            h == self.spec_height(),
    {
        self.height
    }

    /// Row-major index of a position.
    pub fn idx(&self, pos: Position) -> (i: usize)
        requires
            self.wf(),
            self.spec_contains(pos),
        ensures
            i == grid_index(self.spec_width(), pos),
            i < self.spec_width() * self.spec_height(),
    {
        proof {
            lemma_grid_index_bounds(self.width as int, self.height as int, pos);
        }
        (pos.y * self.width + pos.x) as usize
    }

    /// The position of a row-major index.
    pub fn position_for_idx(&self, idx: usize) -> (p: Position)
        requires
            self.wf(),
            0 < self.spec_width(),
            idx <= i32::MAX,
        ensures
            p == grid_position(self.spec_width(), idx as int),
    {
        let i = idx as i32;
        Position::new(i % self.width, i / self.width)
    }

    pub fn contains(&self, pos: Position) -> (b: bool)
        ensures
            b == self.spec_contains(pos),
    {
        pos.x >= 0 && pos.x < self.width && pos.y >= 0 && pos.y < self.height
    }

    /// The tile at an in-bounds position.
    pub fn tile(&self, pos: Position) -> (t: TileType)
        requires
            self.wf(),
            self.spec_contains(pos),
        ensures
            t == self.tile_at(pos),
    {
        let i = self.idx(pos);
        self.tiles[i]
    }

    /// In bounds and not a wall.
    pub fn is_walkable(&self, pos: Position) -> (b: bool)
        requires
            self.wf(),
        ensures
            b == self.walkable_at(pos),
    {
        self.contains(pos) && self.tile(pos) != TileType::Wall
    }

    /// The `k`-th orthogonal neighbour of an in-bounds position.
    fn neighbor_of(&self, pos: Position, k: usize) -> (n: Position)
        requires
            self.wf(),
            self.spec_contains(pos),
            k < 4,
        ensures
            n == neighbor(pos, k as int),
    {
        if k == 0 {
            Position::new(pos.x, pos.y + 1)
        } else if k == 1 {
            Position::new(pos.x, pos.y - 1)
        } else if k == 2 {
            Position::new(pos.x + 1, pos.y)
        } else {
            Position::new(pos.x - 1, pos.y)
        }
    }

    /// Lower the entry of the `k`-th neighbour of `pos` to one past `pos`,
    /// queueing it when it improved.
    fn relax(&mut self, queue: &mut VecDeque<Position>, pos: Position, k: usize)
        requires
            old(self).wf(),
            k < 4,
            old(self).spec_contains(pos),
            field_at(*old(self), old(self).distance_seq(), pos) != UNREACHED,
            bfs_state(*old(self), old(self).distance_target(), old(self).distance_seq(), old(queue)@, pos),
        ensures
            final(self).wf(),
            final(self).spec_width() == old(self).spec_width(),
            final(self).spec_height() == old(self).spec_height(),
            final(self).tile_seq() == old(self).tile_seq(),
            final(self).distance_target() == old(self).distance_target(),
            bfs_state(*final(self), final(self).distance_target(), final(self).distance_seq(), final(queue)@, pos),
            field_at(*final(self), final(self).distance_seq(), pos) == field_at(*old(self), old(self).distance_seq(), pos),
            forall|p: Position| #[trigger] old(self).spec_contains(p) ==> field_at(*final(self), final(self).distance_seq(), p)
                <= field_at(*old(self), old(self).distance_seq(), p),
            final(self).walkable_at(neighbor(pos, k as int)) ==> field_at(*final(self), final(self).distance_seq(), neighbor(pos, k as int))
                <= field_at(*final(self), final(self).distance_seq(), pos) + 1,
            field_sum(final(self).distance_seq()) + final(queue)@.len() <= field_sum(old(self).distance_seq()) + old(queue)@.len(),
    {
        let ghost m0 = *self;
        let ghost f0 = self.dijkstra@;
        let ghost q0 = queue@;
        let nb = self.neighbor_of(pos, k);
        if self.is_walkable(nb) {
            let pi = self.idx(pos);
            let ni = self.idx(nb);
            proof {
                lemma_grid_index_injective(self.width as int, pos, nb);
                lemma_reached_count_bound(f0);
            }
            let dist = self.dijkstra[pi] + 1;
            if self.dijkstra[ni] > dist {
                proof {
                    if f0[ni as int] == UNREACHED {
                        lemma_unreached_entry_count(f0, ni as int);
                    }
                    lemma_field_update(f0, ni as int, dist);
                    assert(0 <= f0[pi as int]);
                }
                self.dijkstra.set(ni, dist);
                queue.push_back(nb);
                proof {
                    lemma_relax_step(m0, *self, q0, queue@, pos, k as int, dist);
                }
            }
        }
    }

    /// Compute the breadth-first distance field from `target` over walkable
    /// tiles. A repeated request for the current target keeps the cached
    /// field.
    pub fn compute_dijkstra(&mut self, target: Position)
        requires
            old(self).wf(),
        ensures
            final(self).wf(),
            final(self).spec_width() == old(self).spec_width(),
            final(self).spec_height() == old(self).spec_height(),
            final(self).tile_seq() == old(self).tile_seq(),
            final(self).distance_target() == target,
            target == old(self).distance_target() ==> final(self).distance_seq() == old(self).distance_seq(),
            target != old(self).distance_target() ==> is_distance_field(*final(self), target, final(self).distance_seq()),
    {
        if target == self.dijkstra_target {
            return;
        }
        self.dijkstra_target = target;
        let n = self.dijkstra.len();
        let mut i: usize = 0;
        while i < n
            invariant
                self.wf(),
                n == self.dijkstra@.len(),
                self.spec_width() == old(self).spec_width(),
                self.spec_height() == old(self).spec_height(),
                self.tile_seq() == old(self).tile_seq(),
                self.dijkstra_target == target,
                i <= n,
                forall|j: int| 0 <= j < i ==> #[trigger] self.dijkstra@[j] == UNREACHED,
            decreases n - i,
        {
            self.dijkstra.set(i, UNREACHED);
            i = i + 1;
        }
        if !self.contains(target) {
            proof {
                let m1 = *self;
                assert forall|p: Position| #[trigger] m1.spec_contains(p) implies distance_cell(m1, target, m1.distance_seq(), p) by {
                    lemma_grid_index_bounds(self.width as int, self.height as int, p);
                }
            }
            return;
        }
        let ti = self.idx(target);
        proof {
            lemma_all_unreached_count(self.dijkstra@);
            lemma_field_update(self.dijkstra@, ti as int, 0);
        }
        self.dijkstra.set(ti, 0);
        let mut queue: VecDeque<Position> = VecDeque::new();
        queue.push_back(target);
        proof {
            lemma_bfs_start(*self, target, queue@);
        }
        while queue.len() > 0
            invariant
                self.wf(),
                self.spec_width() == old(self).spec_width(),
                self.spec_height() == old(self).spec_height(),
                self.tile_seq() == old(self).tile_seq(),
                self.dijkstra_target == target,
                bfs_state(*self, target, self.dijkstra@, queue@, outside()),
            decreases field_sum(self.dijkstra@) + queue@.len(),
        {
            proof {
                lemma_field_sum_lower(self.dijkstra@);
            }
            let ghost q0 = queue@;
            let ghost m0 = *self;
            let ghost measure0 = field_sum(self.dijkstra@) + queue@.len();
            let pos = queue.pop_front().unwrap();
            proof {
                lemma_bfs_pop(m0, target, q0, queue@);
            }
            self.relax(&mut queue, pos, 0);
            let ghost m1 = *self;
            self.relax(&mut queue, pos, 1);
            let ghost m2 = *self;
            self.relax(&mut queue, pos, 2);
            let ghost m3 = *self;
            self.relax(&mut queue, pos, 3);
            proof {
                let m4 = *self;
                let n0 = neighbor(pos, 0);
                let n1 = neighbor(pos, 1);
                let n2 = neighbor(pos, 2);
                if m4.walkable_at(n0) {
                    assert(m1.spec_contains(n0) && m2.spec_contains(n0) && m3.spec_contains(n0));
                }
                if m4.walkable_at(n1) {
                    assert(m2.spec_contains(n1) && m3.spec_contains(n1));
                }
                if m4.walkable_at(n2) {
                    assert(m3.spec_contains(n2));
                }
                assert(settled(m4, m4.distance_seq(), pos));
                lemma_bfs_settle(*self, target, queue@, pos);
                assert(field_sum(self.dijkstra@) + queue@.len() < measure0);
                lemma_field_sum_lower(self.dijkstra@);
            }
        }
        proof {
            lemma_bfs_complete(*self, target, queue@);
        }
    }

    /// The neighbour to step to when walking down the cached distance field:
    /// the first (south, north, east, west) in-bounds neighbour with the
    /// smallest entry, provided that entry is below the entry of `from`.
    /// `None` when `from` is outside the map or unreached, or no neighbour is
    /// closer.
    pub fn dijkstra_best_step(&self, from: Position) -> (step: Option<Position>)
        requires
            self.wf(),
        ensures
            (!self.spec_contains(from) || self.distance_at(from) == UNREACHED) ==> step.is_none(),
            self.spec_contains(from) && self.distance_at(from) != UNREACHED ==> match step {
                None => forall|j: int| 0 <= j < 4 && #[trigger] self.spec_contains(neighbor(from, j))
                    ==> self.distance_at(neighbor(from, j)) >= self.distance_at(from),
                Some(q) => exists|k: int| {
                    &&& 0 <= k < 4
                    &&& q == neighbor(from, k)
                    &&& self.spec_contains(q)
                    &&& self.distance_at(q) < self.distance_at(from)
                    &&& forall|j: int| 0 <= j < 4 && #[trigger] self.spec_contains(neighbor(from, j))
                        ==> self.distance_at(q) <= self.distance_at(neighbor(from, j))
                    &&& forall|j: int| 0 <= j < k && #[trigger] self.spec_contains(neighbor(from, j))
                        ==> self.distance_at(q) < self.distance_at(neighbor(from, j))
                },
            },
    {
        if !self.contains(from) {
            return None;
        }
        let current_dist = self.dijkstra[self.idx(from)];
        if current_dist == UNREACHED {
            return None;
        }
        let mut best: Option<(Position, i32)> = None;
        let ghost mut best_k: int = 0;
        let mut k: usize = 0;
        while k < 4
            invariant
                self.wf(),
                self.spec_contains(from),
                current_dist == self.distance_at(from),
                k <= 4,
                match best {
                    None => forall|j: int| 0 <= j < k && #[trigger] self.spec_contains(neighbor(from, j))
                        ==> self.distance_at(neighbor(from, j)) >= current_dist,
                    Some((q, bd)) => {
                        &&& 0 <= best_k < k
                        &&& q == neighbor(from, best_k)
                        &&& self.spec_contains(q)
                        &&& bd == self.distance_at(q)
                        &&& bd < current_dist
                        &&& forall|j: int| 0 <= j < k && #[trigger] self.spec_contains(neighbor(from, j))
                            ==> bd <= self.distance_at(neighbor(from, j))
                        &&& forall|j: int| 0 <= j < best_k && #[trigger] self.spec_contains(neighbor(from, j))
                            ==> bd < self.distance_at(neighbor(from, j))
                    },
                },
            decreases 4 - k,
        {
            let neighbor = self.neighbor_of(from, k);
            if self.contains(neighbor) {
                let nd = self.dijkstra[self.idx(neighbor)];
                if nd < current_dist {
                    match best {
                        None => {
                            best = Some((neighbor, nd));
                            proof {
                                best_k = k as int;
                            }
                        },
                        Some((_, bd)) => {
                            if nd < bd {
                                best = Some((neighbor, nd));
                                proof {
                                    best_k = k as int;
                                }
                            }
                        },
                    }
                }
            }
            k = k + 1;
        }
        match best {
            None => None,
            Some((pos, _)) => Some(pos),
        }
    }

    /// A copy of the map: the same tiles and the same cached distance field.
    pub fn duplicate(&self) -> (m: TileMap)
        requires
            self.wf(),
        ensures
            m.wf(),
            m.spec_width() == self.spec_width(),
            m.spec_height() == self.spec_height(),
            m.tile_seq() == self.tile_seq(),
            m.distance_seq() == self.distance_seq(),
            m.distance_target() == self.distance_target(),
    {
        let tiles = self.tiles.clone();
        let dijkstra = self.dijkstra.clone();
        assert(tiles@ =~= self.tiles@);
        assert(dijkstra@ =~= self.dijkstra@);
        TileMap { width: self.width, height: self.height, tiles, dijkstra, dijkstra_target: self.dijkstra_target }
    }

    /// Overwrite one tile; positions outside the map are ignored.
    pub fn set_tile(&mut self, pos: Position, tile: TileType)
        requires
            old(self).wf(),
        ensures
            final(self).wf(),
            final(self).spec_width() == old(self).spec_width(),
            final(self).spec_height() == old(self).spec_height(),
            final(self).distance_seq() == old(self).distance_seq(),
            final(self).distance_target() == old(self).distance_target(),
            old(self).spec_contains(pos) ==> final(self).tile_seq() == old(self).tile_seq().update(
                grid_index(old(self).spec_width(), pos),
                tile,
            ),
            !old(self).spec_contains(pos) ==> final(self).tile_seq() == old(self).tile_seq(),
    {
        if self.contains(pos) {
            let i = self.idx(pos);
            self.tiles.set(i, tile);
        }
    }
}

/// After a write at `pos`, in-bounds tiles read as before except at `pos`.
pub proof fn lemma_set_tile_reads(before: TileMap, after: TileMap, pos: Position, tile: TileType, q: Position)
    requires
        before.wf(),
        before.spec_contains(pos),
        before.spec_contains(q),
        after.spec_width() == before.spec_width(),
        after.spec_height() == before.spec_height(),
        after.tile_seq() == before.tile_seq().update(grid_index(before.spec_width(), pos), tile),
    ensures
        after.tile_at(q) == (if q == pos {
            tile
        } else {
            before.tile_at(q)
        }),
{
    lemma_grid_index_bounds(before.spec_width(), before.spec_height(), q);
    lemma_grid_index_bounds(before.spec_width(), before.spec_height(), pos);
    if q != pos {
        lemma_grid_index_injective(before.spec_width(), q, pos);
    }
}

} // verus!
