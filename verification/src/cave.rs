//! Cave levels: random noise smoothed by a cellular automaton and reduced
//! to its largest connected floor region, with the stairs far apart and
//! enemies scattered away from the player.

use vstd::prelude::*;

use crate::entity::{manhattan, Position};
use crate::map::{
    grid_index, grid_position, lemma_grid_index_bounds, lemma_grid_index_injective,
    lemma_grid_position_roundtrip, lemma_neighbor_back, lemma_set_tile_reads, neighbor, row_major_before, wall_neighbor_count,
    MapGenOutput, TileMap, TileType, MAP_HEIGHT, MAP_WIDTH,
};
use crate::mapgen::{adj_ok, adj_sym, bfs_distances, bfs_field, lemma_reach_same, percent_span};
use crate::rng::{rng_range, seeded_draw, seeded_rng};
use crate::walks::{
    connects, is_walk, keeps_walkable, lemma_connects_refl, lemma_connects_sym, lemma_connects_trans, lemma_set_tile_keeps,
    steps_to, walk_step,
};

verus! {

/// Inside the one-tile border of the map.
pub open spec fn interior(m: TileMap, p: Position) -> bool {
    1 <= p.x < m.spec_width() - 1 && 1 <= p.y < m.spec_height() - 1
}

/// One step of the cave automaton at `p`: an inner wall with fewer than four
/// walls around becomes floor, an inner open tile with five or more walls
/// around becomes wall; the border stays.
pub open spec fn smoothed_tile(m: TileMap, p: Position) -> TileType {
    if interior(m, p) {
        let c = wall_neighbor_count(m, p.x as int, p.y as int);
        if m.tile_at(p) == TileType::Wall {
            if c < 4 {
                TileType::Floor
            } else {
                TileType::Wall
            }
        } else if c >= 5 {
            TileType::Wall
        } else {
            m.tile_at(p)
        }
    } else {
        m.tile_at(p)
    }
}

/// `b` is one step of the automaton after `a`: the same size, every tile
/// smoothed from `a`.
pub open spec fn smooth_step(a: TileMap, b: TileMap) -> bool {
    &&& b.spec_width() == a.spec_width()
    &&& b.spec_height() == a.spec_height()
    &&& forall|p: Position| #[trigger] b.spec_contains(p) ==> b.tile_at(p) == smoothed_tile(a, p)
}

/// The `i`-th map of `ms` steps to the next.
pub open spec fn run_step(ms: Seq<TileMap>, i: int) -> bool {
    smooth_step(ms[i], ms[i + 1])
}

/// `ms` runs the automaton: each map is one step after the one before.
pub open spec fn smoothing_run(ms: Seq<TileMap>) -> bool {
    forall|i: int| 0 <= i < ms.len() - 1 ==> #[trigger] run_step(ms, i)
}

/// Cells visited before `(x, y)` in row-major order.
pub open spec fn before_cell(p: Position, y: int, x: int) -> bool {
    p.y < y || (p.y == y && p.x < x)
}

/// One step of the automaton over the whole map, every tile computed from
/// the map before the step.
pub fn smooth_once(map: &TileMap) -> (next: TileMap)
    requires
        map.wf(),
        map.spec_width() < i32::MAX,
        map.spec_height() < i32::MAX,
    ensures
        next.wf(),
        next.spec_width() == map.spec_width(),
        next.spec_height() == map.spec_height(),
        forall|p: Position| #[trigger] next.spec_contains(p) ==> next.tile_at(p) == smoothed_tile(*map, p),
{
    proof {
        map.lemma_wf_len();
    }
    let width = map.width();
    let height = map.height();
    let mut next = map.duplicate();
    let mut y: i32 = 1;
    while y < height - 1
        invariant
            map.wf(),
            next.wf(),
            width == map.spec_width(),
            height == map.spec_height(),
            0 <= width < i32::MAX,
            0 <= height < i32::MAX,
            next.spec_width() == width,
            next.spec_height() == height,
            1 <= y,
            y <= height - 1 || height < 2,
            forall|p: Position| #[trigger] next.spec_contains(p) ==> next.tile_at(p) == if before_cell(p, y as int, 1) {
                smoothed_tile(*map, p)
            } else {
                map.tile_at(p)
            },
        decreases height - y,
    {
        let mut x: i32 = 1;
        while x < width - 1
            invariant
                map.wf(),
                next.wf(),
                width == map.spec_width(),
                height == map.spec_height(),
                0 <= width < i32::MAX,
                0 <= height < i32::MAX,
                next.spec_width() == width,
                next.spec_height() == height,
                1 <= y < height - 1,
                1 <= x,
                x <= width - 1 || width < 2,
                forall|p: Position| #[trigger] next.spec_contains(p) ==> next.tile_at(p) == if before_cell(p, y as int, x as int) {
                    smoothed_tile(*map, p)
                } else {
                    map.tile_at(p)
                },
            decreases width - x,
        {
            let pos = Position::new(x, y);
            let wall_count = map.count_wall_neighbors(x, y);
            let ghost before = next;
            let t = map.tile(pos);
            if t == TileType::Wall {
                if wall_count < 4 {
                    next.set_tile(pos, TileType::Floor);
                    proof {
                        assert forall|p: Position| #[trigger] next.spec_contains(p) implies next.tile_at(p) == (if p
                            == pos {
                            TileType::Floor
                        } else {
                            before.tile_at(p)
                        }) by {
                            lemma_set_tile_reads(before, next, pos, TileType::Floor, p);
                        }
                    }
                }
            } else if wall_count >= 5 {
                next.set_tile(pos, TileType::Wall);
                proof {
                    assert forall|p: Position| #[trigger] next.spec_contains(p) implies next.tile_at(p) == (if p == pos {
                        TileType::Wall
                    } else {
                        before.tile_at(p)
                    }) by {
                        lemma_set_tile_reads(before, next, pos, TileType::Wall, p);
                    }
                }
            }
            proof {
                assert(interior(*map, pos));
                assert(next.spec_contains(pos));
                assert(next.tile_at(pos) == smoothed_tile(*map, pos));
                assert forall|p: Position| #[trigger] next.spec_contains(p) implies next.tile_at(p) == if before_cell(
                    p,
                    y as int,
                    x + 1,
                ) {
                    smoothed_tile(*map, p)
                } else {
                    map.tile_at(p)
                } by {
                    assert(before.spec_contains(p));
                    if p == pos {
                        assert(interior(*map, p));
                    }
                }
            }
            x = x + 1;
        }
        proof {
            assert forall|p: Position| #[trigger] next.spec_contains(p) implies next.tile_at(p) == if before_cell(
                p,
                y + 1,
                1,
            ) {
                smoothed_tile(*map, p)
            } else {
                map.tile_at(p)
            } by {
                if p.y == y && p.x >= x {
                    assert(!interior(*map, p));
                }
                if p.y == y && p.x == 0 {
                    assert(!interior(*map, p));
                }
            }
        }
        y = y + 1;
    }
    proof {
        assert forall|p: Position| #[trigger] next.spec_contains(p) implies next.tile_at(p) == smoothed_tile(*map, p) by {
            if !before_cell(p, y as int, 1) || p.x == 0 {
                assert(!interior(*map, p));
            }
        }
    }
    next
}


// ---------------------------------------------------------------------------
// Floor connectivity

/// The index of the `k`-th neighbour of `p` (south, north, east, west) when
/// it is an in-map floor tile.
pub open spec fn floor_step(m: TileMap, p: Position, k: int) -> Seq<usize> {
    let q = neighbor(p, k);
    if m.spec_contains(q) && m.tile_at(q) == TileType::Floor {
        seq![grid_index(m.spec_width(), q) as usize]
    } else {
        seq![]
    }
}

/// The links of cell `u`: a floor tile links to its in-map floor neighbours,
/// other tiles to nothing.
pub open spec fn floor_links(m: TileMap, u: int) -> Seq<usize> {
    let p = grid_position(m.spec_width(), u);
    if m.tile_at(p) == TileType::Floor {
        floor_step(m, p, 0) + floor_step(m, p, 1) + floor_step(m, p, 2) + floor_step(m, p, 3)
    } else {
        seq![]
    }
}

/// Maps small enough for coordinate arithmetic around every tile.
pub open spec fn small_map(m: TileMap) -> bool {
    &&& m.wf()
    &&& 0 < m.spec_width() < i32::MAX
    &&& 0 < m.spec_height() < i32::MAX
}

/// The floor links of every cell, in row-major order.
pub fn floor_adjacency(map: &TileMap) -> (adj: Vec<Vec<usize>>)
    requires
        small_map(*map),
    ensures
        adj@.len() == map.spec_width() * map.spec_height(),
        forall|u: int| 0 <= u < adj@.len() ==> (#[trigger] adj@[u])@ == floor_links(*map, u),
{
    proof {
        map.lemma_wf_len();
    }
    let n = (map.width() * map.height()) as usize;
    let mut adj: Vec<Vec<usize>> = Vec::new();
    let mut i: usize = 0;
    while i < n
        invariant
            small_map(*map),
            n == map.spec_width() * map.spec_height(),
            n <= i32::MAX,
            i <= n,
            adj@.len() == i,
            forall|u: int| 0 <= u < i ==> (#[trigger] adj@[u])@ == floor_links(*map, u),
        decreases n - i,
    {
        proof {
            lemma_grid_position_roundtrip(map.spec_width(), map.spec_height(), i as int);
        }
        let p = map.position_for_idx(i);
        let mut list: Vec<usize> = Vec::new();
        if map.tile(p) == TileType::Floor {
            let mut k: usize = 0;
            while k < 4
                invariant
                    small_map(*map),
                    map.spec_contains(p),
                    k <= 4,
                    list@ == (if k == 0 {
                        Seq::<usize>::empty()
                    } else if k == 1 {
                        floor_step(*map, p, 0)
                    } else if k == 2 {
                        floor_step(*map, p, 0) + floor_step(*map, p, 1)
                    } else if k == 3 {
                        floor_step(*map, p, 0) + floor_step(*map, p, 1) + floor_step(*map, p, 2)
                    } else {
                        floor_step(*map, p, 0) + floor_step(*map, p, 1) + floor_step(*map, p, 2) + floor_step(
                            *map,
                            p,
                            3,
                        )
                    }),
                decreases 4 - k,
            {
                let q = if k == 0 {
                    Position::new(p.x, p.y + 1)
                } else if k == 1 {
                    Position::new(p.x, p.y - 1)
                } else if k == 2 {
                    Position::new(p.x + 1, p.y)
                } else {
                    Position::new(p.x - 1, p.y)
                };
                assert(q == neighbor(p, k as int));
                let ghost before = list@;
                if map.contains(q) && map.tile(q) == TileType::Floor {
                    let qi = map.idx(q);
                    list.push(qi);
                }
                assert(list@ =~= before + floor_step(*map, p, k as int));
                k = k + 1;
            }
        }
        adj.push(list);
        i = i + 1;
    }
    adj
}

proof fn lemma_floor_step_in_range(m: TileMap, p: Position, k: int)
    requires
        small_map(m),
    ensures
        forall|j: int| 0 <= j < floor_step(m, p, k).len() ==> (#[trigger] floor_step(m, p, k)[j] as int) < m.spec_width()
            * m.spec_height(),
{
    let q = neighbor(p, k);
    if m.spec_contains(q) {
        lemma_grid_index_bounds(m.spec_width(), m.spec_height(), q);
    }
}

/// The floor links are in range and go both ways.
pub proof fn lemma_floor_links(m: TileMap, adj: Seq<Vec<usize>>)
    requires
        small_map(m),
        adj.len() == m.spec_width() * m.spec_height(),
        forall|u: int| 0 <= u < adj.len() ==> (#[trigger] adj[u])@ == floor_links(m, u),
    ensures
        adj_ok(adj),
        adj_sym(adj),
        adj.len() <= i32::MAX,
{
    let w = m.spec_width();
    let h = m.spec_height();
    m.lemma_wf_len();
    assert forall|u: int, k: int| 0 <= u < adj.len() && 0 <= k < adj[u]@.len() implies (#[trigger] adj[u]@[k] as int)
        < adj.len() by {
        lemma_grid_position_roundtrip(w, h, u);
        let p = grid_position(w, u);
        lemma_floor_step_in_range(m, p, 0);
        lemma_floor_step_in_range(m, p, 1);
        lemma_floor_step_in_range(m, p, 2);
        lemma_floor_step_in_range(m, p, 3);
        let a = floor_step(m, p, 0);
        let b = floor_step(m, p, 1);
        let c = floor_step(m, p, 2);
        let d = floor_step(m, p, 3);
        if m.tile_at(p) == TileType::Floor {
            let l = a + b + c + d;
            assert(adj[u]@ == l);
            if k < a.len() {
                assert(l[k] == a[k]);
            } else if k < a.len() + b.len() {
                assert(l[k] == b[k - a.len()]);
            } else if k < a.len() + b.len() + c.len() {
                assert(l[k] == c[k - a.len() - b.len()]);
            } else {
                assert(l[k] == d[k - a.len() - b.len() - c.len()]);
            }
        }
    }
    assert forall|u: int, k: int| 0 <= u < adj.len() && 0 <= k < adj[u]@.len() implies adj[#[trigger] adj[u]@[k]
        as int]@.contains(u as usize) by {
        lemma_grid_position_roundtrip(w, h, u);
        let p = grid_position(w, u);
        let a = floor_step(m, p, 0);
        let b = floor_step(m, p, 1);
        let c = floor_step(m, p, 2);
        let d = floor_step(m, p, 3);
        let l = a + b + c + d;
        assert(m.tile_at(p) == TileType::Floor);
        assert(adj[u]@ == l);
        let kk: int = if k < a.len() {
            0
        } else if k < a.len() + b.len() {
            1
        } else if k < a.len() + b.len() + c.len() {
            2
        } else {
            3
        };
        if k < a.len() {
            assert(l[k] == a[k]);
        } else if k < a.len() + b.len() {
            assert(l[k] == b[k - a.len()]);
        } else if k < a.len() + b.len() + c.len() {
            assert(l[k] == c[k - a.len() - b.len()]);
        } else {
            assert(l[k] == d[k - a.len() - b.len() - c.len()]);
        }
        let q = neighbor(p, kk);
        assert(m.spec_contains(q) && m.tile_at(q) == TileType::Floor);
        lemma_grid_index_bounds(w, h, q);
        assert(adj[u]@[k] as int == grid_index(w, q));
        let v = grid_index(w, q);
        lemma_grid_position_roundtrip(w, h, v);
        if grid_position(w, v) != q {
            lemma_grid_index_injective(w, grid_position(w, v), q);
        }
        assert(grid_position(w, v) == q);
        lemma_neighbor_back(p, kk);
        let back: int = if kk == 0 {
            1
        } else if kk == 1 {
            0
        } else if kk == 2 {
            3
        } else {
            2
        };
        assert(neighbor(q, back) == p);
        assert(grid_index(w, p) == u);
        let a2 = floor_step(m, q, 0);
        let b2 = floor_step(m, q, 1);
        let c2 = floor_step(m, q, 2);
        let d2 = floor_step(m, q, 3);
        let l2 = a2 + b2 + c2 + d2;
        assert(adj[v]@ == l2);
        if back == 0 {
            assert(l2[0] == u as usize);
        } else if back == 1 {
            assert(l2[a2.len() as int] == u as usize);
        } else if back == 2 {
            assert(l2[(a2.len() + b2.len()) as int] == u as usize);
        } else {
            assert(l2[(a2.len() + b2.len() + c2.len()) as int] == u as usize);
        }
    }
}


// ---------------------------------------------------------------------------
// The largest floor region

/// The number of set entries.
pub open spec fn count_true(r: Seq<bool>) -> nat
    decreases r.len(),
{
    if r.len() == 0 {
        0
    } else {
        count_true(r.drop_last()) + if r.last() {
            1nat
        } else {
            0nat
        }
    }
}

proof fn lemma_count_true_pos(r: Seq<bool>, i: int)
    requires
        0 <= i < r.len(),
        r[i],
    ensures
        count_true(r) >= 1,
    decreases r.len(),
{
    if i < r.len() - 1 {
        lemma_count_true_pos(r.drop_last(), i);
    }
}

proof fn lemma_count_all_false(r: Seq<bool>)
    requires
        forall|i: int| 0 <= i < r.len() ==> !#[trigger] r[i],
    ensures
        count_true(r) == 0,
    decreases r.len(),
{
    if r.len() > 0 {
        lemma_count_all_false(r.drop_last());
    }
}

fn count_set(r: &Vec<bool>) -> (c: usize)
    ensures
        c == count_true(r@),
{
    let mut c: usize = 0;
    let mut i: usize = 0;
    while i < r.len()
        invariant
            i <= r@.len(),
            c == count_true(r@.subrange(0, i as int)),
            c <= i,
        decreases r.len() - i,
    {
        assert(r@.subrange(0, i + 1).drop_last() =~= r@.subrange(0, i as int));
        if r[i] {
            c = c + 1;
        }
        i = i + 1;
    }
    assert(r@.subrange(0, r@.len() as int) =~= r@);
    c
}

/// A connected floor region of the map: the cells a search over the floor
/// links reaches from an inner floor tile `s`.
pub open spec fn floor_region(m: TileMap, adj: Seq<Vec<usize>>, s: Position, d: Seq<i32>, r: Seq<bool>) -> bool {
    &&& interior(m, s)
    &&& m.tile_at(s) == TileType::Floor
    &&& bfs_field(adj, grid_index(m.spec_width(), s), d, r)
}

/// The kept region is the first of the largest found: the regions found
/// before it, `regions[..best_j]`, are all smaller, and hold every inner
/// floor tile that comes before its start in row-major order.
#[verifier::opaque]
spec fn first_best(m: TileMap, w: int, regions: Seq<Seq<bool>>, best_j: int, best_count: int, best_start: Position) -> bool {
    &&& 0 <= best_j <= regions.len()
    &&& forall|j: int| 0 <= j < best_j ==> count_true(#[trigger] regions[j]) < best_count
    &&& best_count > 0 ==> forall|t: Position|
        #[trigger] interior(m, t) && m.tile_at(t) == TileType::Floor && before_cell(t, best_start.y as int, best_start.x as int)
            ==> exists|j: int| 0 <= j < best_j && #[trigger] regions[j][grid_index(w, t)]
}

proof fn lemma_first_best_extend(
    m: TileMap,
    w: int,
    regions: Seq<Seq<bool>>,
    r: Seq<bool>,
    best_j: int,
    best_count: int,
    best_start: Position,
)
    requires
        first_best(m, w, regions, best_j, best_count, best_start),
    ensures
        first_best(m, w, regions.push(r), best_j, best_count, best_start),
{
    reveal(first_best);
    let rs = regions.push(r);
    assert forall|j: int| 0 <= j < best_j implies count_true(#[trigger] rs[j]) < best_count by {
        assert(rs[j] == regions[j]);
    }
    if best_count > 0 {
        assert forall|t: Position|
            #[trigger] interior(m, t) && m.tile_at(t) == TileType::Floor && before_cell(t, best_start.y as int, best_start.x as int)
                implies exists|j: int| 0 <= j < best_j && #[trigger] rs[j][grid_index(w, t)] by {
            let j = choose|j: int| 0 <= j < best_j && #[trigger] regions[j][grid_index(w, t)];
            assert(rs[j] == regions[j]);
        }
    }
}

proof fn lemma_first_best_start(m: TileMap, w: int, regions: Seq<Seq<bool>>, r: Seq<bool>, count: int, start: Position)
    requires
        forall|j: int| 0 <= j < regions.len() ==> count_true(#[trigger] regions[j]) < count,
        forall|t: Position|
            #[trigger] interior(m, t) && m.tile_at(t) == TileType::Floor && before_cell(t, start.y as int, start.x as int)
                ==> exists|j: int| 0 <= j < regions.len() && #[trigger] regions[j][grid_index(w, t)],
    ensures
        first_best(m, w, regions.push(r), regions.len() as int, count, start),
{
    reveal(first_best);
    let rs = regions.push(r);
    assert forall|j: int| 0 <= j < regions.len() implies count_true(#[trigger] rs[j]) < count by {
        assert(rs[j] == regions[j]);
    }
    if count > 0 {
        assert forall|t: Position|
            #[trigger] interior(m, t) && m.tile_at(t) == TileType::Floor && before_cell(t, start.y as int, start.x as int)
                implies exists|j: int| 0 <= j < regions.len() && #[trigger] rs[j][grid_index(w, t)] by {
            let j = choose|j: int| 0 <= j < regions.len() && #[trigger] regions[j][grid_index(w, t)];
            assert(rs[j] == regions[j]);
        }
    }
}

proof fn lemma_first_best_holds(
    m: TileMap,
    w: int,
    regions: Seq<Seq<bool>>,
    best_j: int,
    best_count: int,
    best_start: Position,
    t: Position,
) -> (j: int)
    requires
        first_best(m, w, regions, best_j, best_count, best_start),
        best_count > 0,
        interior(m, t),
        m.tile_at(t) == TileType::Floor,
        before_cell(t, best_start.y as int, best_start.x as int),
    ensures
        0 <= j < best_j <= regions.len(),
        regions[j][grid_index(w, t)],
        count_true(regions[j]) < best_count,
{
    reveal(first_best);
    choose|j: int| 0 <= j < best_j && #[trigger] regions[j][grid_index(w, t)]
}

/// The largest connected floor region among those reachable from inner
/// floor tiles, as a mask over the cells, and its size. Regions are found
/// scanning the inner tiles in row-major order; of equally large ones the
/// first found is kept. No inner floor tile gives an empty mask.
#[verifier::spinoff_prover]
pub fn largest_floor_region(map: &TileMap, adj: &Vec<Vec<usize>>) -> (r: (Vec<bool>, usize))
    requires
        small_map(*map),
        adj@.len() == map.spec_width() * map.spec_height(),
        forall|u: int| 0 <= u < adj@.len() ==> (#[trigger] adj@[u])@ == floor_links(*map, u),
    ensures
        r.0@.len() == adj@.len(),
        r.1 == count_true(r.0@),
        r.1 > 0 ==> exists|s: Position, d: Seq<i32>| floor_region(*map, adj@, s, d, r.0@),
        r.1 > 0 ==> exists|s: Position, d: Seq<i32>|
            {
                &&& #[trigger] floor_region(*map, adj@, s, d, r.0@)
                &&& forall|t: Position, d2: Seq<i32>, q: Seq<bool>|
                    #[trigger] floor_region(*map, adj@, t, d2, q) && row_major_before(t, s) ==> count_true(q) < r.1
            },
        r.1 == 0 ==> forall|t: Position| #[trigger] interior(*map, t) ==> map.tile_at(t) != TileType::Floor,
        forall|t: Position, d: Seq<i32>, q: Seq<bool>|
            #[trigger] floor_region(*map, adj@, t, d, q) ==> count_true(q) <= r.1,
{
    proof {
        lemma_floor_links(*map, adj@);
        map.lemma_wf_len();
    }
    let ghost g = adj@;
    let ghost w = map.spec_width();
    let n = adj.len();
    let width = map.width();
    let height = map.height();
    let mut visited: Vec<bool> = vec![false; n];
    let mut best: Vec<bool> = vec![false; n];
    let mut best_count: usize = 0;
    proof {
        lemma_count_all_false(best@);
    }
    let ghost mut regions: Seq<Seq<bool>> = seq![];
    let ghost mut starts: Seq<Position> = seq![];
    let ghost mut dists: Seq<Seq<i32>> = seq![];
    let ghost mut best_start: Position = Position { x: 0, y: 0 };
    let ghost mut best_d: Seq<i32> = seq![];
    let ghost mut best_j: int = 0;
    proof {
        reveal(first_best);
    }
    let mut y: i32 = 1;
    while y < height - 1
        invariant
            small_map(*map),
            g == adj@,
            w == width,
            width == map.spec_width(),
            height == map.spec_height(),
            n == g.len(),
            n == width * height,
            n <= i32::MAX,
            adj_ok(g),
            adj_sym(g),
            forall|u: int| 0 <= u < g.len() ==> (#[trigger] g[u])@ == floor_links(*map, u),
            1 <= y,
            y <= height - 1 || height < 2,
            visited@.len() == n,
            best@.len() == n,
            best_count == count_true(best@),
            regions.len() == starts.len(),
            regions.len() == dists.len(),
            forall|j: int| 0 <= j < regions.len() ==> floor_region(*map, g, #[trigger] starts[j], dists[j], regions[j])
                && count_true(regions[j]) <= best_count,
            forall|i: int| 0 <= i < n && #[trigger] visited@[i] ==> exists|j: int| 0 <= j < regions.len() && #[trigger] regions[j][i],
            forall|t: Position| #[trigger] interior(*map, t) && map.tile_at(t) == TileType::Floor && before_cell(t, y as int, 1)
                ==> visited@[grid_index(w, t)],
            best_count > 0 ==> floor_region(*map, g, best_start, best_d, best@),
            best_count == 0 ==> forall|t: Position| #[trigger] interior(*map, t) && before_cell(t, y as int, 1) ==> map.tile_at(t)
                != TileType::Floor,
            first_best(*map, w, regions, best_j, best_count as int, best_start),
        decreases height - y,
    {
        let mut x: i32 = 1;
        while x < width - 1
            invariant
                small_map(*map),
                g == adj@,
                w == width,
                width == map.spec_width(),
                height == map.spec_height(),
                n == g.len(),
                n == width * height,
                n <= i32::MAX,
                adj_ok(g),
                adj_sym(g),
                forall|u: int| 0 <= u < g.len() ==> (#[trigger] g[u])@ == floor_links(*map, u),
                1 <= y < height - 1,
                1 <= x,
                x <= width - 1 || width < 2,
                visited@.len() == n,
                best@.len() == n,
                best_count == count_true(best@),
                regions.len() == starts.len(),
                regions.len() == dists.len(),
                forall|j: int| 0 <= j < regions.len() ==> floor_region(*map, g, #[trigger] starts[j], dists[j], regions[j])
                    && count_true(regions[j]) <= best_count,
                forall|i: int| 0 <= i < n && #[trigger] visited@[i] ==> exists|j: int| 0 <= j < regions.len() && #[trigger] regions[j][i],
                forall|t: Position| #[trigger] interior(*map, t) && map.tile_at(t) == TileType::Floor && before_cell(t, y as int, x as int)
                    ==> visited@[grid_index(w, t)],
                best_count > 0 ==> floor_region(*map, g, best_start, best_d, best@),
                best_count == 0 ==> forall|t: Position| #[trigger] interior(*map, t) && before_cell(t, y as int, x as int) ==> map.tile_at(t)
                    != TileType::Floor,
                first_best(*map, w, regions, best_j, best_count as int, best_start),
            decreases width - x,
        {
            let start = Position::new(x, y);
            proof {
                assert(interior(*map, start));
                lemma_grid_index_bounds(w, height as int, start);
            }
            let si = map.idx(start);
            let ghost vis_before = visited@;
            let ghost regions_before = regions;
            let ghost starts_before = starts;
            let ghost dists_before = dists;
            let ghost count_before = best_count;
            if map.tile(start) == TileType::Floor && !visited[si] {
                let (d, reach, _order) = bfs_distances(si, adj);
                let cnt = count_set(&reach);
                let ghost old_regions = regions;
                proof {
                    assert(floor_region(*map, g, start, d@, reach@));
                    lemma_count_true_pos(reach@, si as int);
                    regions = regions.push(reach@);
                    starts = starts.push(start);
                    dists = dists.push(d@);
                }
                let ghost old_visited = visited@;
                let mut k: usize = 0;
                while k < n
                    invariant
                        k <= n,
                        n == g.len(),
                        visited@.len() == n,
                        reach@.len() == n,
                        regions.len() > 0,
                        regions.last() == reach@,
                        forall|i: int| 0 <= i < n ==> #[trigger] visited@[i] == (old_visited[i] || (i < k && reach@[i])),
                    decreases n - k,
                {
                    if reach[k] {
                        visited.set(k, true);
                    }
                    k = k + 1;
                }
                if cnt > best_count {
                    best = reach;
                    best_count = cnt;
                    proof {
                        best_start = start;
                        best_d = d@;
                        best_j = regions.len() - 1;
                        assert forall|t: Position|
                            #[trigger] interior(*map, t) && map.tile_at(t) == TileType::Floor && before_cell(
                                t,
                                start.y as int,
                                start.x as int,
                            ) implies exists|j: int| 0 <= j < regions_before.len() && #[trigger] regions_before[j][grid_index(w, t)] by {
                            lemma_grid_index_bounds(w, height as int, t);
                            let ti = grid_index(w, t);
                            assert(vis_before[ti]);
                        }
                        assert forall|j: int| 0 <= j < regions_before.len() implies count_true(#[trigger] regions_before[j])
                            < cnt by {
                            assert(floor_region(*map, g, starts_before[j], dists_before[j], regions_before[j])
                                && count_true(regions_before[j]) <= count_before);
                        }
                        lemma_first_best_start(*map, w, regions_before, reach@, cnt as int, start);
                    }
                }
                proof {
                    let last = regions.len() - 1;
                    assert(reach@[si as int]);
                    assert(visited@[si as int]);
                    assert(best_count > 0);
                    assert forall|i: int| 0 <= i < n && vis_before[i] implies #[trigger] visited@[i] by {
                        assert(visited@[i] == (old_visited[i] || (i < n && reach@[i])));
                    }
                    assert forall|j: int| 0 <= j < regions.len() implies floor_region(*map, g, #[trigger] starts[j], dists[j], regions[j])
                        && count_true(regions[j]) <= best_count by {
                        assert(count_before <= best_count);
                        if j < last {
                            assert(starts[j] == starts_before[j]);
                            assert(dists[j] == dists_before[j]);
                            assert(regions[j] == regions_before[j]);
                            assert(floor_region(*map, g, starts_before[j], dists_before[j], regions_before[j])
                                && count_true(regions_before[j]) <= count_before);
                        } else {
                            assert(j == last);
                            assert(count_true(regions[j]) == cnt);
                            assert(cnt <= best_count);
                        }
                    }
                    assert(starts[last] == start && regions[last] == reach@ && dists[last] == d@);
                    if cnt <= count_before {
                        lemma_first_best_extend(*map, w, regions_before, reach@, best_j, best_count as int, best_start);
                    }
                    assert forall|i: int| 0 <= i < n && #[trigger] visited@[i] implies exists|j: int| 0 <= j < regions.len() && #[trigger] regions[j][i] by {
                        if old_visited[i] {
                            let j = choose|j: int| 0 <= j < old_regions.len() && #[trigger] old_regions[j][i];
                            assert(regions[j] == old_regions[j]);
                        } else {
                            assert(regions[last][i]);
                        }
                    }
                }
            }
            proof {
                if map.tile_at(start) == TileType::Floor {
                    assert(visited@[si as int]);
                    let j = choose|j: int| 0 <= j < regions.len() && #[trigger] regions[j][si as int];
                    assert(floor_region(*map, g, starts[j], dists[j], regions[j]));
                    lemma_count_true_pos(regions[j], si as int);
                    assert(best_count > 0);
                }
                assert forall|i: int| 0 <= i < n && vis_before[i] implies #[trigger] visited@[i] by {
                }
                assert forall|j: int| 0 <= j < regions.len() implies floor_region(*map, g, #[trigger] starts[j], dists[j], regions[j])
                    && count_true(regions[j]) <= best_count by {
                    if regions.len() == regions_before.len() {
                        assert(starts[j] == starts_before[j]);
                        assert(floor_region(*map, g, starts_before[j], dists_before[j], regions_before[j])
                            && count_true(regions_before[j]) <= count_before);
                    }
                }
                assert forall|t: Position| #[trigger] interior(*map, t) && map.tile_at(t) == TileType::Floor && before_cell(t, y as int, x + 1)
                    implies visited@[grid_index(w, t)] by {
                    if t == start {
                        assert(grid_index(w, t) == si);
                    } else {
                        assert(before_cell(t, y as int, x as int));
                        lemma_grid_index_bounds(w, height as int, t);
                        assert(vis_before[grid_index(w, t)]);
                    }
                }
            }
            x = x + 1;
        }
        proof {
            assert forall|t: Position| #[trigger] interior(*map, t) && map.tile_at(t) == TileType::Floor && before_cell(t, y + 1, 1)
                implies visited@[grid_index(w, t)] by {
                assert(before_cell(t, y as int, x as int));
            }
            if best_count == 0 {
                assert forall|t: Position| #[trigger] interior(*map, t) && before_cell(t, y + 1, 1) implies map.tile_at(t)
                    != TileType::Floor by {
                    assert(before_cell(t, y as int, x as int));
                }
            }
        }
        y = y + 1;
    }
    proof {
        assert forall|t: Position, d: Seq<i32>, q: Seq<bool>| #[trigger] floor_region(*map, g, t, d, q) implies count_true(q)
            <= best_count by {
            assert(before_cell(t, y as int, 1));
            let ti = grid_index(w, t);
            lemma_grid_index_bounds(w, height as int, t);
            assert(visited@[ti]);
            let j = choose|j: int| 0 <= j < regions.len() && #[trigger] regions[j][ti];
            assert(floor_region(*map, g, starts[j], dists[j], regions[j]));
            lemma_grid_index_bounds(w, height as int, starts[j]);
            lemma_reach_same(g, grid_index(w, starts[j]), dists[j], regions[j], ti, d, q);
        }
        if best_count == 0 {
            assert forall|t: Position| #[trigger] interior(*map, t) implies map.tile_at(t) != TileType::Floor by {
                assert(before_cell(t, y as int, 1));
            }
        } else {
            assert forall|t: Position, d2: Seq<i32>, q: Seq<bool>|
                #[trigger] floor_region(*map, g, t, d2, q) && row_major_before(t, best_start) implies count_true(q)
                < best_count by {
                let ti = grid_index(w, t);
                lemma_grid_index_bounds(w, height as int, t);
                assert(before_cell(t, best_start.y as int, best_start.x as int));
                let j = lemma_first_best_holds(*map, w, regions, best_j, best_count as int, best_start, t);
                assert(floor_region(*map, g, starts[j], dists[j], regions[j]));
                lemma_grid_index_bounds(w, height as int, starts[j]);
                lemma_reach_same(g, grid_index(w, starts[j]), dists[j], regions[j], ti, d2, q);
            }
            assert(floor_region(*map, g, best_start, best_d, best@));
        }
    }
    (best, best_count)
}


// ---------------------------------------------------------------------------
// Steps over the whole map

/// The index of the `k`-th neighbour of `p` when it lies on the map.
pub open spec fn grid_step(m: TileMap, p: Position, k: int) -> Seq<usize> {
    let q = neighbor(p, k);
    if m.spec_contains(q) {
        seq![grid_index(m.spec_width(), q) as usize]
    } else {
        seq![]
    }
}

/// The direction looked at `i`-th around a tile: south, north, east, west;
/// or, with `nesw`, north, east, south, west.
pub open spec fn dir_at(nesw: bool, i: int) -> int {
    if !nesw {
        i
    } else if i == 0 {
        1
    } else if i == 1 {
        2
    } else if i == 2 {
        0
    } else {
        3
    }
}

/// The links of cell `u` to its on-map neighbours, whatever their tiles, in
/// the order `nesw` picks.
pub open spec fn grid_links(m: TileMap, u: int, nesw: bool) -> Seq<usize> {
    let p = grid_position(m.spec_width(), u);
    grid_step(m, p, dir_at(nesw, 0)) + grid_step(m, p, dir_at(nesw, 1)) + grid_step(m, p, dir_at(nesw, 2)) + grid_step(
        m,
        p,
        dir_at(nesw, 3),
    )
}

/// The on-map neighbours of every cell, in row-major order.
fn grid_adjacency(map: &TileMap, nesw: bool) -> (adj: Vec<Vec<usize>>)
    requires
        small_map(*map),
    ensures
        adj@.len() == map.spec_width() * map.spec_height(),
        forall|u: int| 0 <= u < adj@.len() ==> (#[trigger] adj@[u])@ == grid_links(*map, u, nesw),
{
    proof {
        map.lemma_wf_len();
    }
    let n = (map.width() * map.height()) as usize;
    let mut adj: Vec<Vec<usize>> = Vec::new();
    let mut i: usize = 0;
    while i < n
        invariant
            small_map(*map),
            n == map.spec_width() * map.spec_height(),
            n <= i32::MAX,
            i <= n,
            adj@.len() == i,
            forall|u: int| 0 <= u < i ==> (#[trigger] adj@[u])@ == grid_links(*map, u, nesw),
        decreases n - i,
    {
        proof {
            lemma_grid_position_roundtrip(map.spec_width(), map.spec_height(), i as int);
        }
        let p = map.position_for_idx(i);
        let mut list: Vec<usize> = Vec::new();
        let mut k: usize = 0;
        while k < 4
            invariant
                small_map(*map),
                map.spec_contains(p),
                k <= 4,
                list@ == (if k == 0 {
                    Seq::<usize>::empty()
                } else if k == 1 {
                    grid_step(*map, p, dir_at(nesw, 0))
                } else if k == 2 {
                    grid_step(*map, p, dir_at(nesw, 0)) + grid_step(*map, p, dir_at(nesw, 1))
                } else if k == 3 {
                    grid_step(*map, p, dir_at(nesw, 0)) + grid_step(*map, p, dir_at(nesw, 1)) + grid_step(
                        *map,
                        p,
                        dir_at(nesw, 2),
                    )
                } else {
                    grid_step(*map, p, dir_at(nesw, 0)) + grid_step(*map, p, dir_at(nesw, 1)) + grid_step(
                        *map,
                        p,
                        dir_at(nesw, 2),
                    ) + grid_step(*map, p, dir_at(nesw, 3))
                }),
            decreases 4 - k,
        {
            let d: usize = if !nesw {
                k
            } else if k == 0 {
                1
            } else if k == 1 {
                2
            } else if k == 2 {
                0
            } else {
                3
            };
            assert(d == dir_at(nesw, k as int));
            let q = if d == 0 {
                Position::new(p.x, p.y + 1)
            } else if d == 1 {
                Position::new(p.x, p.y - 1)
            } else if d == 2 {
                Position::new(p.x + 1, p.y)
            } else {
                Position::new(p.x - 1, p.y)
            };
            assert(q == neighbor(p, d as int));
            let ghost before = list@;
            if map.contains(q) {
                let qi = map.idx(q);
                list.push(qi);
            }
            assert(list@ =~= before + grid_step(*map, p, dir_at(nesw, k as int)));
            k = k + 1;
        }
        adj.push(list);
        i = i + 1;
    }
    adj
}

/// The cell of the index of an on-map position is that position.
proof fn lemma_position_of_index(m: TileMap, p: Position)
    requires
        small_map(m),
        m.spec_contains(p),
    ensures
        0 <= grid_index(m.spec_width(), p) < m.spec_width() * m.spec_height(),
        grid_position(m.spec_width(), grid_index(m.spec_width(), p)) == p,
{
    let w = m.spec_width();
    let h = m.spec_height();
    m.lemma_wf_len();
    lemma_grid_index_bounds(w, h, p);
    let i = grid_index(w, p);
    lemma_grid_position_roundtrip(w, h, i);
    if grid_position(w, i) != p {
        lemma_grid_index_injective(w, grid_position(w, i), p);
    }
}

/// Every link of a cell leads to an on-map neighbour of it.
proof fn lemma_grid_link_is_step(m: TileMap, u: int, j: int, nesw: bool) -> (kk: int)
    requires
        small_map(m),
        0 <= u < m.spec_width() * m.spec_height(),
        0 <= j < grid_links(m, u, nesw).len(),
    ensures
        0 <= kk < 4,
        m.spec_contains(neighbor(grid_position(m.spec_width(), u), kk)),
        grid_links(m, u, nesw)[j] as int == grid_index(m.spec_width(), neighbor(grid_position(m.spec_width(), u), kk)),
{
    let w = m.spec_width();
    let h = m.spec_height();
    m.lemma_wf_len();
    let p = grid_position(w, u);
    let a = grid_step(m, p, dir_at(nesw, 0));
    let b = grid_step(m, p, dir_at(nesw, 1));
    let c = grid_step(m, p, dir_at(nesw, 2));
    let d = grid_step(m, p, dir_at(nesw, 3));
    let l = a + b + c + d;
    let seg: int = if j < a.len() {
        0
    } else if j < a.len() + b.len() {
        1
    } else if j < a.len() + b.len() + c.len() {
        2
    } else {
        3
    };
    if j < a.len() {
        assert(l[j] == a[j]);
    } else if j < a.len() + b.len() {
        assert(l[j] == b[j - a.len()]);
    } else if j < a.len() + b.len() + c.len() {
        assert(l[j] == c[j - a.len() - b.len()]);
    } else {
        assert(l[j] == d[j - a.len() - b.len() - c.len()]);
    }
    let kk = dir_at(nesw, seg);
    let q = neighbor(p, kk);
    lemma_grid_index_bounds(w, h, q);
    kk
}

/// An on-map neighbour of a cell is among its links.
proof fn lemma_grid_step_is_link(m: TileMap, p: Position, kk: int, nesw: bool) -> (j: int)
    requires
        small_map(m),
        m.spec_contains(p),
        0 <= kk < 4,
        m.spec_contains(neighbor(p, kk)),
    ensures
        0 <= j < grid_links(m, grid_index(m.spec_width(), p), nesw).len(),
        grid_links(m, grid_index(m.spec_width(), p), nesw)[j] as int == grid_index(m.spec_width(), neighbor(p, kk)),
{
    let w = m.spec_width();
    let h = m.spec_height();
    m.lemma_wf_len();
    lemma_position_of_index(m, p);
    lemma_grid_index_bounds(w, h, neighbor(p, kk));
    let a = grid_step(m, p, dir_at(nesw, 0));
    let b = grid_step(m, p, dir_at(nesw, 1));
    let c = grid_step(m, p, dir_at(nesw, 2));
    let d = grid_step(m, p, dir_at(nesw, 3));
    let l = a + b + c + d;
    assert(grid_links(m, grid_index(w, p), nesw) == l);
    let seg: int = if !nesw {
        kk
    } else if kk == 1 {
        0
    } else if kk == 2 {
        1
    } else if kk == 0 {
        2
    } else {
        3
    };
    assert(dir_at(nesw, seg) == kk);
    assert(grid_step(m, p, kk) == seq![grid_index(w, neighbor(p, kk)) as usize]);
    assert((grid_index(w, neighbor(p, kk)) as usize) as int == grid_index(w, neighbor(p, kk)));
    if seg == 0 {
        assert(l[0] == a[0]);
        0
    } else if seg == 1 {
        assert(l[a.len() as int] == b[0]);
        a.len() as int
    } else if seg == 2 {
        assert(l[(a.len() + b.len()) as int] == c[0]);
        (a.len() + b.len()) as int
    } else {
        assert(l[(a.len() + b.len() + c.len()) as int] == d[0]);
        (a.len() + b.len() + c.len()) as int
    }
}

/// The map links are in range.
proof fn lemma_grid_links_ok(m: TileMap, adj: Seq<Vec<usize>>, nesw: bool)
    requires
        small_map(m),
        adj.len() == m.spec_width() * m.spec_height(),
        forall|u: int| 0 <= u < adj.len() ==> (#[trigger] adj[u])@ == grid_links(m, u, nesw),
    ensures
        adj_ok(adj),
        adj.len() <= i32::MAX,
{
    m.lemma_wf_len();
    assert forall|u: int, k: int| 0 <= u < adj.len() && 0 <= k < adj[u]@.len() implies (#[trigger] adj[u]@[k] as int)
        < adj.len() by {
        let kk = lemma_grid_link_is_step(m, u, k, nesw);
        lemma_grid_position_roundtrip(m.spec_width(), m.spec_height(), u);
        lemma_grid_index_bounds(m.spec_width(), m.spec_height(), neighbor(grid_position(m.spec_width(), u), kk));
    }
}

/// A search over the whole map from `t` reaches every tile, in at most as
/// many steps as its Manhattan distance from `t`.
proof fn lemma_grid_reach(
    m: TileMap,
    adj: Seq<Vec<usize>>,
    t: Position,
    d: Seq<i32>,
    r: Seq<bool>,
    q: Position,
    nesw: bool,
)
    requires
        small_map(m),
        adj.len() == m.spec_width() * m.spec_height(),
        forall|u: int| 0 <= u < adj.len() ==> (#[trigger] adj[u])@ == grid_links(m, u, nesw),
        m.spec_contains(t),
        m.spec_contains(q),
        bfs_field(adj, grid_index(m.spec_width(), t), d, r),
    ensures
        r[grid_index(m.spec_width(), q)],
        d[grid_index(m.spec_width(), q)] <= manhattan(t, q),
    decreases manhattan(t, q),
{
    let w = m.spec_width();
    if q != t {
        let (prev, kk): (Position, int) = if q.x < t.x {
            (Position { x: (q.x + 1) as i32, y: q.y }, 3int)
        } else if q.x > t.x {
            (Position { x: (q.x - 1) as i32, y: q.y }, 2int)
        } else if q.y < t.y {
            (Position { x: q.x, y: (q.y + 1) as i32 }, 1int)
        } else {
            (Position { x: q.x, y: (q.y - 1) as i32 }, 0int)
        };
        assert(neighbor(prev, kk) == q);
        assert(manhattan(t, prev) == manhattan(t, q) - 1);
        lemma_grid_reach(m, adj, t, d, r, prev, nesw);
        let j = lemma_grid_step_is_link(m, prev, kk, nesw);
        lemma_position_of_index(m, prev);
        let u = grid_index(w, prev);
        assert(adj[u]@[j] as int == grid_index(w, q));
    }
}

/// Steps over the whole map are never fewer than the Manhattan distance.
proof fn lemma_grid_dist_lower(
    m: TileMap,
    adj: Seq<Vec<usize>>,
    t: Position,
    d: Seq<i32>,
    r: Seq<bool>,
    v: int,
    nesw: bool,
)
    requires
        small_map(m),
        adj.len() == m.spec_width() * m.spec_height(),
        forall|u: int| 0 <= u < adj.len() ==> (#[trigger] adj[u])@ == grid_links(m, u, nesw),
        m.spec_contains(t),
        bfs_field(adj, grid_index(m.spec_width(), t), d, r),
        0 <= v < adj.len(),
        r[v],
    ensures
        d[v] >= manhattan(t, grid_position(m.spec_width(), v)),
    decreases d[v],
{
    let w = m.spec_width();
    lemma_position_of_index(m, t);
    if v != grid_index(w, t) {
        assert(exists|u: int, k: int|
            0 <= u < adj.len() && r[u] && 0 <= k < adj[u]@.len() && #[trigger] adj[u]@[k] == v && d[v] == d[u] + 1);
        let (u, k) = choose|u: int, k: int|
            0 <= u < adj.len() && r[u] && 0 <= k < adj[u]@.len() && #[trigger] adj[u]@[k] == v && d[v] == d[u] + 1;
        assert(0 <= d[u]);
        lemma_grid_dist_lower(m, adj, t, d, r, u, nesw);
        lemma_dist_step(m, adj, t, u, k, v, nesw);
    }
}

/// One link moves at most one tile in Manhattan distance from `t`.
proof fn lemma_dist_step(m: TileMap, adj: Seq<Vec<usize>>, t: Position, u: int, k: int, v: int, nesw: bool)
    requires
        small_map(m),
        adj.len() == m.spec_width() * m.spec_height(),
        forall|u: int| 0 <= u < adj.len() ==> (#[trigger] adj[u])@ == grid_links(m, u, nesw),
        0 <= u < adj.len(),
        0 <= k < adj[u]@.len(),
        adj[u]@[k] as int == v,
    ensures
        manhattan(t, grid_position(m.spec_width(), v)) <= manhattan(t, grid_position(m.spec_width(), u)) + 1,
{
    let w = m.spec_width();
    m.lemma_wf_len();
    lemma_grid_position_roundtrip(w, m.spec_height(), u);
    assert(adj[u]@ == grid_links(m, u, nesw));
    let kk = lemma_grid_link_is_step(m, u, k, nesw);
    let pu = grid_position(w, u);
    let q = neighbor(pu, kk);
    lemma_position_of_index(m, q);
    assert(grid_position(w, v) == q);
}

/// The facts of a search over the whole map from `target`, looking at
/// neighbours in the order `nesw` picks, that a nearest-tile scan relies on.
pub open spec fn grid_search(
    m: TileMap,
    g: Seq<Vec<usize>>,
    target: Position,
    dist: Seq<i32>,
    reach: Seq<bool>,
    order: Seq<usize>,
    nesw: bool,
) -> bool {
    &&& small_map(m)
    &&& g.len() == m.spec_width() * m.spec_height()
    &&& forall|u: int| 0 <= u < g.len() ==> (#[trigger] g[u])@ == grid_links(m, u, nesw)
    &&& m.spec_contains(target)
    &&& bfs_field(g, grid_index(m.spec_width(), target), dist, reach)
    &&& forall|u: int| 0 <= u < order.len() ==> (#[trigger] order[u] as int) < g.len()
    &&& forall|v: int| 0 <= v < g.len() ==> (#[trigger] order.contains(v as usize) <==> reach[v])
    &&& forall|a: int, b: int| 0 <= a <= b < order.len() ==> dist[#[trigger] order[a] as int] <= dist[
        #[trigger] order[b] as int]
}

/// Every tile appears in the search order.
proof fn lemma_grid_in_order(
    m: TileMap,
    g: Seq<Vec<usize>>,
    target: Position,
    dist: Seq<i32>,
    reach: Seq<bool>,
    order: Seq<usize>,
    nesw: bool,
    q: Position,
) -> (j: int)
    requires
        grid_search(m, g, target, dist, reach, order, nesw),
        m.spec_contains(q),
    ensures
        0 <= j < order.len(),
        order[j] as int == grid_index(m.spec_width(), q),
        grid_position(m.spec_width(), order[j] as int) == q,
{
    let w = m.spec_width();
    m.lemma_wf_len();
    lemma_grid_reach(m, g, target, dist, reach, q, nesw);
    lemma_position_of_index(m, q);
    let qi = grid_index(w, q);
    assert((qi as usize) as int == qi);
    assert(order.contains(qi as usize));
    let j = choose|j: int| 0 <= j < order.len() && order[j] == qi as usize;
    j
}

/// The first tile in the search order that `good` picks is a nearest one
/// among those it picks.
proof fn lemma_first_good_nearest(
    m: TileMap,
    g: Seq<Vec<usize>>,
    target: Position,
    dist: Seq<i32>,
    reach: Seq<bool>,
    order: Seq<usize>,
    nesw: bool,
    good: spec_fn(Position) -> bool,
    i: int,
)
    requires
        grid_search(m, g, target, dist, reach, order, nesw),
        0 <= i < order.len(),
        forall|j: int| 0 <= j < i ==> !good(grid_position(m.spec_width(), #[trigger] order[j] as int)),
    ensures
        forall|q: Position| #[trigger] m.spec_contains(q) && good(q) ==> manhattan(
            target,
            grid_position(m.spec_width(), order[i] as int),
        ) <= manhattan(target, q),
{
    let w = m.spec_width();
    assert forall|q: Position| #[trigger] m.spec_contains(q) && good(q) implies manhattan(
        target,
        grid_position(w, order[i] as int),
    ) <= manhattan(target, q) by {
        let j = lemma_grid_in_order(m, g, target, dist, reach, order, nesw, q);
        assert(j >= i);
        assert(dist[order[i] as int] <= dist[order[j] as int]);
        lemma_grid_reach(m, g, target, dist, reach, q, nesw);
        assert(order.contains(order[i]));
        assert((order[i] as int) as usize == order[i]);
        lemma_grid_dist_lower(m, g, target, dist, reach, order[i] as int, nesw);
    }
}

/// A search order without a tile that `good` picks means a map without one.
proof fn lemma_none_good(
    m: TileMap,
    g: Seq<Vec<usize>>,
    target: Position,
    dist: Seq<i32>,
    reach: Seq<bool>,
    order: Seq<usize>,
    nesw: bool,
    good: spec_fn(Position) -> bool,
)
    requires
        grid_search(m, g, target, dist, reach, order, nesw),
        forall|j: int| 0 <= j < order.len() ==> !good(grid_position(m.spec_width(), #[trigger] order[j] as int)),
    ensures
        forall|q: Position| #[trigger] m.spec_contains(q) ==> !good(q),
{
    assert forall|q: Position| #[trigger] m.spec_contains(q) implies !good(q) by {
        let j = lemma_grid_in_order(m, g, target, dist, reach, order, nesw, q);
    }
}

/// The floor tile nearest to `target` by Manhattan distance, searching
/// outward from `target` over the map; `None` when the map has no floor.
fn find_nearest_floor(map: &TileMap, target: Position) -> (r: Option<Position>)
    requires
        small_map(*map),
        map.spec_contains(target),
    ensures
        match r {
            Some(p) => {
                &&& map.spec_contains(p)
                &&& map.tile_at(p) == TileType::Floor
                &&& forall|q: Position| #[trigger] map.spec_contains(q) && map.tile_at(q) == TileType::Floor ==> manhattan(
                    target,
                    p,
                ) <= manhattan(target, q)
            },
            None => forall|q: Position| #[trigger] map.spec_contains(q) ==> map.tile_at(q) != TileType::Floor,
        },
{
    let adj = grid_adjacency(map, false);
    proof {
        lemma_grid_links_ok(*map, adj@, false);
        lemma_position_of_index(*map, target);
        map.lemma_wf_len();
    }
    let ti = map.idx(target);
    let (dist, reach, order) = bfs_distances(ti, &adj);
    let ghost w = map.spec_width();
    let ghost g = adj@;
    proof {
        assert(grid_search(*map, g, target, dist@, reach@, order@, false));
    }
    let mut i: usize = 0;
    while i < order.len()
        invariant
            small_map(*map),
            w == map.spec_width(),
            g == adj@,
            g.len() == map.spec_width() * map.spec_height(),
            g.len() <= i32::MAX,
            grid_search(*map, g, target, dist@, reach@, order@, false),
            i <= order@.len(),
            forall|j: int| 0 <= j < i ==> map.tile_at(grid_position(w, #[trigger] order@[j] as int)) != TileType::Floor,
        decreases order@.len() - i,
    {
        let p = map.position_for_idx(order[i]);
        proof {
            lemma_grid_position_roundtrip(w, map.spec_height(), order@[i as int] as int);
        }
        if map.tile(p) == TileType::Floor {
            proof {
                lemma_first_good_nearest(
                    *map,
                    g,
                    target,
                    dist@,
                    reach@,
                    order@,
                    false,
                    |q: Position| map.tile_at(q) == TileType::Floor,
                    i as int,
                );
            }
            return Some(p);
        }
        i = i + 1;
    }
    proof {
        lemma_none_good(*map, g, target, dist@, reach@, order@, false, |q: Position| map.tile_at(q) == TileType::Floor);
    }
    None
}

/// `v` moved into `0..=hi`.
pub open spec fn clamped(v: int, hi: int) -> int {
    if v < 0 {
        0
    } else if v > hi {
        hi
    } else {
        v
    }
}

/// Whether an entity can be placed on `q`: walkable, and no entity there.
pub open spec fn open_tile(map: TileMap, occupied: Seq<Position>, q: Position) -> bool {
    map.walkable_at(q) && !occupied.contains(q)
}

/// Whether `pos` is among the listed positions.
fn listed(positions: &Vec<Position>, pos: Position) -> (b: bool)
    ensures
        b == positions@.contains(pos),
{
    let mut i: usize = 0;
    while i < positions.len()
        invariant
            i <= positions@.len(),
            forall|t: int| 0 <= t < i ==> positions@[t] != pos,
        decreases positions@.len() - i,
    {
        if positions[i] == pos {
            return true;
        }
        i = i + 1;
    }
    false
}

/// The open tile nearest to `preferred` moved onto the map, by Manhattan
/// distance: the first walkable tile without an entity (at `occupied`) that
/// a search outward over the map reaches, looking north, east, south and
/// west in turn; `None` on an empty map or when no tile is open.
pub fn nearest_open_floor(map: &TileMap, occupied: &Vec<Position>, preferred: Position) -> (r: Option<Position>)
    requires
        map.wf(),
        map.spec_width() < i32::MAX,
        map.spec_height() < i32::MAX,
    ensures
        map.spec_width() == 0 || map.spec_height() == 0 ==> r is None,
        0 < map.spec_width() && 0 < map.spec_height() ==> {
            let start = Position {
                x: clamped(preferred.x as int, map.spec_width() - 1) as i32,
                y: clamped(preferred.y as int, map.spec_height() - 1) as i32,
            };
            match r {
                Some(p) => {
                    &&& map.spec_contains(p)
                    &&& open_tile(*map, occupied@, p)
                    &&& forall|q: Position| #[trigger] map.spec_contains(q) && open_tile(*map, occupied@, q)
                        ==> manhattan(start, p) <= manhattan(start, q)
                },
                None => forall|q: Position| #[trigger] map.spec_contains(q) ==> !open_tile(*map, occupied@, q),
            }
        },
{
    proof {
        map.lemma_wf_len();
    }
    let width = map.width();
    let height = map.height();
    if width <= 0 || height <= 0 {
        return None;
    }
    let sx = if preferred.x < 0 {
        0
    } else if preferred.x > width - 1 {
        width - 1
    } else {
        preferred.x
    };
    let sy = if preferred.y < 0 {
        0
    } else if preferred.y > height - 1 {
        height - 1
    } else {
        preferred.y
    };
    let start = Position::new(sx, sy);
    assert(start == Position {
        x: clamped(preferred.x as int, map.spec_width() - 1) as i32,
        y: clamped(preferred.y as int, map.spec_height() - 1) as i32,
    });
    let adj = grid_adjacency(map, true);
    proof {
        lemma_grid_links_ok(*map, adj@, true);
        lemma_position_of_index(*map, start);
    }
    let si = map.idx(start);
    let (dist, reach, order) = bfs_distances(si, &adj);
    let ghost w = map.spec_width();
    let ghost g = adj@;
    let ghost good = |q: Position| open_tile(*map, occupied@, q);
    proof {
        assert(grid_search(*map, g, start, dist@, reach@, order@, true));
    }
    let mut i: usize = 0;
    while i < order.len()
        invariant
            small_map(*map),
            w == map.spec_width(),
            g == adj@,
            g.len() == map.spec_width() * map.spec_height(),
            g.len() <= i32::MAX,
            grid_search(*map, g, start, dist@, reach@, order@, true),
            good == (|q: Position| open_tile(*map, occupied@, q)),
            start == (Position {
                x: clamped(preferred.x as int, map.spec_width() - 1) as i32,
                y: clamped(preferred.y as int, map.spec_height() - 1) as i32,
            }),
            0 < map.spec_width(),
            0 < map.spec_height(),
            i <= order@.len(),
            forall|j: int| 0 <= j < i ==> !good(grid_position(w, #[trigger] order@[j] as int)),
        decreases order@.len() - i,
    {
        let p = map.position_for_idx(order[i]);
        proof {
            lemma_grid_position_roundtrip(w, map.spec_height(), order@[i as int] as int);
        }
        if map.is_walkable(p) && !listed(occupied, p) {
            proof {
                lemma_first_good_nearest(*map, g, start, dist@, reach@, order@, true, good, i as int);
                assert(p == grid_position(w, order@[i as int] as int));
                assert(open_tile(*map, occupied@, p));
                assert forall|q: Position| #[trigger] map.spec_contains(q) && open_tile(*map, occupied@, q) implies manhattan(
                    start,
                    p,
                ) <= manhattan(start, q) by {
                    assert(good(q));
                }
            }
            return Some(p);
        }
        i = i + 1;
    }
    proof {
        lemma_none_good(*map, g, start, dist@, reach@, order@, true, good);
    }
    None
}

/// The tile a search from `start` along the floor links reaches last: no
/// tile it reaches takes more steps.
fn find_farthest_floor(map: &TileMap, adj: &Vec<Vec<usize>>, start: Position) -> (p: Position)
    requires
        small_map(*map),
        map.spec_contains(start),
        adj@.len() == map.spec_width() * map.spec_height(),
        forall|u: int| 0 <= u < adj@.len() ==> (#[trigger] adj@[u])@ == floor_links(*map, u),
    ensures
        map.spec_contains(p),
        exists|d: Seq<i32>, r: Seq<bool>|
            {
                &&& bfs_field(adj@, grid_index(map.spec_width(), start), d, r)
                &&& r[grid_index(map.spec_width(), p)]
                &&& forall|v: int| 0 <= v < adj@.len() && r[v] ==> #[trigger] d[v] <= d[grid_index(map.spec_width(), p)]
            },
{
    proof {
        lemma_floor_links(*map, adj@);
        lemma_position_of_index(*map, start);
        map.lemma_wf_len();
    }
    let si = map.idx(start);
    let (dist, reach, order) = bfs_distances(si, adj);
    let last = order[order.len() - 1];
    proof {
        lemma_grid_position_roundtrip(map.spec_width(), map.spec_height(), last as int);
    }
    let p = map.position_for_idx(last);
    proof {
        let w = map.spec_width();
        let li = order@.len() - 1;
        assert(grid_index(w, p) == last);
        assert forall|v: int| 0 <= v < adj@.len() && reach@[v] implies #[trigger] dist@[v] <= dist@[grid_index(w, p)] by {
            assert(order@.contains(v as usize));
            let j = choose|j: int| 0 <= j < order@.len() && order@[j] == v as usize;
            assert(dist@[order@[j] as int] <= dist@[order@[li] as int]);
        }
        assert(reach@[last as int]) by {
            assert(order@.contains(last));
            assert((last as int) as usize == last);
        }
    }
    p
}


// ---------------------------------------------------------------------------
// Enemy placement

/// `c` after swapping, for each index `i` below `upto` in turn, the items at
/// `i` and at `swaps[i]`.
pub open spec fn shuffled(c: Seq<Position>, swaps: Seq<usize>, upto: int) -> Seq<Position>
    decreases upto,
{
    if upto <= 0 {
        c
    } else {
        let s = shuffled(c, swaps, upto - 1);
        let i = upto - 1;
        let j = swaps[i] as int;
        s.update(i, s[j]).update(j, s[i])
    }
}

/// `p` is at least `gap` steps from every chosen position.
pub open spec fn far_from_all(chosen: Seq<Position>, p: Position, gap: int) -> bool {
    forall|k: int| 0 <= k < chosen.len() ==> manhattan(#[trigger] chosen[k], p) >= gap
}

/// Going through `c` in order, each position is taken while fewer than
/// `count` are taken and it is at least five steps from all taken ones.
pub open spec fn spread_picks(c: Seq<Position>, count: int) -> Seq<Position>
    decreases c.len(),
{
    if c.len() == 0 {
        seq![]
    } else {
        let prev = spread_picks(c.drop_last(), count);
        if prev.len() < count && far_from_all(prev, c.last(), 5) {
            prev.push(c.last())
        } else {
            prev
        }
    }
}

/// Swapping keeps the length and takes every item from the original.
proof fn lemma_shuffled_items(c: Seq<Position>, swaps: Seq<usize>, upto: int)
    requires
        0 <= upto <= c.len(),
        swaps.len() == c.len(),
        forall|i: int| 0 <= i < swaps.len() ==> (#[trigger] swaps[i] as int) < c.len(),
    ensures
        shuffled(c, swaps, upto).len() == c.len(),
        forall|i: int| 0 <= i < c.len() ==> c.contains(#[trigger] shuffled(c, swaps, upto)[i]),
    decreases upto,
{
    if upto > 0 {
        lemma_shuffled_items(c, swaps, upto - 1);
        let s = shuffled(c, swaps, upto - 1);
        let j = swaps[upto - 1] as int;
        assert forall|i: int| 0 <= i < c.len() implies c.contains(#[trigger] shuffled(c, swaps, upto)[i]) by {
            let t = shuffled(c, swaps, upto);
            if i == j {
                assert(t[i] == s[upto - 1]);
                assert(c.contains(s[upto - 1]));
            } else if i == upto - 1 {
                assert(t[i] == s[j]);
                assert(c.contains(s[j]));
            } else {
                assert(t[i] == s[i]);
                assert(c.contains(s[i]));
            }
        }
    }
}

/// The picks are at most `count`, taken from `c`, and pairwise at least five
/// steps apart.
pub proof fn lemma_spread_picks(c: Seq<Position>, count: int)
    requires
        0 <= count,
    ensures
        spread_picks(c, count).len() <= count,
        forall|i: int| 0 <= i < spread_picks(c, count).len() ==> c.contains(#[trigger] spread_picks(c, count)[i]),
        forall|a: int, b: int|
            0 <= a < b < spread_picks(c, count).len() ==> manhattan(
                #[trigger] spread_picks(c, count)[a],
                #[trigger] spread_picks(c, count)[b],
            ) >= 5,
    decreases c.len(),
{
    if c.len() > 0 {
        let d = c.drop_last();
        lemma_spread_picks(d, count);
        let prev = spread_picks(d, count);
        let picks = spread_picks(c, count);
        assert forall|i: int| 0 <= i < picks.len() implies c.contains(#[trigger] picks[i]) by {
            if i < prev.len() {
                assert(picks[i] == prev[i]);
                assert(d.contains(prev[i]));
                let k = choose|k: int| 0 <= k < d.len() && d[k] == prev[i];
                assert(c[k] == prev[i]);
            } else {
                assert(picks[i] == c.last());
                assert(c[c.len() - 1] == c.last());
            }
        }
        assert forall|a: int, b: int| 0 <= a < b < picks.len() implies manhattan(
            #[trigger] picks[a],
            #[trigger] picks[b],
        ) >= 5 by {
            if b < prev.len() {
                assert(picks[a] == prev[a] && picks[b] == prev[b]);
            } else {
                assert(picks[a] == prev[a]);
                assert(picks[b] == c.last());
                assert(far_from_all(prev, c.last(), 5));
            }
        }
    }
}

/// The enemy positions: `candidates` shuffled by the swaps, then taken in
/// turn while fewer than `count` are taken and each is at least five steps
/// from those already taken.
pub fn pick_spawns(candidates: &Vec<Position>, swaps: &Vec<usize>, count: u64) -> (spawns: Vec<Position>)
    requires
        swaps@.len() == candidates@.len(),
        forall|i: int| 0 <= i < swaps@.len() ==> (#[trigger] swaps@[i] as int) < candidates@.len(),
        forall|i: int, j: int|
            0 <= i < candidates@.len() && 0 <= j < candidates@.len() ==> manhattan(
                #[trigger] candidates@[i],
                #[trigger] candidates@[j],
            ) <= i32::MAX,
    ensures
        spawns@ == spread_picks(shuffled(candidates@, swaps@, candidates@.len() as int), count as int),
        spawns@.len() <= count,
        forall|i: int| 0 <= i < spawns@.len() ==> candidates@.contains(#[trigger] spawns@[i]),
        forall|a: int, b: int| 0 <= a < b < spawns@.len() ==> manhattan(#[trigger] spawns@[a], #[trigger] spawns@[b]) >= 5,
{
    let ghost orig = candidates@;
    let n = candidates.len();
    let mut c: Vec<Position> = Vec::new();
    let mut i: usize = 0;
    while i < n
        invariant
            n == orig.len(),
            orig == candidates@,
            i <= n,
            c@ == orig.take(i as int),
        decreases n - i,
    {
        c.push(candidates[i]);
        assert(c@ =~= orig.take(i + 1));
        i = i + 1;
    }
    assert(c@ =~= shuffled(orig, swaps@, 0));
    let mut i: usize = 0;
    while i < n
        invariant
            n == orig.len(),
            swaps@.len() == n,
            forall|k: int| 0 <= k < swaps@.len() ==> (#[trigger] swaps@[k] as int) < n,
            i <= n,
            c@ == shuffled(orig, swaps@, i as int),
        decreases n - i,
    {
        proof {
            lemma_shuffled_items(orig, swaps@, i as int);
        }
        let j = swaps[i];
        let a = c[i];
        let b = c[j];
        c.set(i, b);
        c.set(j, a);
        i = i + 1;
    }
    proof {
        lemma_shuffled_items(orig, swaps@, n as int);
    }
    let ghost sh = c@;
    let mut spawns: Vec<Position> = Vec::new();
    let mut k: usize = 0;
    while k < n
        invariant
            n == orig.len(),
            sh == c@,
            sh.len() == n,
            forall|t: int| 0 <= t < n ==> orig.contains(#[trigger] sh[t]),
            forall|a: int, b: int|
                0 <= a < orig.len() && 0 <= b < orig.len() ==> manhattan(#[trigger] orig[a], #[trigger] orig[b])
                    <= i32::MAX,
            k <= n,
            spawns@ == spread_picks(sh.take(k as int), count as int),
        decreases n - k,
    {
        let pos = c[k];
        assert(sh.take(k + 1).drop_last() =~= sh.take(k as int));
        assert(sh.take(k + 1).last() == pos);
        proof {
            lemma_spread_picks(sh.take(k as int), count as int);
        }
        if (spawns.len() as u64) < count {
            let mut far = true;
            let mut t: usize = 0;
            while t < spawns.len()
                invariant
                    t <= spawns@.len(),
                    forall|u: int| 0 <= u < spawns@.len() ==> sh.take(k as int).contains(#[trigger] spawns@[u]),
                    forall|u: int| 0 <= u < n ==> orig.contains(#[trigger] sh[u]),
                    0 <= k < n,
                    sh.len() == n,
                    pos == sh[k as int],
                    forall|a: int, b: int|
                        0 <= a < orig.len() && 0 <= b < orig.len() ==> manhattan(#[trigger] orig[a], #[trigger] orig[b])
                            <= i32::MAX,
                    far == far_from_all(spawns@.take(t as int), pos, 5),
                decreases spawns@.len() - t,
            {
                let s = spawns[t];
                proof {
                    assert(sh.take(k as int).contains(s));
                    let u = choose|u: int| 0 <= u < k && sh.take(k as int)[u] == s;
                    assert(sh[u] == s);
                    let ia = choose|ia: int| 0 <= ia < orig.len() && orig[ia] == s;
                    let ib = choose|ib: int| 0 <= ib < orig.len() && orig[ib] == pos;
                    assert(manhattan(orig[ia], orig[ib]) <= i32::MAX);
                }
                let dist = s.manhattan_distance(pos);
                if dist < 5 {
                    far = false;
                }
                proof {
                    let before = spawns@.take(t as int);
                    let after = spawns@.take(t + 1);
                    assert(after =~= before.push(s));
                    assert(after[t as int] == s);
                    if far_from_all(before, pos, 5) && dist >= 5 {
                        assert forall|u: int| 0 <= u < after.len() implies manhattan(#[trigger] after[u], pos) >= 5 by {
                            if u < t {
                                assert(after[u] == before[u]);
                            }
                        }
                    }
                    if !far_from_all(before, pos, 5) {
                        let u = choose|u: int| 0 <= u < before.len() && !(manhattan(#[trigger] before[u], pos) >= 5);
                        assert(after[u] == before[u]);
                    }
                }
                t = t + 1;
            }
            assert(spawns@.take(spawns@.len() as int) =~= spawns@);
            if far {
                spawns.push(pos);
            }
        }
        k = k + 1;
    }
    assert(sh.take(n as int) =~= sh);
    proof {
        lemma_spread_picks(sh, count as int);
        assert forall|i: int| 0 <= i < spawns@.len() implies orig.contains(#[trigger] spawns@[i]) by {
            assert(sh.contains(spawns@[i]));
            let t = choose|t: int| 0 <= t < sh.len() && sh[t] == spawns@[i];
            assert(orig.contains(sh[t]));
        }
    }
    spawns
}


// ---------------------------------------------------------------------------
// Laying out the cave

/// Every tile on the one-tile border is a wall.
pub open spec fn border_walls(m: TileMap) -> bool {
    forall|p: Position| #[trigger] m.spec_contains(p) && !interior(m, p) ==> m.tile_at(p) == TileType::Wall
}

/// The middle tile of the map.
pub open spec fn map_center(m: TileMap) -> Position {
    Position { x: (m.spec_width() / 2) as i32, y: (m.spec_height() / 2) as i32 }
}

/// A cave before its enemies are placed: the map with its stairs, where the
/// player starts (on the stairs up), the stairs down, and the region tiles
/// far enough from the start for an enemy, in row-major order.
pub struct CaveLayout {
    pub map: TileMap,
    pub player_start: Position,
    pub stairs_down: Position,
    pub candidates: Vec<Position>,
}

/// Every link of a floor cell leads to an on-map floor neighbour.
proof fn lemma_floor_link_is_floor(m: TileMap, u: int, j: int)
    requires
        small_map(m),
        0 <= u < m.spec_width() * m.spec_height(),
        0 <= j < floor_links(m, u).len(),
    ensures
        m.tile_at(grid_position(m.spec_width(), u)) == TileType::Floor,
        m.spec_contains(grid_position(m.spec_width(), floor_links(m, u)[j] as int)),
        m.tile_at(grid_position(m.spec_width(), floor_links(m, u)[j] as int)) == TileType::Floor,
        steps_to(grid_position(m.spec_width(), u), grid_position(m.spec_width(), floor_links(m, u)[j] as int)),
{
    let w = m.spec_width();
    m.lemma_wf_len();
    lemma_grid_position_roundtrip(w, m.spec_height(), u);
    let p = grid_position(w, u);
    let a = floor_step(m, p, 0);
    let b = floor_step(m, p, 1);
    let c = floor_step(m, p, 2);
    let d = floor_step(m, p, 3);
    let l = a + b + c + d;
    let kk: int = if j < a.len() {
        0
    } else if j < a.len() + b.len() {
        1
    } else if j < a.len() + b.len() + c.len() {
        2
    } else {
        3
    };
    if j < a.len() {
        assert(l[j] == a[j]);
    } else if j < a.len() + b.len() {
        assert(l[j] == b[j - a.len()]);
    } else if j < a.len() + b.len() + c.len() {
        assert(l[j] == c[j - a.len() - b.len()]);
    } else {
        assert(l[j] == d[j - a.len() - b.len() - c.len()]);
    }
    let q = neighbor(p, kk);
    assert(m.spec_contains(q) && m.tile_at(q) == TileType::Floor);
    lemma_position_of_index(m, q);
    assert(floor_links(m, u)[j] as int == grid_index(w, q));
}

/// A search along the floor links reaches only its start and floor tiles.
proof fn lemma_floor_reach(m: TileMap, adj: Seq<Vec<usize>>, s: int, d: Seq<i32>, r: Seq<bool>, v: int)
    requires
        small_map(m),
        adj.len() == m.spec_width() * m.spec_height(),
        forall|u: int| 0 <= u < adj.len() ==> (#[trigger] adj[u])@ == floor_links(m, u),
        0 <= s < adj.len(),
        bfs_field(adj, s, d, r),
        0 <= v < adj.len(),
        r[v],
        v != s,
    ensures
        m.tile_at(grid_position(m.spec_width(), v)) == TileType::Floor,
{
    let (u, k) = choose|u: int, k: int|
        0 <= u < adj.len() && r[u] && 0 <= k < adj[u]@.len() && #[trigger] adj[u]@[k] == v && d[v] == d[u] + 1;
    assert(adj[u]@ == floor_links(m, u));
    lemma_floor_link_is_floor(m, u, k);
}

/// On a map with walls all around, floor tiles are inner tiles.
proof fn lemma_floor_inside(m: TileMap, p: Position)
    requires
        border_walls(m),
        m.spec_contains(p),
        m.tile_at(p) != TileType::Wall,
    ensures
        interior(m, p),
{
}

/// The tiles of the largest region are floor tiles of the map it was found on.
proof fn lemma_region_floor(m: TileMap, adj: Seq<Vec<usize>>, mask: Seq<bool>, count: int, i: int)
    requires
        small_map(m),
        adj.len() == m.spec_width() * m.spec_height(),
        forall|u: int| 0 <= u < adj.len() ==> (#[trigger] adj[u])@ == floor_links(m, u),
        mask.len() == adj.len(),
        count == count_true(mask),
        count > 0 ==> exists|s: Position, d: Seq<i32>| floor_region(m, adj, s, d, mask),
        0 <= i < mask.len(),
        mask[i],
    ensures
        m.tile_at(grid_position(m.spec_width(), i)) == TileType::Floor,
{
    lemma_count_true_pos(mask, i);
    let (s, d) = choose|s: Position, d: Seq<i32>| floor_region(m, adj, s, d, mask);
    let w = m.spec_width();
    lemma_position_of_index(m, s);
    if i != grid_index(w, s) {
        lemma_floor_reach(m, adj, grid_index(w, s), d, mask, i);
    }
}

/// A map no larger than `i32` allows has room for a sum of its sides.
proof fn lemma_sides_small(w: int, h: int)
    requires
        4 <= w,
        4 <= h,
        w * h <= i32::MAX,
    ensures
        w + h <= i32::MAX,
{
    assert(w + h <= i32::MAX) by (nonlinear_arith)
        requires
            4 <= w,
            4 <= h,
            w * h <= i32::MAX,
    ;
}

/// Four automaton steps over the noise.
fn smooth_cave(noise: TileMap) -> (map: TileMap)
    requires
        small_map(noise),
        border_walls(noise),
    ensures
        small_map(map),
        map.spec_width() == noise.spec_width(),
        map.spec_height() == noise.spec_height(),
        border_walls(map),
        exists|ms: Seq<TileMap>| #[trigger] smoothing_run(ms) && ms.len() == 5 && ms[0] == noise && ms[4] == map,
{
    let mut map = noise;
    let mut pass: usize = 0;
    let ghost mut ms: Seq<TileMap> = seq![noise];
    while pass < 4
        invariant
            small_map(map),
            map.spec_width() == noise.spec_width(),
            map.spec_height() == noise.spec_height(),
            border_walls(map),
            pass <= 4,
            ms.len() == pass + 1,
            ms[0] == noise,
            ms[pass as int] == map,
            smoothing_run(ms),
        decreases 4 - pass,
    {
        let next = smooth_once(&map);
        proof {
            assert forall|p: Position| #[trigger] next.spec_contains(p) && !interior(next, p) implies next.tile_at(p)
                == TileType::Wall by {
                assert(next.tile_at(p) == smoothed_tile(map, p));
                assert(map.spec_contains(p));
                assert(!interior(map, p));
            }
            let ms2 = ms.push(next);
            assert forall|i: int| 0 <= i < ms2.len() - 1 implies #[trigger] run_step(ms2, i) by {
                if i < ms.len() - 1 {
                    assert(run_step(ms, i));
                } else {
                    assert(ms2[i] == map && ms2[i + 1] == next);
                }
            }
            ms = ms2;
        }
        map = next;
        pass = pass + 1;
    }
    map
}

/// Walls over the inner floor tiles outside the mask.
fn keep_region(map: &mut TileMap, mask: &Vec<bool>)
    requires
        small_map(*old(map)),
        mask@.len() == old(map).spec_width() * old(map).spec_height(),
    ensures
        small_map(*final(map)),
        final(map).spec_width() == old(map).spec_width(),
        final(map).spec_height() == old(map).spec_height(),
        forall|p: Position| #[trigger] final(map).spec_contains(p) ==> final(map).tile_at(p) == (if interior(*old(map), p)
            && old(map).tile_at(p) == TileType::Floor && !mask@[grid_index(old(map).spec_width(), p)] {
            TileType::Wall
        } else {
            old(map).tile_at(p)
        }),
{
    let ghost m0 = *map;
    let ghost w = m0.spec_width();
    let width = map.width();
    let height = map.height();
    let mut y: i32 = 1;
    while y < height - 1
        invariant
            small_map(*map),
            small_map(m0),
            map.spec_width() == w,
            m0.spec_width() == w,
            w == width,
            map.spec_height() == height,
            m0.spec_height() == height,
            mask@.len() == w * height,
            1 <= y,
            y <= height - 1 || height < 2,
            forall|p: Position| #[trigger] map.spec_contains(p) ==> map.tile_at(p) == (if interior(m0, p) && before_cell(
                p,
                y as int,
                1,
            ) && m0.tile_at(p) == TileType::Floor && !mask@[grid_index(w, p)] {
                TileType::Wall
            } else {
                m0.tile_at(p)
            }),
        decreases height - y,
    {
        let mut x: i32 = 1;
        while x < width - 1
            invariant
                small_map(*map),
                small_map(m0),
                map.spec_width() == w,
                m0.spec_width() == w,
                w == width,
                map.spec_height() == height,
                m0.spec_height() == height,
                mask@.len() == w * height,
                1 <= y < height - 1,
                1 <= x,
                x <= width - 1 || width < 2,
                forall|p: Position| #[trigger] map.spec_contains(p) ==> map.tile_at(p) == (if interior(m0, p)
                    && before_cell(p, y as int, x as int) && m0.tile_at(p) == TileType::Floor && !mask@[grid_index(w, p)] {
                    TileType::Wall
                } else {
                    m0.tile_at(p)
                }),
            decreases width - x,
        {
            let pos = Position::new(x, y);
            let i = map.idx(pos);
            let ghost before = *map;
            proof {
                assert(before.spec_contains(pos));
                assert(before.tile_at(pos) == m0.tile_at(pos));
            }
            let change = map.tile(pos) == TileType::Floor && !mask[i];
            if change {
                map.set_tile(pos, TileType::Wall);
            }
            proof {
                if change {
                    lemma_set_tile_reads(before, *map, pos, TileType::Wall, pos);
                    assert(map.tile_at(pos) == TileType::Wall);
                } else {
                    assert(map.tile_seq() == before.tile_seq());
                }
            }
            proof {
                assert forall|p: Position| #[trigger] map.spec_contains(p) implies map.tile_at(p) == (if interior(m0, p)
                    && before_cell(p, y as int, x + 1) && m0.tile_at(p) == TileType::Floor && !mask@[grid_index(w, p)] {
                    TileType::Wall
                } else {
                    m0.tile_at(p)
                }) by {
                    assert(before.spec_contains(p));
                    assert(before.spec_contains(pos));
                    if p != pos {
                        assert(before_cell(p, y as int, x + 1) == before_cell(p, y as int, x as int));
                    }
                    if change {
                        lemma_set_tile_reads(before, *map, pos, TileType::Wall, p);
                    }
                    assert(before.tile_at(p) == (if interior(m0, p) && before_cell(p, y as int, x as int) && m0.tile_at(p)
                        == TileType::Floor && !mask@[grid_index(w, p)] {
                        TileType::Wall
                    } else {
                        m0.tile_at(p)
                    }));
                }
            }
            x = x + 1;
        }
        proof {
            assert forall|p: Position| #[trigger] map.spec_contains(p) implies map.tile_at(p) == (if interior(m0, p)
                && before_cell(p, y + 1, 1) && m0.tile_at(p) == TileType::Floor && !mask@[grid_index(w, p)] {
                TileType::Wall
            } else {
                m0.tile_at(p)
            }) by {
                assert(x == width - 1 || width < 2);
                if interior(m0, p) {
                    assert(before_cell(p, y + 1, 1) == before_cell(p, y as int, x as int));
                }
            }
        }
        y = y + 1;
    }
    proof {
        assert forall|p: Position| #[trigger] map.spec_contains(p) implies map.tile_at(p) == (if interior(m0, p)
            && m0.tile_at(p) == TileType::Floor && !mask@[grid_index(w, p)] {
            TileType::Wall
        } else {
            m0.tile_at(p)
        }) by {
            assert(interior(m0, p) ==> before_cell(p, y as int, 1));
        }
    }
}


/// After walling the floor outside the region, the map keeps its border
/// walls and every region tile is floor.
proof fn lemma_kept_region(smoothed: TileMap, adj: Seq<Vec<usize>>, mask: Seq<bool>, count: int, map: TileMap)
    requires
        small_map(smoothed),
        border_walls(smoothed),
        adj.len() == smoothed.spec_width() * smoothed.spec_height(),
        forall|u: int| 0 <= u < adj.len() ==> (#[trigger] adj[u])@ == floor_links(smoothed, u),
        mask.len() == adj.len(),
        count == count_true(mask),
        count > 0 ==> exists|s: Position, d: Seq<i32>| floor_region(smoothed, adj, s, d, mask),
        small_map(map),
        map.spec_width() == smoothed.spec_width(),
        map.spec_height() == smoothed.spec_height(),
        forall|p: Position| #[trigger] map.spec_contains(p) ==> map.tile_at(p) == (if interior(smoothed, p)
            && smoothed.tile_at(p) == TileType::Floor && !mask[grid_index(smoothed.spec_width(), p)] {
            TileType::Wall
        } else {
            smoothed.tile_at(p)
        }),
    ensures
        border_walls(map),
        forall|k: int| 0 <= k < mask.len() && #[trigger] mask[k] ==> map.tile_at(grid_position(map.spec_width(), k))
            == TileType::Floor,
        forall|p: Position| #[trigger] map.spec_contains(p) && map.tile_at(p) == TileType::Floor ==> mask[grid_index(
            map.spec_width(),
            p,
        )],
{
    let w = map.spec_width();
    let h = map.spec_height();
    map.lemma_wf_len();
    assert forall|p: Position| #[trigger] map.spec_contains(p) && !interior(map, p) implies map.tile_at(p)
        == TileType::Wall by {
        assert(smoothed.spec_contains(p));
    }
    assert forall|i: int| 0 <= i < mask.len() && #[trigger] mask[i] implies map.tile_at(grid_position(w, i))
        == TileType::Floor by {
        lemma_region_floor(smoothed, adj, mask, count, i);
        lemma_grid_position_roundtrip(w, h, i);
        assert(map.spec_contains(grid_position(w, i)));
    }
    assert forall|p: Position| #[trigger] map.spec_contains(p) && map.tile_at(p) == TileType::Floor implies mask[grid_index(
        w,
        p,
    )] by {
        assert(smoothed.spec_contains(p));
        if !interior(smoothed, p) {
            assert(smoothed.tile_at(p) == TileType::Wall);
        }
    }
}

/// Every tile a search along the floor links of `m` reaches is joined to
/// its start on `m2`, once `m2` keeps all reached tiles walkable.
#[verifier::spinoff_prover]
#[verifier::rlimit(30)]
proof fn lemma_reached_connects(
    m: TileMap,
    m2: TileMap,
    adj: Seq<Vec<usize>>,
    s: int,
    d: Seq<i32>,
    r: Seq<bool>,
    v: int,
)
    requires
        small_map(m),
        adj.len() == m.spec_width() * m.spec_height(),
        forall|u: int| 0 <= u < adj.len() ==> (#[trigger] adj[u])@ == floor_links(m, u),
        0 <= s < adj.len(),
        bfs_field(adj, s, d, r),
        0 <= v < adj.len(),
        r[v],
        forall|u: int| 0 <= u < adj.len() && r[u] ==> m2.walkable_at(#[trigger] grid_position(m.spec_width(), u)),
    ensures
        connects(m2, grid_position(m.spec_width(), s), grid_position(m.spec_width(), v)),
    decreases d[v],
{
    let w = m.spec_width();
    if v == s {
        lemma_connects_refl(m2, grid_position(w, s));
    } else {
        let (u, k) = choose|u: int, k: int|
            0 <= u < adj.len() && r[u] && 0 <= k < adj[u]@.len() && #[trigger] adj[u]@[k] == v && d[v] == d[u] + 1;
        assert(0 <= d[u]);
        lemma_reached_connects(m, m2, adj, s, d, r, u);
        assert(adj[u]@ == floor_links(m, u));
        lemma_floor_link_is_floor(m, u, k);
        let pu = grid_position(w, u);
        let pv = grid_position(w, v);
        assert(m2.walkable_at(pv));
        let step = seq![pu, pv];
        assert(walk_step(step, 0));
        assert(is_walk(m2, step));
        lemma_connects_trans(m2, grid_position(w, s), pu, pv);
    }
}

/// On the finished cave the stairs down and every enemy candidate are
/// joined to the start: the search that placed the stairs went along floor
/// tiles, and the candidates lie in the one region that was kept, which
/// holds the start whenever any floor is left.
proof fn lemma_cave_joined(
    smoothed: TileMap,
    adj: Seq<Vec<usize>>,
    mask: Seq<bool>,
    count: int,
    walled: TileMap,
    adj2: Seq<Vec<usize>>,
    start: Position,
    down: Position,
    map: TileMap,
    candidates: Seq<Position>,
)
    requires
        small_map(smoothed),
        adj.len() == smoothed.spec_width() * smoothed.spec_height(),
        forall|u: int| 0 <= u < adj.len() ==> (#[trigger] adj[u])@ == floor_links(smoothed, u),
        mask.len() == adj.len(),
        count == count_true(mask),
        count > 0 ==> exists|s: Position, d: Seq<i32>| floor_region(smoothed, adj, s, d, mask),
        small_map(walled),
        walled.spec_width() == smoothed.spec_width(),
        walled.spec_height() == smoothed.spec_height(),
        forall|k: int| 0 <= k < mask.len() && #[trigger] mask[k] ==> walled.tile_at(
            grid_position(walled.spec_width(), k),
        ) == TileType::Floor,
        forall|p: Position| #[trigger] walled.spec_contains(p) && walled.tile_at(p) == TileType::Floor ==> mask[grid_index(
            walled.spec_width(),
            p,
        )],
        walled.spec_contains(start),
        walled.spec_contains(down),
        walled.tile_at(start) == TileType::Floor || forall|q: Position| #[trigger] walled.spec_contains(q)
            ==> walled.tile_at(q) != TileType::Floor,
        adj2.len() == walled.spec_width() * walled.spec_height(),
        forall|u: int| 0 <= u < adj2.len() ==> (#[trigger] adj2[u])@ == floor_links(walled, u),
        exists|d: Seq<i32>, r: Seq<bool>|
            {
                &&& bfs_field(adj2, grid_index(walled.spec_width(), start), d, r)
                &&& r[grid_index(walled.spec_width(), down)]
            },
        keeps_walkable(walled, map),
        map.walkable_at(start),
        forall|k: int| 0 <= k < candidates.len() ==> walled.spec_contains(#[trigger] candidates[k])
            && walled.tile_at(candidates[k]) == TileType::Floor,
    ensures
        connects(map, start, down),
        forall|k: int| 0 <= k < candidates.len() ==> connects(map, start, #[trigger] candidates[k]),
{
    let w = walled.spec_width();
    let h = walled.spec_height();
    walled.lemma_wf_len();
    lemma_position_of_index(walled, start);
    lemma_position_of_index(walled, down);
    let si = grid_index(w, start);
    let di = grid_index(w, down);
    let (d2, r2) = choose|d: Seq<i32>, r: Seq<bool>|
        {
            &&& bfs_field(adj2, grid_index(walled.spec_width(), start), d, r)
            &&& r[grid_index(walled.spec_width(), down)]
        };
    assert forall|u: int| 0 <= u < adj2.len() && r2[u] implies map.walkable_at(#[trigger] grid_position(w, u)) by {
        if u != si {
            lemma_floor_reach(walled, adj2, si, d2, r2, u);
            lemma_grid_position_roundtrip(w, h, u);
            assert(walled.walkable_at(grid_position(w, u)));
        }
    }
    lemma_reached_connects(walled, map, adj2, si, d2, r2, di);
    if candidates.len() > 0 {
        assert(walled.tile_at(candidates[0]) == TileType::Floor);
        assert(walled.tile_at(start) == TileType::Floor);
        assert(mask[si]);
        lemma_count_true_pos(mask, si);
        let (s0, d0) = choose|s: Position, d: Seq<i32>| floor_region(smoothed, adj, s, d, mask);
        let ri = grid_index(w, s0);
        lemma_position_of_index(smoothed, s0);
        assert forall|u: int| 0 <= u < adj.len() && mask[u] implies map.walkable_at(#[trigger] grid_position(w, u)) by {
            lemma_grid_position_roundtrip(w, h, u);
            assert(walled.walkable_at(grid_position(w, u)));
        }
        lemma_reached_connects(smoothed, map, adj, ri, d0, mask, si);
        lemma_connects_sym(map, s0, start);
        assert forall|k: int| 0 <= k < candidates.len() implies connects(map, start, #[trigger] candidates[k]) by {
            let c = candidates[k];
            lemma_position_of_index(walled, c);
            let ci = grid_index(w, c);
            assert(mask[ci]);
            lemma_reached_connects(smoothed, map, adj, ri, d0, mask, ci);
            lemma_connects_trans(map, start, s0, c);
        }
    }
}

/// What putting the stairs on the walled map leaves.
proof fn lemma_stairs_placed(
    walled: TileMap,
    upped: TileMap,
    map: TileMap,
    start: Position,
    down: Position,
    center: Position,
    candidates: Seq<Position>,
)
    requires
        small_map(walled),
        border_walls(walled),
        interior(walled, start),
        interior(walled, down),
        center == map_center(walled),
        forall|q: Position| #[trigger] walled.spec_contains(q) && walled.tile_at(q) == TileType::Floor ==> manhattan(
            center,
            start,
        ) <= manhattan(center, q),
        forall|k: int| 0 <= k < candidates.len() ==> {
            &&& interior(walled, #[trigger] candidates[k])
            &&& manhattan(candidates[k], start) >= 8
            &&& walled.tile_at(candidates[k]) == TileType::Floor
        },
        upped.wf(),
        upped.spec_width() == walled.spec_width(),
        upped.spec_height() == walled.spec_height(),
        upped.tile_seq() == walled.tile_seq().update(grid_index(walled.spec_width(), start), TileType::StairsUp),
        map.wf(),
        map.spec_width() == walled.spec_width(),
        map.spec_height() == walled.spec_height(),
        map.tile_seq() == upped.tile_seq().update(grid_index(walled.spec_width(), down), TileType::StairsDown),
    ensures
        small_map(map),
        border_walls(map),
        map.tile_at(down) == TileType::StairsDown,
        start != down ==> map.tile_at(start) == TileType::StairsUp,
        forall|q: Position| #[trigger] map.spec_contains(q) && map.tile_at(q) == TileType::Floor ==> manhattan(
            map_center(map),
            start,
        ) <= manhattan(map_center(map), q),
        forall|k: int| 0 <= k < candidates.len() ==> interior(map, #[trigger] candidates[k]) && manhattan(
            candidates[k],
            start,
        ) >= 8 && (map.tile_at(candidates[k]) == TileType::Floor || map.tile_at(candidates[k]) == TileType::StairsDown),
{
    assert forall|q: Position| map.spec_contains(q) implies #[trigger] map.tile_at(q) == (if q == down {
        TileType::StairsDown
    } else if q == start {
        TileType::StairsUp
    } else {
        walled.tile_at(q)
    }) by {
        lemma_set_tile_reads(walled, upped, start, TileType::StairsUp, q);
        lemma_set_tile_reads(upped, map, down, TileType::StairsDown, q);
    }
    assert forall|q: Position| #[trigger] map.spec_contains(q) && !interior(map, q) implies map.tile_at(q)
        == TileType::Wall by {
        assert(map.tile_at(q) == walled.tile_at(q));
        assert(walled.spec_contains(q));
    }
    assert(map.spec_contains(down));
    assert(map.spec_contains(start));
    assert forall|q: Position| #[trigger] map.spec_contains(q) && map.tile_at(q) == TileType::Floor implies manhattan(
        map_center(map),
        start,
    ) <= manhattan(map_center(map), q) by {
        assert(walled.tile_at(q) == TileType::Floor);
        assert(walled.spec_contains(q));
    }
    assert forall|k: int| 0 <= k < candidates.len() implies interior(map, #[trigger] candidates[k]) && manhattan(
        candidates[k],
        start,
    ) >= 8 && (map.tile_at(candidates[k]) == TileType::Floor || map.tile_at(candidates[k]) == TileType::StairsDown) by {
        let c = candidates[k];
        assert(c != start);
        assert(map.spec_contains(c));
    }
}

/// After the listing loop, every inner floor tile of the kept region at
/// least eight steps from the start is listed.
proof fn lemma_region_listed(smoothed: TileMap, kept: TileMap, mask: Seq<bool>, start: Position, c: Seq<Position>)
    requires
        small_map(smoothed),
        kept.spec_width() == smoothed.spec_width(),
        kept.spec_height() == smoothed.spec_height(),
        small_map(kept),
        mask.len() == smoothed.spec_width() * smoothed.spec_height(),
        forall|p: Position| #[trigger] kept.spec_contains(p) ==> kept.tile_at(p) == (if interior(smoothed, p)
            && smoothed.tile_at(p) == TileType::Floor && !mask[grid_index(smoothed.spec_width(), p)] {
            TileType::Wall
        } else {
            smoothed.tile_at(p)
        }),
        forall|k: int|
            0 <= k < mask.len() && mask[k] && manhattan(grid_position(kept.spec_width(), k), start) >= 8 ==> c.contains(
                #[trigger] grid_position(kept.spec_width(), k),
            ),
    ensures
        forall|q: Position|
            interior(kept, q) && #[trigger] kept.tile_at(q) == TileType::Floor && manhattan(q, start) >= 8 ==> c.contains(q),
{
    assert forall|q: Position|
        interior(kept, q) && #[trigger] kept.tile_at(q) == TileType::Floor && manhattan(q, start) >= 8 implies c.contains(q) by {
        lemma_position_of_index(kept, q);
        assert(kept.spec_contains(q));
        assert(mask[grid_index(kept.spec_width(), q)]);
    }
}

/// Putting the stairs on the start and on a floor tile keeps the listing
/// complete: every inner floor or stairs-down tile at least eight steps from
/// the start is listed.
proof fn lemma_stairs_keep_listed(
    walled: TileMap,
    upped: TileMap,
    map: TileMap,
    start: Position,
    down: Position,
    c: Seq<Position>,
)
    requires
        small_map(walled),
        walled.spec_contains(start),
        walled.spec_contains(down),
        down != start ==> walled.tile_at(down) == TileType::Floor,
        upped.wf(),
        upped.spec_width() == walled.spec_width(),
        upped.spec_height() == walled.spec_height(),
        upped.tile_seq() == walled.tile_seq().update(grid_index(walled.spec_width(), start), TileType::StairsUp),
        map.spec_width() == walled.spec_width(),
        map.spec_height() == walled.spec_height(),
        map.tile_seq() == upped.tile_seq().update(grid_index(walled.spec_width(), down), TileType::StairsDown),
        forall|q: Position|
            interior(walled, q) && #[trigger] walled.tile_at(q) == TileType::Floor && manhattan(q, start) >= 8 ==> c.contains(q),
    ensures
        forall|q: Position|
            interior(map, q) && (#[trigger] map.tile_at(q) == TileType::Floor || q == down)
                && manhattan(q, start) >= 8 ==> c.contains(q),
{
    assert forall|q: Position|
        interior(map, q) && (#[trigger] map.tile_at(q) == TileType::Floor || q == down)
            && manhattan(q, start) >= 8 implies c.contains(q) by {
        assert(walled.spec_contains(q));
        lemma_set_tile_reads(walled, upped, start, TileType::StairsUp, q);
        lemma_set_tile_reads(upped, map, down, TileType::StairsDown, q);
        assert(upped.spec_contains(q));
        assert(q != start);
        assert(walled.tile_at(q) == TileType::Floor);
    }
}

/// How many noise draws come before the inner tile `p` of a `w`-wide map:
/// one per inner tile, row by row.
pub open spec fn noise_index(w: int, p: Position) -> int {
    (p.y - 1) * (w - 2) + (p.x - 1)
}

/// The noise tile at `p` drawn from a generator seeded with `seed`: an inner
/// tile is floor when its draw in `0..100` is below 45; every other tile is
/// wall.
pub open spec fn noise_tile(seed: u64, m: TileMap, p: Position) -> TileType {
    if interior(m, p) && seeded_draw(seed, percent_span(noise_index(m.spec_width(), p) as nat), 0, 100) < 45 {
        TileType::Floor
    } else {
        TileType::Wall
    }
}

/// `m` is the noise drawn from `seed`.
pub open spec fn noise_drawn(seed: u64, m: TileMap) -> bool {
    forall|p: Position| #[trigger] m.spec_contains(p) ==> m.tile_at(p) == noise_tile(seed, m, p)
}

/// `mask` marks the largest floor region of `m` (of the largest, the one
/// whose first tile comes first in row-major order), with the adjacency
/// `adj`; nothing when `m` has no inner floor.
pub open spec fn largest_region(m: TileMap, adj: Seq<Vec<usize>>, mask: Seq<bool>) -> bool {
    &&& mask.len() == adj.len()
    &&& count_true(mask) > 0 ==> exists|s: Position, d: Seq<i32>|
        {
            &&& #[trigger] floor_region(m, adj, s, d, mask)
            &&& forall|t: Position, d2: Seq<i32>, q: Seq<bool>|
                #[trigger] floor_region(m, adj, t, d2, q) && row_major_before(t, s) ==> count_true(q) < count_true(mask)
        }
    &&& count_true(mask) == 0 ==> forall|t: Position| #[trigger] interior(m, t) ==> m.tile_at(t) != TileType::Floor
    &&& forall|t: Position, d: Seq<i32>, q: Seq<bool>| #[trigger] floor_region(m, adj, t, d, q) ==> count_true(q) <= count_true(mask)
}

/// The tile of the smoothed cave once only the region `mask` is kept: an
/// inner floor tile outside it becomes wall.
pub open spec fn kept_tile(m: TileMap, mask: Seq<bool>, p: Position) -> TileType {
    if interior(m, p) && m.tile_at(p) == TileType::Floor && !mask[grid_index(m.spec_width(), p)] {
        TileType::Wall
    } else {
        m.tile_at(p)
    }
}

/// `map` is the cave laid out from `noise`: four smoothing steps, only the
/// largest floor region kept, the stairs down at `down` and the stairs up
/// at `start`.
pub open spec fn cave_laid_out(noise: TileMap, map: TileMap, start: Position, down: Position) -> bool {
    exists|ms: Seq<TileMap>, adj: Seq<Vec<usize>>, mask: Seq<bool>|
        #![trigger smoothing_run(ms), largest_region(ms[4], adj, mask)]
        {
            &&& smoothing_run(ms)
            &&& ms.len() == 5
            &&& ms[0] == noise
            &&& adj.len() == ms[4].spec_width() * ms[4].spec_height()
            &&& forall|u: int| 0 <= u < adj.len() ==> (#[trigger] adj[u])@ == floor_links(ms[4], u)
            &&& largest_region(ms[4], adj, mask)
            &&& map.spec_width() == ms[4].spec_width()
            &&& map.spec_height() == ms[4].spec_height()
            &&& forall|p: Position| #[trigger] map.spec_contains(p) ==> map.tile_at(p) == (if p == down {
                TileType::StairsDown
            } else if p == start {
                TileType::StairsUp
            } else {
                kept_tile(ms[4], mask, p)
            })
        }
}

/// The laid-out cave is the smoothed noise with only its largest region
/// kept and the two stairs set.
proof fn lemma_cave_laid_out(
    noise: TileMap,
    smoothed: TileMap,
    adj: Seq<Vec<usize>>,
    mask: Seq<bool>,
    walled: TileMap,
    upped: TileMap,
    map: TileMap,
    start: Position,
    down: Position,
)
    requires
        exists|ms: Seq<TileMap>| #[trigger] smoothing_run(ms) && ms.len() == 5 && ms[0] == noise && ms[4] == smoothed,
        small_map(smoothed),
        adj.len() == smoothed.spec_width() * smoothed.spec_height(),
        forall|u: int| 0 <= u < adj.len() ==> (#[trigger] adj[u])@ == floor_links(smoothed, u),
        largest_region(smoothed, adj, mask),
        walled.spec_width() == smoothed.spec_width(),
        walled.spec_height() == smoothed.spec_height(),
        small_map(walled),
        forall|p: Position| #[trigger] walled.spec_contains(p) ==> walled.tile_at(p) == kept_tile(smoothed, mask, p),
        walled.spec_contains(start),
        walled.spec_contains(down),
        upped.wf(),
        upped.spec_width() == walled.spec_width(),
        upped.spec_height() == walled.spec_height(),
        upped.tile_seq() == walled.tile_seq().update(grid_index(walled.spec_width(), start), TileType::StairsUp),
        map.spec_width() == walled.spec_width(),
        map.spec_height() == walled.spec_height(),
        map.tile_seq() == upped.tile_seq().update(grid_index(walled.spec_width(), down), TileType::StairsDown),
    ensures
        cave_laid_out(noise, map, start, down),
{
    let ms = choose|ms: Seq<TileMap>| #[trigger] smoothing_run(ms) && ms.len() == 5 && ms[0] == noise && ms[4] == smoothed;
    assert forall|p: Position| #[trigger] map.spec_contains(p) implies map.tile_at(p) == (if p == down {
        TileType::StairsDown
    } else if p == start {
        TileType::StairsUp
    } else {
        kept_tile(ms[4], mask, p)
    }) by {
        assert(walled.spec_contains(p));
        lemma_set_tile_reads(walled, upped, start, TileType::StairsUp, p);
        assert(upped.spec_contains(p));
        lemma_set_tile_reads(upped, map, down, TileType::StairsDown, p);
    }
    assert(smoothing_run(ms) && largest_region(ms[4], adj, mask));
}

/// Smooths the noise with four automaton steps, keeps only the largest
/// connected floor region, puts the stairs up on the floor tile nearest the
/// middle of the map (at `(2, 2)` when no floor is left) and the stairs down
/// on the tile a search along the floor reaches last from there, and lists
/// the region tiles at least eight steps from the start (all of them, in
/// row-major order).
#[verifier::spinoff_prover]
#[verifier::rlimit(80)]
pub fn lay_out_cave(noise: TileMap) -> (out: CaveLayout)
    requires
        small_map(noise),
        4 <= noise.spec_width(),
        4 <= noise.spec_height(),
        border_walls(noise),
    ensures
        small_map(out.map),
        out.map.spec_width() == noise.spec_width(),
        out.map.spec_height() == noise.spec_height(),
        border_walls(out.map),
        interior(out.map, out.player_start),
        interior(out.map, out.stairs_down),
        out.map.tile_at(out.stairs_down) == TileType::StairsDown,
        out.player_start != out.stairs_down ==> out.map.tile_at(out.player_start) == TileType::StairsUp,
        forall|q: Position| #[trigger] out.map.spec_contains(q) && out.map.tile_at(q) == TileType::Floor ==> manhattan(
            map_center(out.map),
            out.player_start,
        ) <= manhattan(map_center(out.map), q),
        forall|i: int| 0 <= i < out.candidates@.len() ==> interior(out.map, #[trigger] out.candidates@[i]) && manhattan(
            out.candidates@[i],
            out.player_start,
        ) >= 8 && (out.map.tile_at(out.candidates@[i]) == TileType::Floor || out.map.tile_at(out.candidates@[i])
            == TileType::StairsDown),
        forall|i: int, j: int|
            0 <= i < j < out.candidates@.len() ==> grid_index(out.map.spec_width(), #[trigger] out.candidates@[i])
                < grid_index(out.map.spec_width(), #[trigger] out.candidates@[j]),
        connects(out.map, out.player_start, out.stairs_down),
        forall|i: int| 0 <= i < out.candidates@.len() ==> connects(out.map, out.player_start, #[trigger] out.candidates@[i]),
        forall|q: Position|
            interior(out.map, q) && (#[trigger] out.map.tile_at(q) == TileType::Floor || q == out.stairs_down) && manhattan(
                q,
                out.player_start,
            ) >= 8 ==> out.candidates@.contains(q),
        cave_laid_out(noise, out.map, out.player_start, out.stairs_down),
{
    let mut map = smooth_cave(noise);
    let adj = floor_adjacency(&map);
    let (mask, count) = largest_floor_region(&map, &adj);
    let ghost smoothed = map;
    assert(exists|ms: Seq<TileMap>| #[trigger] smoothing_run(ms) && ms.len() == 5 && ms[0] == noise && ms[4] == smoothed);
    assert(largest_region(smoothed, adj@, mask@));
    keep_region(&mut map, &mask);
    let ghost w = map.spec_width();
    let ghost h = map.spec_height();
    proof {
        map.lemma_wf_len();
        lemma_sides_small(w, h);
        lemma_kept_region(smoothed, adj@, mask@, count as int, map);
    }
    let width = map.width();
    let height = map.height();
    let center = Position::new(width / 2, height / 2);
    let found = find_nearest_floor(&map, center);
    let start = match found {
        Some(p) => p,
        None => Position::new(2, 2),
    };
    let adj2 = floor_adjacency(&map);
    let down = find_farthest_floor(&map, &adj2, start);
    let ghost walled = map;
    proof {
        assert(interior(map, start));
        lemma_position_of_index(map, start);
        lemma_position_of_index(map, down);
        let (d, r) = choose|d: Seq<i32>, r: Seq<bool>|
            {
                &&& bfs_field(adj2@, grid_index(w, start), d, r)
                &&& r[grid_index(w, down)]
                &&& forall|v: int| 0 <= v < adj2@.len() && r[v] ==> #[trigger] d[v] <= d[grid_index(w, down)]
            };
        if down != start {
            lemma_grid_index_injective(w, down, start);
            lemma_floor_reach(map, adj2@, grid_index(w, start), d, r, grid_index(w, down));
            lemma_position_of_index(map, down);
        }
        assert(down != start ==> walled.tile_at(down) == TileType::Floor);
        assert(interior(map, down));
        assert(exists|d: Seq<i32>, r: Seq<bool>|
            {
                &&& bfs_field(adj2@, grid_index(w, start), d, r)
                &&& r[grid_index(w, down)]
            });
    }
    let n = mask.len();
    let mut candidates: Vec<Position> = Vec::new();
    let mut i: usize = 0;
    while i < n
        invariant
            small_map(map),
            map == walled,
            w == map.spec_width(),
            h == map.spec_height(),
            n == mask@.len(),
            n == w * h,
            n <= i32::MAX,
            w + h <= i32::MAX,
            map.spec_contains(start),
            border_walls(map),
            forall|k: int| 0 <= k < mask@.len() && #[trigger] mask@[k] ==> map.tile_at(grid_position(w, k))
                == TileType::Floor,
            i <= n,
            forall|k: int| 0 <= k < candidates@.len() ==> {
                &&& interior(map, #[trigger] candidates@[k])
                &&& manhattan(candidates@[k], start) >= 8
                &&& map.tile_at(candidates@[k]) == TileType::Floor
                &&& grid_index(w, candidates@[k]) < i
            },
            forall|a: int, b: int|
                0 <= a < b < candidates@.len() ==> grid_index(w, #[trigger] candidates@[a]) < grid_index(
                    w,
                    #[trigger] candidates@[b],
                ),
            forall|k: int|
                0 <= k < i && mask@[k] && manhattan(grid_position(w, k), start) >= 8 ==> candidates@.contains(
                    #[trigger] grid_position(w, k),
                ),
        decreases n - i,
    {
        let ghost before = candidates@;
        if mask[i] {
            proof {
                lemma_grid_position_roundtrip(w, h, i as int);
            }
            let p = map.position_for_idx(i);
            proof {
                assert(mask@[i as int]);
                assert(map.tile_at(p) == TileType::Floor);
                lemma_floor_inside(map, p);
                assert(manhattan(p, start) <= i32::MAX);
            }
            let dist = p.manhattan_distance(start);
            if dist >= 8 {
                candidates.push(p);
                assert(candidates@[candidates@.len() - 1] == p);
            }
        }
        proof {
            assert forall|k: int|
                0 <= k < i + 1 && mask@[k] && manhattan(grid_position(w, k), start) >= 8 implies candidates@.contains(
                #[trigger] grid_position(w, k),
            ) by {
                if k < i {
                    let j = choose|j: int| 0 <= j < before.len() && before[j] == grid_position(w, k);
                    assert(candidates@[j] == before[j]);
                } else {
                    lemma_grid_position_roundtrip(w, h, i as int);
                    assert(candidates@[candidates@.len() - 1] == grid_position(w, k));
                }
            }
        }
        i = i + 1;
    }
    proof {
        match found {
            Some(p) => {},
            None => {},
        }
        assert(walled.tile_at(start) == TileType::Floor || forall|q: Position| #[trigger] walled.spec_contains(q)
            ==> walled.tile_at(q) != TileType::Floor);
        assert(forall|q: Position| #[trigger] walled.spec_contains(q) && walled.tile_at(q) == TileType::Floor ==> manhattan(
            center,
            start,
        ) <= manhattan(center, q));
    }
    map.set_tile(start, TileType::StairsUp);
    let ghost upped = map;
    map.set_tile(down, TileType::StairsDown);
    proof {
        lemma_stairs_placed(walled, upped, map, start, down, center, candidates@);
        lemma_set_tile_keeps(walled, upped, start, TileType::StairsUp);
        lemma_set_tile_keeps(upped, map, down, TileType::StairsDown);
        assert(keeps_walkable(walled, map)) by {
            assert forall|p: Position| #[trigger] walled.walkable_at(p) implies map.walkable_at(p) by {
                assert(upped.walkable_at(p));
            }
        }
        assert(upped.walkable_at(start));
        assert forall|k: int| 0 <= k < candidates@.len() implies walled.spec_contains(#[trigger] candidates@[k])
            && walled.tile_at(candidates@[k]) == TileType::Floor by {
            assert(interior(walled, candidates@[k]));
        }
        lemma_cave_joined(smoothed, adj@, mask@, count as int, walled, adj2@, start, down, map, candidates@);
        lemma_region_listed(smoothed, walled, mask@, start, candidates@);
        lemma_stairs_keep_listed(walled, upped, map, start, down, candidates@);
        lemma_cave_laid_out(noise, smoothed, adj@, mask@, walled, upped, map, start, down);
    }
    CaveLayout { map, player_start: start, stairs_down: down, candidates }
}


/// Strictly increasing indices below `n` number at most `n`.
proof fn lemma_increasing_len_last(w: int, c: Seq<Position>, n: int)
    requires
        forall|a: int, b: int| 0 <= a < b < c.len() ==> grid_index(w, #[trigger] c[a]) < grid_index(w, #[trigger] c[b]),
        forall|a: int| 0 <= a < c.len() ==> 0 <= grid_index(w, #[trigger] c[a]) < n,
        c.len() > 0,
    ensures
        c.len() <= n,
{
    let last = c.len() - 1;
    lemma_increasing_below(w, c, last);
}

proof fn lemma_increasing_below(w: int, c: Seq<Position>, k: int)
    requires
        forall|a: int, b: int| 0 <= a < b < c.len() ==> grid_index(w, #[trigger] c[a]) < grid_index(w, #[trigger] c[b]),
        forall|a: int| 0 <= a < c.len() ==> 0 <= grid_index(w, #[trigger] c[a]),
        0 <= k < c.len(),
    ensures
        k <= grid_index(w, c[k]),
    decreases k,
{
    if k > 0 {
        lemma_increasing_below(w, c, k - 1);
        assert(grid_index(w, c[k - 1]) < grid_index(w, c[k]));
    }
}

/// `n` draws in `0..len`.
pub open spec fn index_span(len: int, n: nat) -> Seq<(i32, i32)> {
    Seq::new(n, |_i: int| (0i32, len as i32))
}

/// The swap draws of a cave with `len` candidates: draw `k` in `0..len` from
/// the generator seeded with `seed`, made after the draws `base` and the
/// `k` swap draws before it.
pub open spec fn drawn_swaps(seed: u64, base: Seq<(i32, i32)>, len: int) -> Seq<usize> {
    Seq::new(len as nat, |k: int| seeded_draw(seed, base + index_span(len, k as nat), 0, len as i32) as usize)
}

/// `c` lists the enemy candidates of a cave: its inner floor tiles (and the
/// stairs down) at least eight steps from the start, every one, in
/// row-major order.
pub open spec fn cave_candidates(m: TileMap, start: Position, stairs: Position, c: Seq<Position>) -> bool {
    &&& forall|k: int|
        0 <= k < c.len() ==> interior(m, #[trigger] c[k]) && manhattan(c[k], start) >= 8 && (m.tile_at(c[k])
            == TileType::Floor || m.tile_at(c[k]) == TileType::StairsDown)
    &&& forall|a: int, b: int|
        0 <= a < b < c.len() ==> grid_index(m.spec_width(), #[trigger] c[a]) < grid_index(m.spec_width(), #[trigger] c[b])
    &&& forall|q: Position|
        interior(m, q) && (#[trigger] m.tile_at(q) == TileType::Floor || q == stairs) && manhattan(q, start) >= 8
            ==> c.contains(q)
}

/// A generated cave level, as `generate_cave_sized` draws it from `seed`:
/// the map is laid out from the drawn noise (see `cave_laid_out`), and the
/// enemies are the spread picks from its candidates shuffled with the drawn
/// swaps.
pub open spec fn cave_level(out: MapGenOutput, seed: u64, depth: u32) -> bool {
    &&& exists|noise: TileMap|
        #![trigger noise_drawn(seed, noise), cave_laid_out(noise, out.map, out.player_start, out.stairs_down)]
        {
            &&& noise.spec_width() == out.map.spec_width()
            &&& noise.spec_height() == out.map.spec_height()
            &&& noise_drawn(seed, noise)
            &&& cave_laid_out(noise, out.map, out.player_start, out.stairs_down)
        }
    &&& exists|c: Seq<Position>, base: Seq<(i32, i32)>|
        #![trigger cave_candidates(out.map, out.player_start, out.stairs_down, c), drawn_swaps(seed, base, c.len() as int)]
        {
            &&& cave_candidates(out.map, out.player_start, out.stairs_down, c)
            &&& out.combat_spawns@ == spread_picks(
                shuffled(c, drawn_swaps(seed, base, c.len() as int), c.len() as int),
                depth + 1,
            )
        }
}

impl TileMap {
    /// A cave level `width` by `height`: noise drawn from a generator seeded
    /// with `seed` (each inner tile floor with chance 45 in 100) laid out by
    /// [`lay_out_cave`], and up to `depth + 1` enemies picked by
    /// [`pick_spawns`] from the region tiles at least eight steps from the
    /// start, shuffled with further draws. Whatever the draws, the map has
    /// the size asked for and walls all around, the stairs lie on their
    /// tiles, no floor tile is nearer the middle than the start, the enemies
    /// stand on the region at least eight steps from the start and five
    /// from each other, and there is no boss.
    pub fn generate_cave_sized(width: i32, height: i32, depth: u32, seed: u64) -> (out: MapGenOutput)
        requires
            4 <= width < i32::MAX,
            4 <= height < i32::MAX,
            width * height <= i32::MAX,
        ensures
            small_map(out.map),
            out.map.spec_width() == width,
            out.map.spec_height() == height,
            border_walls(out.map),
            out.stairs_up == out.player_start,
            interior(out.map, out.player_start),
            interior(out.map, out.stairs_down),
            out.map.tile_at(out.stairs_down) == TileType::StairsDown,
            out.player_start != out.stairs_down ==> out.map.tile_at(out.player_start) == TileType::StairsUp,
            forall|q: Position| #[trigger] out.map.spec_contains(q) && out.map.tile_at(q) == TileType::Floor ==> manhattan(
                map_center(out.map),
                out.player_start,
            ) <= manhattan(map_center(out.map), q),
            out.combat_spawns@.len() <= depth + 1,
            forall|i: int| 0 <= i < out.combat_spawns@.len() ==> interior(out.map, #[trigger] out.combat_spawns@[i])
                && manhattan(out.combat_spawns@[i], out.player_start) >= 8 && (out.map.tile_at(out.combat_spawns@[i])
                == TileType::Floor || out.map.tile_at(out.combat_spawns@[i]) == TileType::StairsDown),
            forall|a: int, b: int|
                0 <= a < b < out.combat_spawns@.len() ==> manhattan(
                    #[trigger] out.combat_spawns@[a],
                    #[trigger] out.combat_spawns@[b],
                ) >= 5,
            out.boss_spawns@.len() == 0,
            connects(out.map, out.player_start, out.stairs_down),
            forall|i: int| 0 <= i < out.combat_spawns@.len() ==> connects(out.map, out.player_start, #[trigger] out.combat_spawns@[i]),
            cave_level(out, seed, depth),
    {
        let mut map = TileMap::new_filled(width, height, TileType::Wall);
        let mut rng = seeded_rng(seed);
        let mut y: i32 = 1;
        while y < height - 1
            invariant
                small_map(map),
                map.spec_width() == width,
                map.spec_height() == height,
                4 <= width < i32::MAX,
                4 <= height < i32::MAX,
                border_walls(map),
                1 <= y <= height - 1,
                rng.seed() == seed,
                rng.draws() == percent_span(((y - 1) * (width - 2)) as nat),
                forall|p: Position| #[trigger] map.spec_contains(p) ==> map.tile_at(p) == (if p.y < y {
                    noise_tile(seed, map, p)
                } else {
                    TileType::Wall
                }),
            decreases height - y,
        {
            let mut x: i32 = 1;
            while x < width - 1
                invariant
                    small_map(map),
                    map.spec_width() == width,
                    map.spec_height() == height,
                    4 <= width < i32::MAX,
                    4 <= height < i32::MAX,
                    border_walls(map),
                    1 <= y < height - 1,
                    1 <= x <= width - 1,
                    rng.seed() == seed,
                    rng.draws() == percent_span(((y - 1) * (width - 2) + (x - 1)) as nat),
                    forall|p: Position| #[trigger] map.spec_contains(p) ==> map.tile_at(p) == (if p.y < y || (p.y == y
                        && p.x < x) {
                        noise_tile(seed, map, p)
                    } else {
                        TileType::Wall
                    }),
                decreases width - x,
            {
                let ghost d0 = rng.draws();
                let ghost m0 = map;
                let roll = rng_range(&mut rng, 0, 100);
                let pos = Position::new(x, y);
                proof {
                    assert(noise_index(width as int, pos) == (y - 1) * (width - 2) + (x - 1));
                    assert(interior(map, pos));
                    assert(noise_tile(seed, map, pos) == (if roll < 45 {
                        TileType::Floor
                    } else {
                        TileType::Wall
                    }));
                    assert(rng.draws() =~= percent_span(((y - 1) * (width - 2) + x) as nat));
                }
                if roll < 45 {
                    map.set_tile(pos, TileType::Floor);
                }
                proof {
                    assert forall|p: Position| #[trigger] map.spec_contains(p) implies map.tile_at(p) == (if p.y < y || (p.y
                        == y && p.x < x + 1) {
                        noise_tile(seed, map, p)
                    } else {
                        TileType::Wall
                    }) by {
                        assert(m0.spec_contains(p));
                        if roll < 45 {
                            lemma_set_tile_reads(m0, map, pos, TileType::Floor, p);
                        }
                    }
                    assert forall|p: Position| #[trigger] map.spec_contains(p) && !interior(map, p) implies map.tile_at(p)
                        == TileType::Wall by {
                        assert(m0.spec_contains(p));
                        if roll < 45 {
                            lemma_set_tile_reads(m0, map, pos, TileType::Floor, p);
                        }
                    }
                }
                x = x + 1;
            }
            assert((y - 1) * (width - 2) + (width - 2) == y * (width - 2)) by (nonlinear_arith);
            y = y + 1;
        }
        assert(noise_drawn(seed, map));
        let ghost noise = map;
        let layout = lay_out_cave(map);
        let CaveLayout { map, player_start, stairs_down, candidates } = layout;
        let len = candidates.len();
        proof {
            map.lemma_wf_len();
            assert forall|a: int| 0 <= a < candidates@.len() implies 0 <= grid_index(width as int, #[trigger] candidates@[a])
                < width * height by {
                lemma_grid_index_bounds(width as int, height as int, candidates@[a]);
            }
            if len > 0 {
                lemma_increasing_len_last(width as int, candidates@, (width * height) as int);
            }
        }
        let ghost base = rng.draws();
        let mut swaps: Vec<usize> = Vec::new();
        let mut i: usize = 0;
        while i < len
            invariant
                len == candidates@.len(),
                len <= width * height,
                width * height <= i32::MAX,
                i <= len,
                swaps@.len() == i,
                forall|k: int| 0 <= k < swaps@.len() ==> (#[trigger] swaps@[k] as int) < len,
                rng.seed() == seed,
                rng.draws() == base + index_span(len as int, i as nat),
                forall|k: int| 0 <= k < i ==> #[trigger] swaps@[k] == drawn_swaps(seed, base, len as int)[k],
            decreases len - i,
        {
            let j = rng_range(&mut rng, 0, len as i32);
            swaps.push(j as usize);
            assert(rng.draws() =~= base + index_span(len as int, (i + 1) as nat));
            i = i + 1;
        }
        assert(swaps@ =~= drawn_swaps(seed, base, len as int));
        proof {
            assert forall|a: int, b: int|
                0 <= a < candidates@.len() && 0 <= b < candidates@.len() implies manhattan(
                #[trigger] candidates@[a],
                #[trigger] candidates@[b],
            ) <= i32::MAX by {
                assert(interior(map, candidates@[a]) && interior(map, candidates@[b]));
                lemma_sides_small(width as int, height as int);
            }
        }
        let combat_spawns = pick_spawns(&candidates, &swaps, depth as u64 + 1);
        proof {
            assert forall|i: int| 0 <= i < combat_spawns@.len() implies interior(map, #[trigger] combat_spawns@[i])
                && manhattan(combat_spawns@[i], player_start) >= 8 && (map.tile_at(combat_spawns@[i]) == TileType::Floor
                || map.tile_at(combat_spawns@[i]) == TileType::StairsDown) by {
                assert(candidates@.contains(combat_spawns@[i]));
                let k = choose|k: int| 0 <= k < candidates@.len() && candidates@[k] == combat_spawns@[i];
                assert(interior(map, candidates@[k]));
            }
            assert forall|i: int| 0 <= i < combat_spawns@.len() implies connects(map, player_start, #[trigger] combat_spawns@[i]) by {
                assert(candidates@.contains(combat_spawns@[i]));
                let k = choose|k: int| 0 <= k < candidates@.len() && candidates@[k] == combat_spawns@[i];
                assert(connects(map, player_start, candidates@[k]));
            }
        }
        proof {
            assert(noise.spec_width() == width && noise.spec_height() == height && noise_drawn(seed, noise) && cave_laid_out(
                noise,
                map,
                player_start,
                stairs_down,
            ));
            assert(cave_candidates(map, player_start, stairs_down, candidates@));
            assert(combat_spawns@ == spread_picks(
                shuffled(candidates@, drawn_swaps(seed, base, candidates@.len() as int), candidates@.len() as int),
                depth + 1,
            ));
        }
        MapGenOutput {
            map,
            player_start,
            stairs_up: player_start,
            stairs_down,
            combat_spawns,
            boss_spawns: Vec::new(),
        }
    }

    /// A cave of the standard size, drawn from `seed` (see
    /// `generate_cave_sized`).
    pub fn generate_cave(depth: u32, seed: u64) -> (out: MapGenOutput)
        ensures
            small_map(out.map),
            out.map.spec_width() == MAP_WIDTH,
            out.map.spec_height() == MAP_HEIGHT,
            border_walls(out.map),
            out.stairs_up == out.player_start,
            interior(out.map, out.player_start),
            interior(out.map, out.stairs_down),
            out.map.tile_at(out.stairs_down) == TileType::StairsDown,
            out.player_start != out.stairs_down ==> out.map.tile_at(out.player_start) == TileType::StairsUp,
            forall|q: Position| #[trigger] out.map.spec_contains(q) && out.map.tile_at(q) == TileType::Floor ==> manhattan(
                map_center(out.map),
                out.player_start,
            ) <= manhattan(map_center(out.map), q),
            out.combat_spawns@.len() <= depth + 1,
            forall|i: int| 0 <= i < out.combat_spawns@.len() ==> interior(out.map, #[trigger] out.combat_spawns@[i])
                && manhattan(out.combat_spawns@[i], out.player_start) >= 8 && (out.map.tile_at(out.combat_spawns@[i])
                == TileType::Floor || out.map.tile_at(out.combat_spawns@[i]) == TileType::StairsDown),
            forall|a: int, b: int|
                0 <= a < b < out.combat_spawns@.len() ==> manhattan(
                    #[trigger] out.combat_spawns@[a],
                    #[trigger] out.combat_spawns@[b],
                ) >= 5,
            out.boss_spawns@.len() == 0,
            connects(out.map, out.player_start, out.stairs_down),
            forall|i: int| 0 <= i < out.combat_spawns@.len() ==> connects(out.map, out.player_start, #[trigger] out.combat_spawns@[i]),
            cave_level(out, seed, depth),
    {
        TileMap::generate_cave_sized(MAP_WIDTH, MAP_HEIGHT, depth, seed)
    }
}

} // verus!
