//! The steps the enemy rules take: toward a target along the distance
//! field, away from a threat, or to a neighbouring tile picked from the
//! turn.

use vstd::prelude::*;

use crate::entity::{manhattan, Position};
use crate::map::{neighbor, TileMap, UNREACHED};

verus! {

/// The four steps the rules try, in order: north, south, west, east.
pub open spec fn rule_step(p: Position, k: int) -> Position {
    if k == 0 {
        Position { x: p.x, y: (p.y - 1) as i32 }
    } else if k == 1 {
        Position { x: p.x, y: (p.y + 1) as i32 }
    } else if k == 2 {
        Position { x: (p.x - 1) as i32, y: p.y }
    } else {
        Position { x: (p.x + 1) as i32, y: p.y }
    }
}

/// A tile a creature may step onto: walkable, not the player's, and no
/// other entity on it.
pub open spec fn free_tile(m: TileMap, p: Position, player: Position, others: Seq<Position>) -> bool {
    m.walkable_at(p) && p != player && !others.contains(p)
}

/// Coordinates small enough for every sum and distance here.
pub open spec fn small_pos(p: Position) -> bool {
    -0x1000_0000 <= p.x <= 0x1000_0000 && -0x1000_0000 <= p.y <= 0x1000_0000
}

fn step_of(p: Position, k: usize) -> (q: Position)
    requires
        small_pos(p),
        k < 4,
    ensures
        q == rule_step(p, k as int),
{
    if k == 0 {
        Position::new(p.x, p.y - 1)
    } else if k == 1 {
        Position::new(p.x, p.y + 1)
    } else if k == 2 {
        Position::new(p.x - 1, p.y)
    } else {
        Position::new(p.x + 1, p.y)
    }
}

fn is_free(map: &TileMap, p: Position, player: Position, others: &Vec<Position>) -> (b: bool)
    requires
        map.wf(),
    ensures
        b == free_tile(*map, p, player, others@),
{
    if !map.is_walkable(p) || p == player {
        return false;
    }
    let mut j: usize = 0;
    while j < others.len()
        invariant
            j <= others@.len(),
            forall|i: int| 0 <= i < j ==> others@[i] != p,
        decreases others.len() - j,
    {
        if others[j] == p {
            assert(others@.contains(p));
            return false;
        }
        j = j + 1;
    }
    true
}

/// Whether `p` is one of `ps`.
fn holds(ps: &Vec<Position>, p: Position) -> (b: bool)
    ensures
        b == ps@.contains(p),
{
    let mut j: usize = 0;
    while j < ps.len()
        invariant
            j <= ps@.len(),
            forall|i: int| 0 <= i < j ==> ps@[i] != p,
        decreases ps.len() - j,
    {
        if ps[j] == p {
            assert(ps@.contains(p));
            return true;
        }
        j = j + 1;
    }
    false
}

// ---------------------------------------------------------------------------
// Fleeing

/// The flee step over the first `k` directions: the free tile that lies
/// strictly farther from the threat than the best so far (the creature's own
/// distance to start with); a later tile replaces an earlier one only when it
/// is strictly farther.
pub open spec fn flee_from(m: TileMap, pos: Position, threat: Position, player: Position, others: Seq<Position>, k: int) -> Option<Position>
    decreases k,
{
    if k <= 0 {
        None
    } else {
        let prev = flee_from(m, pos, threat, player, others, k - 1);
        let best = match prev {
            Some(q) => manhattan(q, threat),
            None => manhattan(pos, threat),
        };
        let c = rule_step(pos, k - 1);
        if free_tile(m, c, player, others) && manhattan(c, threat) > best {
            Some(c)
        } else {
            prev
        }
    }
}

/// A flee step only ever moves away: of the first `k` neighbours, the step
/// is the first free one farthest from the threat and strictly farther
/// than the creature stands; there is none exactly when no free neighbour
/// among them lies strictly farther.
pub proof fn lemma_flee_moves_away(
    m: TileMap,
    pos: Position,
    threat: Position,
    player: Position,
    others: Seq<Position>,
    k: int,
)
    requires
        0 <= k <= 4,
    ensures
        match flee_from(m, pos, threat, player, others, k) {
            Some(q) => exists|i: int|
                {
                    &&& 0 <= i < k
                    &&& q == #[trigger] rule_step(pos, i)
                    &&& free_tile(m, q, player, others)
                    &&& manhattan(q, threat) > manhattan(pos, threat)
                    &&& forall|j: int|
                        0 <= j < i && free_tile(m, rule_step(pos, j), player, others) ==> manhattan(
                            #[trigger] rule_step(pos, j),
                            threat,
                        ) < manhattan(q, threat)
                    &&& forall|j: int|
                        0 <= j < k && free_tile(m, rule_step(pos, j), player, others) ==> manhattan(
                            #[trigger] rule_step(pos, j),
                            threat,
                        ) <= manhattan(q, threat)
                },
            None => forall|j: int|
                0 <= j < k && free_tile(m, rule_step(pos, j), player, others) ==> manhattan(
                    #[trigger] rule_step(pos, j),
                    threat,
                ) <= manhattan(pos, threat),
        },
    decreases k,
{
    if k > 0 {
        lemma_flee_moves_away(m, pos, threat, player, others, k - 1);
        let prev = flee_from(m, pos, threat, player, others, k - 1);
        let c = rule_step(pos, k - 1);
        match prev {
            Some(q) => {
                let i = choose|i: int|
                    {
                        &&& 0 <= i < k - 1
                        &&& q == #[trigger] rule_step(pos, i)
                        &&& free_tile(m, q, player, others)
                        &&& manhattan(q, threat) > manhattan(pos, threat)
                        &&& forall|j: int|
                            0 <= j < i && free_tile(m, rule_step(pos, j), player, others) ==> manhattan(
                                #[trigger] rule_step(pos, j),
                                threat,
                            ) < manhattan(q, threat)
                        &&& forall|j: int|
                            0 <= j < k - 1 && free_tile(m, rule_step(pos, j), player, others) ==> manhattan(
                                #[trigger] rule_step(pos, j),
                                threat,
                            ) <= manhattan(q, threat)
                    };
                if free_tile(m, c, player, others) && manhattan(c, threat) > manhattan(q, threat) {
                    assert(c == rule_step(pos, k - 1));
                } else {
                    assert(q == rule_step(pos, i));
                }
            },
            None => {
                if free_tile(m, c, player, others) && manhattan(c, threat) > manhattan(pos, threat) {
                    assert(c == rule_step(pos, k - 1));
                }
            },
        }
    }
}

/// Where a creature at `pos` flees from a threat: of the free tiles north,
/// south, west and east of it, the first that is farthest from the threat,
/// provided it is farther than the creature stands now; `None` when no such
/// tile is free.
pub fn flee_step(map: &TileMap, pos: Position, threat: Position, player: Position, others: &Vec<Position>) -> (next: Option<Position>)
    requires
        map.wf(),
        small_pos(pos),
        small_pos(threat),
    ensures
        next == flee_from(*map, pos, threat, player, others@, 4),
        match next {
            Some(q) => exists|i: int|
                {
                    &&& 0 <= i < 4
                    &&& q == #[trigger] rule_step(pos, i)
                    &&& free_tile(*map, q, player, others@)
                    &&& manhattan(q, threat) > manhattan(pos, threat)
                    &&& forall|j: int|
                        0 <= j < i && free_tile(*map, rule_step(pos, j), player, others@) ==> manhattan(
                            #[trigger] rule_step(pos, j),
                            threat,
                        ) < manhattan(q, threat)
                    &&& forall|j: int|
                        0 <= j < 4 && free_tile(*map, rule_step(pos, j), player, others@) ==> manhattan(
                            #[trigger] rule_step(pos, j),
                            threat,
                        ) <= manhattan(q, threat)
                },
            None => forall|j: int|
                0 <= j < 4 && free_tile(*map, rule_step(pos, j), player, others@) ==> manhattan(
                    #[trigger] rule_step(pos, j),
                    threat,
                ) <= manhattan(pos, threat),
        },
{
    proof {
        lemma_flee_moves_away(*map, pos, threat, player, others@, 4);
    }
    let mut best: Option<Position> = None;
    let mut best_dist = pos.manhattan_distance(threat);
    let mut k: usize = 0;
    while k < 4
        invariant
            k <= 4,
            map.wf(),
            small_pos(pos),
            small_pos(threat),
            best == flee_from(*map, pos, threat, player, others@, k as int),
            best_dist == (match best {
                Some(q) => manhattan(q, threat),
                None => manhattan(pos, threat),
            }),
        decreases 4 - k,
    {
        let c = step_of(pos, k);
        if is_free(map, c, player, others) {
            let d = c.manhattan_distance(threat);
            if d > best_dist {
                best_dist = d;
                best = Some(c);
            }
        }
        k = k + 1;
    }
    best
}

// ---------------------------------------------------------------------------
// Wandering

/// The direction a wandering creature tries first: its coordinates and the
/// turn mixed, modulo four.
pub open spec fn wander_start(pos: Position, turn: u64) -> int {
    (7 * pos.x + 3 * pos.y + turn) % 4
}

/// The wander step over the directions from the `i`-th try on.
pub open spec fn wander_from(m: TileMap, pos: Position, player: Position, others: Seq<Position>, start: int, i: int) -> Option<Position>
    decreases 4 - i,
{
    if i < 0 || i >= 4 {
        None
    } else if free_tile(m, rule_step(pos, (start + i) % 4), player, others) {
        Some(rule_step(pos, (start + i) % 4))
    } else {
        wander_from(m, pos, player, others, start, i + 1)
    }
}

/// Where a wandering creature at `pos` steps on turn `turn`: trying the
/// directions north, south, west, east in turn from the one
/// `wander_start` picks, the first free tile; `None` when none is.
pub fn random_step(map: &TileMap, pos: Position, turn: u64, player: Position, others: &Vec<Position>) -> (next: Option<Position>)
    requires
        map.wf(),
        small_pos(pos),
    ensures
        next == wander_from(*map, pos, player, others@, wander_start(pos, turn), 0),
{
    let mixed: i64 = 7 * (pos.x as i64) + 3 * (pos.y as i64) + ((turn % 4) as i64) + 0x10_0000_0000;
    let start = (mixed as u64 % 4) as usize;
    proof {
        let t = (turn % 4) as int;
        let v = 7 * pos.x + 3 * pos.y;
        assert((v + t + 0x10_0000_0000) % 4 == (v + turn) % 4) by (nonlinear_arith)
            requires
                t == turn % 4,
                0 <= turn,
        {
            vstd::arithmetic::div_mod::lemma_fundamental_div_mod(turn as int, 4);
            vstd::arithmetic::div_mod::lemma_mod_add_multiples_vanish(v + t, 4);
        }
        assert(start == wander_start(pos, turn));
    }
    let mut i: usize = 0;
    while i < 4
        invariant
            i <= 4,
            start < 4,
            start == wander_start(pos, turn),
            map.wf(),
            small_pos(pos),
            wander_from(*map, pos, player, others@, start as int, 0) == wander_from(
                *map,
                pos,
                player,
                others@,
                start as int,
                i as int,
            ),
        decreases 4 - i,
    {
        let c = step_of(pos, (start + i) % 4);
        if is_free(map, c, player, others) {
            return Some(c);
        }
        i = i + 1;
    }
    None
}

// ---------------------------------------------------------------------------
// Chasing

/// `step` is what the map's distance field gives as the best step from
/// `from`: none when `from` is off the map, unreached, or has no neighbour
/// nearer the target; else the first neighbour (south, north, east, west)
/// nearest the target, nearer than `from`.
pub open spec fn best_step(m: TileMap, from: Position, step: Option<Position>) -> bool {
    &&& (!m.spec_contains(from) || m.distance_at(from) == UNREACHED) ==> step.is_none()
    &&& m.spec_contains(from) && m.distance_at(from) != UNREACHED ==> match step {
        None => forall|j: int| 0 <= j < 4 && #[trigger] m.spec_contains(neighbor(from, j))
            ==> m.distance_at(neighbor(from, j)) >= m.distance_at(from),
        Some(q) => exists|k: int|
            {
                &&& 0 <= k < 4
                &&& q == neighbor(from, k)
                &&& m.spec_contains(q)
                &&& m.distance_at(q) < m.distance_at(from)
                &&& forall|j: int| 0 <= j < 4 && #[trigger] m.spec_contains(neighbor(from, j))
                    ==> m.distance_at(q) <= m.distance_at(neighbor(from, j))
                &&& forall|j: int| 0 <= j < k && #[trigger] m.spec_contains(neighbor(from, j))
                    ==> m.distance_at(q) < m.distance_at(neighbor(from, j))
            },
    }
}

/// Where a creature at `pos` chasing `target` steps: the best step of the
/// distance field towards the target, unless that is the target's own tile,
/// not walkable, or another entity (of `others`) stands on it.
pub fn step_toward(map: &mut TileMap, pos: Position, target: Position, others: &Vec<Position>) -> (next: Option<Position>)
    requires
        old(map).wf(),
    ensures
        final(map).wf(),
        final(map).spec_width() == old(map).spec_width(),
        final(map).spec_height() == old(map).spec_height(),
        final(map).tile_seq() == old(map).tile_seq(),
        pos == target ==> next.is_none() && *final(map) == *old(map),
        pos != target ==> final(map).distance_target() == target,
        pos != target ==> exists|b: Option<Position>|
            #[trigger] best_step(*final(map), pos, b) && next == (match b {
                Some(q) => if q != target && final(map).walkable_at(q) && !others@.contains(q) {
                    Some(q)
                } else {
                    None
                },
                None => None,
            }),
{
    if pos == target {
        return None;
    }
    map.compute_dijkstra(target);
    let b = map.dijkstra_best_step(pos);
    assert(best_step(*map, pos, b));
    match b {
        Some(q) => {
            if q == target || !map.is_walkable(q) {
                return None;
            }
            if holds(others, q) {
                return None;
            }
            Some(q)
        },
        None => None,
    }
}

} // verus!
