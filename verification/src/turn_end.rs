//! The end of a turn that took time: the clock advances, the maze's walls
//! shift, the player's guard drops, and a player without hit points
//! perishes. The enemies' turns run in the Glyph interpreter, between the
//! shift and the guard.

use vstd::prelude::*;

use crate::entity::Position;
use crate::event_log::appended;
use crate::colors::red;
use crate::map::{lemma_set_tile_reads, TileMap, TileType, MAP_HEIGHT};
use crate::mechanics::{
    asks_to_hold_still, evacuation_column, evacuation_spot, gauntlet_barrier_evacuation_pos, map_with,
    shift_maze_walls,
};
use crate::player_move::{find_entity, moved_to, player_slot, set_entity};
use crate::save::{RestoredEntity, RestoredState};

verus! {

/// Where the living entities among the first `n` stand, in order.
pub open spec fn alive_positions(es: Seq<RestoredEntity>, n: int) -> Seq<Position>
    decreases n,
{
    if n <= 0 {
        Seq::empty()
    } else if es[n - 1].alive {
        alive_positions(es, n - 1).push(es[n - 1].pos)
    } else {
        alive_positions(es, n - 1)
    }
}

/// What the maze's shift does on turn `turn` (see `shift_maze_walls`):
/// nothing off depth 10 or without shifting walls; a console line asking
/// the walls to hold still freezes them for good; else the shifting walls
/// not stood on become walls on even turns and floor on odd ones.
pub open spec fn maze_shift(
    depth: u32,
    turn: u64,
    buffer: Seq<char>,
    walls: Seq<Position>,
    occupied: Seq<Position>,
    f0: bool,
    f1: bool,
    m0: TileMap,
    m1: TileMap,
    l0: Seq<(Seq<char>, Option<(u8, u8, u8)>)>,
    l1: Seq<(Seq<char>, Option<(u8, u8, u8)>)>,
) -> bool {
    if depth != 10 || walls.len() == 0 || f0 {
        f1 == f0 && m1 == m0 && l1 == l0
    } else if asks_to_hold_still(buffer) {
        &&& f1
        &&& m1 == m0
        &&& l1 == appended(l0, ("The walls shudder... and stop. The maze holds its breath."@, Some((0u8, 255u8, 255u8))))
    } else {
        &&& !f1
        &&& l1 == l0
        &&& map_with(
            m0,
            m1,
            |q: Position| walls.contains(q) && !occupied.contains(q),
            if turn % 2 == 0 {
                TileType::Wall
            } else {
                TileType::Floor
            },
        )
    }
}

/// The log after the maze's shift: it says so when the walls freeze.
pub open spec fn maze_log(
    depth: u32,
    buffer: Seq<char>,
    walls: Seq<Position>,
    f0: bool,
    l0: Seq<(Seq<char>, Option<(u8, u8, u8)>)>,
) -> Seq<(Seq<char>, Option<(u8, u8, u8)>)> {
    if depth == 10 && walls.len() > 0 && !f0 && asks_to_hold_still(buffer) {
        appended(l0, ("The walls shudder... and stop. The maze holds its breath."@, Some((0u8, 255u8, 255u8))))
    } else {
        l0
    }
}

/// Everything but the clock, the guard, the maze's walls and the log stays.
pub open spec fn rest_kept(a: RestoredState, b: RestoredState) -> bool {
    &&& b.depth == a.depth
    &&& b.player_id == a.player_id
    &&& b.facing == a.facing
    &&& b.player_can_attack == a.player_can_attack
    &&& b.wizard_taught == a.wizard_taught
    &&& b.wizard_id == a.wizard_id
    &&& b.cheat_unlocked == a.cheat_unlocked
    &&& b.entities@ == a.entities@
    &&& b.bindings@ == a.bindings@
    &&& b.user_source@ == a.user_source@
    &&& b.fragments.entries() == a.fragments.entries()
    &&& b.ending == a.ending
    &&& b.registry_write_unlocked == a.registry_write_unlocked
    &&& b.held_keys@ == a.held_keys@
    &&& b.held_items@ == a.held_items@
    &&& b.gauntlet_barrier_locked@ == a.gauntlet_barrier_locked@
    &&& b.explored_tiles@ == a.explored_tiles@
    &&& b.seen_entity_kinds@ == a.seen_entity_kinds@
    &&& b.seen_tile_types@ == a.seen_tile_types@
    &&& b.known_rule_ids@ == a.known_rule_ids@
    &&& b.console_history@ == a.console_history@
    &&& b.barrel_room_protected == a.barrel_room_protected
    &&& b.maze_shifting_walls@ == a.maze_shifting_walls@
}

fn alive_entity_positions(es: &Vec<RestoredEntity>) -> (r: Vec<Position>)
    ensures
        r@ == alive_positions(es@, es@.len() as int),
{
    let mut r: Vec<Position> = Vec::new();
    let mut k: usize = 0;
    while k < es.len()
        invariant
            k <= es@.len(),
            r@ == alive_positions(es@, k as int),
        decreases es.len() - k,
    {
        if es[k].alive {
            r.push(es[k].pos);
        }
        k = k + 1;
    }
    r
}

/// Ends a turn that took time (`console_buffer` is the line being typed):
/// the turn count goes up, the maze's walls shift (see `maze_shift`, on
/// the new turn, around the living entities), the player's guard drops,
/// and when the player has no hit points left the log says so. Returns
/// whether the player perished.
pub fn end_of_turn(s: &mut RestoredState, console_buffer: &str) -> (perished: bool)
    requires
        old(s).map.wf(),
        old(s).log.wf(),
        old(s).turn < u64::MAX,
        exists|k: int| 0 <= k < old(s).entities@.len() && old(s).entities@[k].id == old(s).player_id,
    ensures
        final(s).turn == old(s).turn + 1,
        !final(s).blocking,
        final(s).map.wf(),
        final(s).log.wf(),
        rest_kept(*old(s), *final(s)),
        perished == (old(s).entities@[player_slot(old(s).entities@, old(s).player_id)].hp_current <= 0),
        ({
            let mid = maze_log(
                old(s).depth,
                console_buffer@,
                old(s).maze_shifting_walls@,
                old(s).maze_shift_frozen,
                old(s).log.lines(),
            );
            &&& maze_shift(
                old(s).depth,
                (old(s).turn + 1) as u64,
                console_buffer@,
                old(s).maze_shifting_walls@,
                alive_positions(old(s).entities@, old(s).entities@.len() as int),
                old(s).maze_shift_frozen,
                final(s).maze_shift_frozen,
                old(s).map,
                final(s).map,
                old(s).log.lines(),
                mid,
            )
            &&& final(s).log.lines() == if perished {
                appended(mid, ("You have perished!"@, None))
            } else {
                mid
            }
        }),
{
    let p = find_entity(&s.entities, s.player_id);
    s.turn = s.turn + 1;
    let occupied = alive_entity_positions(&s.entities);
    let ghost m0 = s.map;
    let ghost l0 = s.log.lines();
    shift_maze_walls(
        s.depth,
        s.turn,
        console_buffer,
        &s.maze_shifting_walls,
        &occupied,
        &mut s.maze_shift_frozen,
        &mut s.map,
        &mut s.log,
    );
    let ghost mid = s.log.lines();
    assert(maze_shift(
        old(s).depth,
        (old(s).turn + 1) as u64,
        console_buffer@,
        old(s).maze_shifting_walls@,
        alive_positions(old(s).entities@, old(s).entities@.len() as int),
        old(s).maze_shift_frozen,
        s.maze_shift_frozen,
        old(s).map,
        s.map,
        old(s).log.lines(),
        mid,
    ));
    s.blocking = false;
    if s.entities[p].hp_current <= 0 {
        s.log.push("You have perished!".to_owned());
        return true;
    }
    false
}

/// The column of the `k`-th gauntlet barrier, west to east.
pub open spec fn barrier_x(k: int) -> int {
    7 + 6 * k
}

/// The row of the gauntlet's corridor.
pub open spec fn corridor_row() -> int {
    MAP_HEIGHT / 2
}

/// The index of the first living entity on `p` from `k` on; `-1` when
/// there is none.
pub open spec fn first_alive_at(es: Seq<RestoredEntity>, p: Position, k: int) -> int
    decreases es.len() - k,
{
    if k < 0 || k >= es.len() {
        -1
    } else if es[k].alive && es[k].pos == p {
        k
    } else {
        first_alive_at(es, p, k + 1)
    }
}

/// Where an entity caught in the barrier at `bx` goes: the first suitable
/// corridor tile (see `gauntlet_barrier_evacuation_pos`), if any.
pub open spec fn evacuation_of(map: TileMap, occupied: Seq<Position>, bx: int) -> Option<Position> {
    let y = corridor_row();
    if exists|k: int| 0 <= k < 16 && #[trigger] evacuation_spot(map, occupied, evacuation_column(bx, k), y) {
        let k = choose|k: int|
            0 <= k < 16 && #[trigger] evacuation_spot(map, occupied, evacuation_column(bx, k), y) && forall|j: int|
                0 <= j < k ==> !#[trigger] evacuation_spot(map, occupied, evacuation_column(bx, j), y);
        Some(Position { x: evacuation_column(bx, k) as i32, y: y as i32 })
    } else {
        None
    }
}

/// The entities after the barrier at `bx` closes its rows from `dy` to 2
/// (relative to the corridor): the first living entity on each row's tile
/// is moved out when a tile for it is found.
pub open spec fn evacuated_rows(es: Seq<RestoredEntity>, map: TileMap, bx: int, dy: int) -> Seq<RestoredEntity>
    decreases 3 - dy,
{
    if dy > 2 {
        es
    } else {
        let p = Position { x: bx as i32, y: (corridor_row() + dy) as i32 };
        let i = first_alive_at(es, p, 0);
        let next = if i >= 0 {
            match evacuation_of(map, alive_positions(es, es.len() as int), bx) {
                Some(q) => moved_to(es, i, q),
                None => es,
            }
        } else {
            es
        };
        evacuated_rows(next, map, bx, dy + 1)
    }
}

/// Whether the `k`-th barrier closes now: the player is past it and it is
/// not locked yet.
pub open spec fn closes(locked: Seq<i32>, px: int, k: int) -> bool {
    px > barrier_x(k) && !locked.contains(barrier_x(k) as i32)
}

/// The entities, the locked barriers and the log after the barriers from
/// the `k`-th on are checked against the player's column `px`.
pub open spec fn barriers_from(
    es: Seq<RestoredEntity>,
    locked: Seq<i32>,
    log: Seq<(Seq<char>, Option<(u8, u8, u8)>)>,
    map: TileMap,
    px: int,
    k: int,
) -> (Seq<RestoredEntity>, Seq<i32>, Seq<(Seq<char>, Option<(u8, u8, u8)>)>)
    decreases 8 - k,
{
    if k < 0 || k >= 8 {
        (es, locked, log)
    } else if closes(locked, px, k) {
        barriers_from(
            evacuated_rows(es, map, barrier_x(k), -2),
            locked.push(barrier_x(k) as i32),
            appended(log, ("A barrier slams shut behind you!"@, Some((255u8, 0u8, 0u8)))),
            map,
            px,
            k + 1,
        )
    } else {
        barriers_from(es, locked, log, map, px, k + 1)
    }
}

/// The tiles a closing barrier walls: the five rows around the corridor
/// in the column of each barrier the player has passed and that was not
/// locked.
pub open spec fn walled(locked: Seq<i32>, px: int, q: Position) -> bool {
    exists|k: int|
        0 <= k < 8 && #[trigger] barrier_x(k) == q.x && closes(locked, px, k) && corridor_row() - 2 <= q.y
            <= corridor_row() + 2
}

fn contains_i32(v: &Vec<i32>, x: i32) -> (b: bool)
    ensures
        b == v@.contains(x),
{
    let mut j: usize = 0;
    while j < v.len()
        invariant
            j <= v@.len(),
            forall|m: int| 0 <= m < j ==> v@[m] != x,
        decreases v.len() - j,
    {
        if v[j] == x {
            assert(v@[j as int] == x);
            return true;
        }
        j = j + 1;
    }
    false
}

fn find_alive_at(es: &Vec<RestoredEntity>, p: Position) -> (r: Option<usize>)
    ensures
        match r {
            Some(i) => first_alive_at(es@, p, 0) == i as int && (i as int) < es@.len(),
            None => first_alive_at(es@, p, 0) == -1,
        },
{
    let mut k: usize = 0;
    while k < es.len()
        invariant
            k <= es@.len(),
            first_alive_at(es@, p, 0) == first_alive_at(es@, p, k as int),
        decreases es.len() - k,
    {
        if es[k].alive && es[k].pos == p {
            return Some(k);
        }
        k = k + 1;
    }
    None
}

proof fn lemma_evacuation_of(m: TileMap, map: TileMap, occupied: Seq<Position>, bx: int, r: Option<Position>)
    requires
        m.tile_seq() == map.tile_seq(),
        m.spec_width() == map.spec_width(),
        m.spec_height() == map.spec_height(),
        match r {
            Some(p) => exists|k: int|
                0 <= k < 16 && p == (Position { x: evacuation_column(bx, k) as i32, y: corridor_row() as i32 })
                    && evacuation_spot(m, occupied, evacuation_column(bx, k), corridor_row()) && forall|j: int|
                    0 <= j < k ==> !#[trigger] evacuation_spot(m, occupied, evacuation_column(bx, j), corridor_row()),
            None => forall|k: int|
                0 <= k < 16 ==> !#[trigger] evacuation_spot(m, occupied, evacuation_column(bx, k), corridor_row()),
        },
    ensures
        r == evacuation_of(map, occupied, bx),
{
    let y = corridor_row();
    assert forall|x: int| #[trigger] evacuation_spot(m, occupied, x, y) == evacuation_spot(map, occupied, x, y) by {}
    match r {
        Some(p) => {
            let k = choose|k: int|
                0 <= k < 16 && p == (Position { x: evacuation_column(bx, k) as i32, y: y as i32 }) && evacuation_spot(
                    m,
                    occupied,
                    evacuation_column(bx, k),
                    y,
                ) && forall|j: int| 0 <= j < k ==> !#[trigger] evacuation_spot(m, occupied, evacuation_column(bx, j), y);
            assert(evacuation_spot(map, occupied, evacuation_column(bx, k), y));
            let c = choose|c: int|
                0 <= c < 16 && #[trigger] evacuation_spot(map, occupied, evacuation_column(bx, c), y) && forall|j: int|
                    0 <= j < c ==> !#[trigger] evacuation_spot(map, occupied, evacuation_column(bx, j), y);
            if c < k {
                assert(!evacuation_spot(m, occupied, evacuation_column(bx, c), y));
            } else if c > k {
                assert(!evacuation_spot(map, occupied, evacuation_column(bx, k), y));
            }
        },
        None => {
            assert forall|k: int| 0 <= k < 16 implies !#[trigger] evacuation_spot(
                map,
                occupied,
                evacuation_column(bx, k),
                y,
            ) by {
                assert(!evacuation_spot(m, occupied, evacuation_column(bx, k), y));
            }
        },
    }
}

/// The tiles walled so far: the rows of the barriers before the `k`-th
/// that close, and the rows of the `k`-th above `cy + dy` when `open` (the
/// barrier being closed).
pub open spec fn walled_so_far(locked: Seq<i32>, px: int, q: Position, k: int, dy: int, open: bool) -> bool {
    ||| exists|j: int|
        0 <= j < k && #[trigger] barrier_x(j) == q.x && closes(locked, px, j) && corridor_row() - 2 <= q.y
            <= corridor_row() + 2
    ||| open && q.x == barrier_x(k) && corridor_row() - 2 <= q.y < corridor_row() + dy
}

/// Closes the gauntlet's barriers behind the player: on the gauntlet
/// (depth 6) each barrier west of the player that is not locked yet is
/// locked, the first living entity on each of its five rows is moved to
/// the nearest free corridor tile beside it (see `evacuation_of`), its
/// rows become wall, and a red line says so (see `barriers_from`). Off
/// the gauntlet nothing changes.
pub fn close_gauntlet_barriers(s: &mut RestoredState)
    requires
        old(s).map.wf(),
        old(s).log.wf(),
        exists|k: int| 0 <= k < old(s).entities@.len() && old(s).entities@[k].id == old(s).player_id,
    ensures
        final(s).map.wf(),
        final(s).log.wf(),
        old(s).depth != 6 ==> final(s).map == old(s).map && final(s).entities@ == old(s).entities@
            && final(s).gauntlet_barrier_locked@ == old(s).gauntlet_barrier_locked@ && final(s).log.lines() == old(
            s,
        ).log.lines(),
        old(s).depth == 6 ==> {
            let px = old(s).entities@[player_slot(old(s).entities@, old(s).player_id)].pos.x as int;
            let after = barriers_from(
                old(s).entities@,
                old(s).gauntlet_barrier_locked@,
                old(s).log.lines(),
                old(s).map,
                px,
                0,
            );
            &&& final(s).entities@ == after.0
            &&& final(s).gauntlet_barrier_locked@ == after.1
            &&& final(s).log.lines() == after.2
            &&& map_with(
                old(s).map,
                final(s).map,
                |q: Position| walled(old(s).gauntlet_barrier_locked@, px, q),
                TileType::Wall,
            )
        },
{
    if s.depth != 6 {
        return;
    }
    let p = find_entity(&s.entities, s.player_id);
    let px = s.entities[p].pos.x;
    let m0 = s.map.duplicate();
    let ghost e0 = s.entities@;
    let ghost l0 = s.log.lines();
    let ghost k0 = s.gauntlet_barrier_locked@;
    let ghost map0 = s.map;
    let ghost target = barriers_from(e0, k0, l0, map0, px as int, 0);
    let cy: i32 = MAP_HEIGHT / 2;
    let mut k: i32 = 0;
    while k < 8
        invariant
            0 <= k <= 8,
            s.map.wf(),
            s.log.wf(),
            map0 == old(s).map,
            k0 == old(s).gauntlet_barrier_locked@,
            s.map.spec_width() == map0.spec_width(),
            s.map.spec_height() == map0.spec_height(),
            m0.tile_seq() == map0.tile_seq(),
            m0.spec_width() == map0.spec_width(),
            m0.spec_height() == map0.spec_height(),
            m0.wf(),
            cy == corridor_row(),
            target == barriers_from(s.entities@, s.gauntlet_barrier_locked@, s.log.lines(), map0, px as int, k as int),
            forall|j: int|
                k <= j < 8 ==> (s.gauntlet_barrier_locked@.contains(#[trigger] barrier_x(j) as i32) == k0.contains(
                    barrier_x(j) as i32,
                )),
            forall|q: Position| #[trigger] s.map.spec_contains(q) ==> s.map.tile_at(q) == (if walled_so_far(
                k0,
                px as int,
                q,
                k as int,
                0,
                false,
            ) {
                TileType::Wall
            } else {
                map0.tile_at(q)
            }),
        decreases 8 - k,
    {
        let bx: i32 = 7 + 6 * k;
        assert(bx == barrier_x(k as int));
        let locked = contains_i32(&s.gauntlet_barrier_locked, bx);
        assert(locked == s.gauntlet_barrier_locked@.contains(bx));
        let ghost lk = s.gauntlet_barrier_locked@;
        if px > bx && !locked {
            assert(closes(k0, px as int, k as int));
            let ghost es_start = s.entities@;
            let ghost lg = s.log.lines();
            s.gauntlet_barrier_locked.push(bx);
            let mut dy: i32 = -2;
            while dy <= 2
                invariant
                    -2 <= dy <= 3,
                    0 <= k < 8,
                    s.log.wf(),
                    s.log.lines() == lg,
                    s.gauntlet_barrier_locked@ == lk.push(bx),
                    bx == barrier_x(k as int),
                    closes(k0, px as int, k as int),
                    s.map.wf(),
                    s.map.spec_width() == map0.spec_width(),
                    s.map.spec_height() == map0.spec_height(),
                    m0.tile_seq() == map0.tile_seq(),
                    m0.spec_width() == map0.spec_width(),
                    m0.spec_height() == map0.spec_height(),
                    m0.wf(),
                    cy == corridor_row(),
                    evacuated_rows(es_start, map0, bx as int, -2) == evacuated_rows(
                        s.entities@,
                        map0,
                        bx as int,
                        dy as int,
                    ),
                    forall|q: Position| #[trigger] s.map.spec_contains(q) ==> s.map.tile_at(q) == (if walled_so_far(
                        k0,
                        px as int,
                        q,
                        k as int,
                        dy as int,
                        true,
                    ) {
                        TileType::Wall
                    } else {
                        map0.tile_at(q)
                    }),
                decreases 3 - dy,
            {
                let pos = Position::new(bx, cy + dy);
                let ghost es_now = s.entities@;
                match find_alive_at(&s.entities, pos) {
                    Some(i) => {
                        let occ = alive_entity_positions(&s.entities);
                        let r = gauntlet_barrier_evacuation_pos(&m0, &occ, bx, cy);
                        proof {
                            lemma_evacuation_of(m0, map0, occ@, bx as int, r);
                        }
                        match r {
                            Some(q) => {
                                let hp = s.entities[i].hp_current;
                                let alive = s.entities[i].alive;
                                set_entity(&mut s.entities, i, q, hp, alive);
                                assert(s.entities@ =~= moved_to(es_now, i as int, q));
                            },
                            None => {},
                        }
                    },
                    None => {},
                }
                let ghost mb = s.map;
                s.map.set_tile(pos, TileType::Wall);
                proof {
                    assert forall|q: Position| #[trigger] s.map.spec_contains(q) implies s.map.tile_at(q) == (
                    if walled_so_far(k0, px as int, q, k as int, dy + 1, true) {
                        TileType::Wall
                    } else {
                        map0.tile_at(q)
                    }) by {
                        assert(mb.spec_contains(q));
                        if mb.spec_contains(pos) {
                            lemma_set_tile_reads(mb, s.map, pos, TileType::Wall, q);
                        }
                    }
                }
                dy = dy + 1;
            }
            s.log.push_colored("A barrier slams shut behind you!".to_owned(), red());
            proof {
                assert(s.gauntlet_barrier_locked@ == lk.push(bx));
                assert forall|q: Position| #[trigger] s.map.spec_contains(q) implies s.map.tile_at(q) == (
                if walled_so_far(k0, px as int, q, k + 1, 0, false) {
                    TileType::Wall
                } else {
                    map0.tile_at(q)
                }) by {
                    if walled_so_far(k0, px as int, q, k as int, 3, true) {
                        if q.x == barrier_x(k as int) && corridor_row() - 2 <= q.y < corridor_row() + 3 {
                            assert(barrier_x(k as int) == q.x);
                        } else {
                            let w = choose|w: int|
                                0 <= w < k && #[trigger] barrier_x(w) == q.x && closes(k0, px as int, w)
                                    && corridor_row() - 2 <= q.y <= corridor_row() + 2;
                            assert(barrier_x(w) == q.x);
                        }
                    }
                    if walled_so_far(k0, px as int, q, k + 1, 0, false) {
                        let w = choose|w: int|
                            0 <= w < k + 1 && #[trigger] barrier_x(w) == q.x && closes(k0, px as int, w)
                                && corridor_row() - 2 <= q.y <= corridor_row() + 2;
                        if w < k {
                            assert(barrier_x(w) == q.x);
                        }
                    }
                }
                assert forall|j: int| k + 1 <= j < 8 implies (s.gauntlet_barrier_locked@.contains(
                    #[trigger] barrier_x(j) as i32,
                ) == k0.contains(barrier_x(j) as i32)) by {
                    assert(lk.contains(barrier_x(j) as i32) == k0.contains(barrier_x(j) as i32));
                    if s.gauntlet_barrier_locked@.contains(barrier_x(j) as i32) && !lk.contains(barrier_x(j) as i32) {
                        let w = choose|w: int|
                            0 <= w < s.gauntlet_barrier_locked@.len() && s.gauntlet_barrier_locked@[w] == barrier_x(
                                j,
                            ) as i32;
                        if w < lk.len() {
                            assert(lk[w] == barrier_x(j) as i32);
                        }
                    }
                    if lk.contains(barrier_x(j) as i32) {
                        let w = choose|w: int| 0 <= w < lk.len() && lk[w] == barrier_x(j) as i32;
                        assert(s.gauntlet_barrier_locked@[w] == barrier_x(j) as i32);
                    }
                }
            }
        } else {
            proof {
                assert(!closes(k0, px as int, k as int));
                assert forall|q: Position| #[trigger] s.map.spec_contains(q) implies s.map.tile_at(q) == (
                if walled_so_far(k0, px as int, q, k + 1, 0, false) {
                    TileType::Wall
                } else {
                    map0.tile_at(q)
                }) by {
                    if walled_so_far(k0, px as int, q, k + 1, 0, false) {
                        let w = choose|w: int|
                            0 <= w < k + 1 && #[trigger] barrier_x(w) == q.x && closes(k0, px as int, w)
                                && corridor_row() - 2 <= q.y <= corridor_row() + 2;
                        assert(w != k);
                        assert(barrier_x(w) == q.x);
                    }
                }
            }
        }
        k = k + 1;
    }
    proof {
        assert forall|q: Position| #[trigger] s.map.spec_contains(q) implies s.map.tile_at(q) == (if walled(
            k0,
            px as int,
            q,
        ) {
            TileType::Wall
        } else {
            map0.tile_at(q)
        }) by {
            assert(walled(k0, px as int, q) == walled_so_far(k0, px as int, q, 8, 0, false));
        }
    }
}

} // verus!
