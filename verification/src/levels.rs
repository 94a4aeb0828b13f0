//! Hand-built level maps.

use vstd::prelude::*;

use crate::cave::{border_walls, cave_level, far_from_all, interior, small_map};
use crate::entity::{manhattan, Position};
use crate::map::{
    find_stairs_down, lemma_set_tile_reads, row_major_before, MapGenOutput, Room, RoomType, TileMap, TileType, MAP_HEIGHT,
    MAP_WIDTH,
};
use crate::mapgen::{percent_span, rooms_level};
use crate::rng::{rng_range, seeded_draw, seeded_rng};
use crate::walks::{connects, connects_past, lemma_connects_past};

verus! {

/// The tile of the wizard's chamber: a 12 by 9 room at `(14, 8)` with the
/// up stairs at its west end and the down stairs at its east end, walls
/// everywhere else.
pub open spec fn wizard_box_tile(p: Position) -> TileType {
    if p.x == 15 && p.y == 12 {
        TileType::StairsUp
    } else if p.x == 24 && p.y == 12 {
        TileType::StairsDown
    } else if 14 <= p.x < 26 && 8 <= p.y < 17 {
        TileType::Floor
    } else {
        TileType::Wall
    }
}

/// Build the map of the wizard's tutorial chamber: a single room in the
/// middle of a walled map, with no enemy spawns.
pub fn generate_wizard_box() -> (out: MapGenOutput)
    ensures
        out.map.wf(),
        out.map.spec_width() == MAP_WIDTH,
        out.map.spec_height() == MAP_HEIGHT,
        forall|p: Position| #[trigger] out.map.spec_contains(p) ==> out.map.tile_at(p) == wizard_box_tile(p),
        out.player_start == (Position { x: 15i32, y: 12i32 }),
        out.stairs_up == out.player_start,
        out.stairs_down == (Position { x: 24i32, y: 12i32 }),
        out.combat_spawns@.len() == 0,
        out.boss_spawns@.len() == 0,
{
    let mut map = TileMap::new_filled(MAP_WIDTH, MAP_HEIGHT, TileType::Wall);

    let room_x: i32 = 14;
    let room_y: i32 = 8;
    let room_w: i32 = 12;
    let room_h: i32 = 9;
    let room = Room { x: room_x, y: room_y, w: room_w, h: room_h, kind: RoomType::Entrance };
    map.carve_room(&room);

    let player_start = Position::new(room_x + 1, room_y + room_h / 2);
    let stairs_down = Position::new(room_x + room_w - 2, room_y + room_h / 2);

    let ghost m0 = map;
    map.set_tile(player_start, TileType::StairsUp);
    let ghost m1 = map;
    map.set_tile(stairs_down, TileType::StairsDown);
    proof {
        assert forall|p: Position| #[trigger] map.spec_contains(p) implies map.tile_at(p) == wizard_box_tile(p) by {
            assert(m0.spec_contains(p));
            lemma_set_tile_reads(m0, m1, player_start, TileType::StairsUp, p);
            lemma_set_tile_reads(m1, map, stairs_down, TileType::StairsDown, p);
        }
    }

    MapGenOutput {
        map,
        player_start,
        stairs_up: player_start,
        stairs_down,
        combat_spawns: Vec::new(),
        boss_spawns: Vec::new(),
    }
}


// ---------------------------------------------------------------------------
// Painting rectangles

/// A rectangle `(x, y, width, height)` given by its top-left tile and size.
pub type Rect = (i32, i32, i32, i32);

/// Whether `p` lies in the rectangle.
pub open spec fn in_rect(r: Rect, p: Position) -> bool {
    r.0 <= p.x < r.0 + r.2 && r.1 <= p.y < r.1 + r.3
}

/// Whether `p` lies in one of the rectangles.
pub open spec fn in_some_rect(rs: Seq<Rect>, p: Position) -> bool {
    exists|k: int| 0 <= k < rs.len() && in_rect(#[trigger] rs[k], p)
}

/// Rectangles of a hand-built level: small, with a non-negative corner.
pub open spec fn level_rect(r: Rect) -> bool {
    0 <= r.0 <= 1000 && 0 <= r.1 <= 1000 && 0 <= r.2 <= 1000 && 0 <= r.3 <= 1000
}

/// Set every tile of the rectangle that lies on the map.
fn fill_rect(map: &mut TileMap, r: Rect, tile: TileType)
    requires
        old(map).wf(),
        level_rect(r),
    ensures
        final(map).wf(),
        final(map).spec_width() == old(map).spec_width(),
        final(map).spec_height() == old(map).spec_height(),
        forall|p: Position| #[trigger] final(map).spec_contains(p) ==> final(map).tile_at(p) == (if in_rect(r, p) {
            tile
        } else {
            old(map).tile_at(p)
        }),
{
    let ghost m0 = *map;
    let (rx, ry, rw, rh) = r;
    let mut y = ry;
    while y < ry + rh
        invariant
            map.wf(),
            level_rect(r),
            r == (rx, ry, rw, rh),
            ry <= y <= ry + rh,
            map.spec_width() == m0.spec_width(),
            map.spec_height() == m0.spec_height(),
            forall|p: Position| #[trigger] map.spec_contains(p) ==> map.tile_at(p) == (if in_rect(r, p) && p.y < y {
                tile
            } else {
                m0.tile_at(p)
            }),
        decreases ry + rh - y,
    {
        let mut x = rx;
        while x < rx + rw
            invariant
                map.wf(),
                level_rect(r),
                r == (rx, ry, rw, rh),
                ry <= y < ry + rh,
                rx <= x <= rx + rw,
                map.spec_width() == m0.spec_width(),
                map.spec_height() == m0.spec_height(),
                forall|p: Position| #[trigger] map.spec_contains(p) ==> map.tile_at(p) == (if in_rect(r, p) && (p.y < y
                    || (p.y == y && p.x < x)) {
                    tile
                } else {
                    m0.tile_at(p)
                }),
            decreases rx + rw - x,
        {
            let ghost before = *map;
            let cell = Position::new(x, y);
            map.set_tile(cell, tile);
            proof {
                assert forall|p: Position| #[trigger] map.spec_contains(p) implies map.tile_at(p) == (if in_rect(r, p)
                    && (p.y < y || (p.y == y && p.x < x + 1)) {
                    tile
                } else {
                    m0.tile_at(p)
                }) by {
                    assert(before.spec_contains(p));
                    if before.spec_contains(cell) {
                        lemma_set_tile_reads(before, *map, cell, tile, p);
                    }
                }
            }
            x = x + 1;
        }
        y = y + 1;
    }
}

/// Set every tile of every rectangle that lies on the map.
fn fill_rects(map: &mut TileMap, rs: &Vec<Rect>, tile: TileType)
    requires
        old(map).wf(),
        forall|k: int| 0 <= k < rs@.len() ==> level_rect(#[trigger] rs@[k]),
    ensures
        final(map).wf(),
        final(map).spec_width() == old(map).spec_width(),
        final(map).spec_height() == old(map).spec_height(),
        forall|p: Position| #[trigger] final(map).spec_contains(p) ==> final(map).tile_at(p) == (if in_some_rect(rs@, p) {
            tile
        } else {
            old(map).tile_at(p)
        }),
{
    let ghost m0 = *map;
    let mut k: usize = 0;
    while k < rs.len()
        invariant
            map.wf(),
            forall|j: int| 0 <= j < rs@.len() ==> level_rect(#[trigger] rs@[j]),
            k <= rs@.len(),
            map.spec_width() == m0.spec_width(),
            map.spec_height() == m0.spec_height(),
            forall|p: Position| #[trigger] map.spec_contains(p) ==> map.tile_at(p) == (if in_some_rect(rs@.take(k as int), p) {
                tile
            } else {
                m0.tile_at(p)
            }),
        decreases rs@.len() - k,
    {
        let ghost before = *map;
        let r = rs[k];
        fill_rect(map, r, tile);
        proof {
            assert forall|p: Position| #[trigger] map.spec_contains(p) implies map.tile_at(p) == (if in_some_rect(
                rs@.take(k + 1),
                p,
            ) {
                tile
            } else {
                m0.tile_at(p)
            }) by {
                assert(before.spec_contains(p));
                let pre = rs@.take(k as int);
                let post = rs@.take(k + 1);
                assert(post[k as int] == r);
                if in_some_rect(pre, p) {
                    let j = choose|j: int| 0 <= j < pre.len() && in_rect(#[trigger] pre[j], p);
                    assert(post[j] == pre[j]);
                }
                if in_some_rect(post, p) && !in_rect(r, p) {
                    let j = choose|j: int| 0 <= j < post.len() && in_rect(#[trigger] post[j], p);
                    assert(j != k);
                    assert(pre[j] == post[j]);
                }
            }
        }
        k = k + 1;
    }
    assert(rs@.take(rs@.len() as int) =~= rs@);
}


// ---------------------------------------------------------------------------
// Depth 3: the quiet halls

/// The cave chambers of the quiet halls and the corridors between them.
pub open spec fn quiet_halls_rooms() -> Seq<Rect> {
    seq![
        (3i32, 5i32, 12i32, 12i32),
        (15, 8, 10, 7),
        (24, 4, 12, 15),
        (36, 7, 12, 8),
        (25, 21, 14, 8),
        (41, 17, 10, 10),
        (8, 20, 13, 8),
        (17, 2, 9, 4),
        (43, 27, 8, 4),
        (12, 10, 7, 3),
        (22, 10, 7, 3),
        (33, 10, 7, 3),
        (45, 13, 3, 8),
        (34, 24, 10, 3),
        (17, 14, 3, 9),
        (19, 4, 3, 6),
        (34, 17, 3, 8),
        (38, 24, 9, 3),
        (47, 26, 3, 4),
    ]
}

/// The rock teeth (two by two) and the three gate walls of the quiet halls.
pub open spec fn quiet_halls_walls() -> Seq<Rect> {
    seq![
        (8i32, 8i32, 2i32, 2i32),
        (10, 14, 2, 2),
        (29, 7, 2, 2),
        (32, 14, 2, 2),
        (40, 10, 2, 2),
        (29, 24, 2, 2),
        (35, 26, 2, 2),
        (49, 22, 2, 2),
        (12, 23, 2, 2),
        (18, 25, 2, 2),
        (16, 8, 1, 7),
        (35, 7, 1, 8),
        (41, 20, 10, 1),
    ]
}

/// The openings in the three gate walls, where the barrels stand.
pub open spec fn quiet_halls_gates() -> Seq<Rect> {
    seq![(16i32, 10i32, 1i32, 3i32), (35, 10, 1, 3), (46, 20, 3, 1)]
}

/// The tile of the quiet halls at `p`.
pub open spec fn quiet_halls_tile(p: Position) -> TileType {
    if p == (Position { x: 48i32, y: 29i32 }) {
        TileType::StairsDown
    } else if p == (Position { x: 5i32, y: 10i32 }) {
        TileType::StairsUp
    } else if in_some_rect(quiet_halls_gates(), p) {
        TileType::Floor
    } else if in_some_rect(quiet_halls_walls(), p) {
        TileType::Wall
    } else if in_some_rect(quiet_halls_rooms(), p) {
        TileType::Floor
    } else {
        TileType::Wall
    }
}

/// The map of the quiet halls: a chain of cave chambers joined by
/// corridors, with rock teeth, three gate walls each opened by a three-tile
/// gap, the stairs up at `(5, 10)` and the stairs down at `(48, 29)`. Who
/// stands on it is `population::quiet_halls_entities`.
pub fn quiet_halls_layout() -> (out: MapGenOutput)
    ensures
        out.map.wf(),
        out.map.spec_width() == MAP_WIDTH,
        out.map.spec_height() == MAP_HEIGHT,
        forall|p: Position| #[trigger] out.map.spec_contains(p) ==> out.map.tile_at(p) == quiet_halls_tile(p),
        out.player_start == (Position { x: 5i32, y: 10i32 }),
        out.stairs_up == out.player_start,
        out.stairs_down == (Position { x: 48i32, y: 29i32 }),
        out.combat_spawns@.len() == 0,
        out.boss_spawns@.len() == 0,
{
    let mut map = TileMap::new_filled(MAP_WIDTH, MAP_HEIGHT, TileType::Wall);
    let rooms: Vec<Rect> = vec![
        // Main cave chain.
        (3, 5, 12, 12),
        (15, 8, 10, 7),
        (24, 4, 12, 15),
        (36, 7, 12, 8),
        (25, 21, 14, 8),
        (41, 17, 10, 10),
        (8, 20, 13, 8),
        (17, 2, 9, 4),
        (43, 27, 8, 4),
        // Connectors between chambers.
        (12, 10, 7, 3),
        (22, 10, 7, 3),
        (33, 10, 7, 3),
        (45, 13, 3, 8),
        (34, 24, 10, 3),
        (17, 14, 3, 9),
        (19, 4, 3, 6),
        (34, 17, 3, 8),
        (38, 24, 9, 3),
        (47, 26, 3, 4),
    ];
    let walls: Vec<Rect> = vec![
        // Rock teeth.
        (8, 8, 2, 2),
        (10, 14, 2, 2),
        (29, 7, 2, 2),
        (32, 14, 2, 2),
        (40, 10, 2, 2),
        (29, 24, 2, 2),
        (35, 26, 2, 2),
        (49, 22, 2, 2),
        (12, 23, 2, 2),
        (18, 25, 2, 2),
        // Gate walls.
        (16, 8, 1, 7),
        (35, 7, 1, 8),
        (41, 20, 10, 1),
    ];
    let gates: Vec<Rect> = vec![(16, 10, 1, 3), (35, 10, 1, 3), (46, 20, 3, 1)];
    assert(rooms@ =~= quiet_halls_rooms());
    assert(walls@ =~= quiet_halls_walls());
    assert(gates@ =~= quiet_halls_gates());
    let ghost m0 = map;
    fill_rects(&mut map, &rooms, TileType::Floor);
    let ghost m1 = map;
    fill_rects(&mut map, &walls, TileType::Wall);
    let ghost m2 = map;
    fill_rects(&mut map, &gates, TileType::Floor);
    let ghost m3 = map;
    let player_start = Position::new(5, 10);
    let stairs_down = Position::new(48, 29);
    map.set_tile(player_start, TileType::StairsUp);
    let ghost m4 = map;
    map.set_tile(stairs_down, TileType::StairsDown);
    proof {
        assert forall|p: Position| #[trigger] map.spec_contains(p) implies map.tile_at(p) == quiet_halls_tile(p) by {
            assert(m0.spec_contains(p) && m1.spec_contains(p) && m2.spec_contains(p) && m3.spec_contains(p));
            lemma_set_tile_reads(m3, m4, player_start, TileType::StairsUp, p);
            lemma_set_tile_reads(m4, map, stairs_down, TileType::StairsDown, p);
        }
    }
    MapGenOutput {
        map,
        player_start,
        stairs_up: player_start,
        stairs_down,
        combat_spawns: Vec::new(),
        boss_spawns: Vec::new(),
    }
}


// ---------------------------------------------------------------------------
// Depth 0: the foyer

/// The tile of the foyer at `p`: one 25 by 15 room at `(15, 9)`.
pub open spec fn foyer_tile(p: Position) -> TileType {
    if p == (Position { x: 37i32, y: 21i32 }) {
        TileType::StairsDown
    } else if p == (Position { x: 17i32, y: 11i32 }) {
        TileType::StairsUp
    } else if in_rect((15i32, 9i32, 25i32, 15i32), p) {
        TileType::Floor
    } else {
        TileType::Wall
    }
}

/// The map of the foyer: a single room in the middle, the stairs up two
/// tiles in from its top-left corner and the stairs down three in from its
/// bottom-right corner. Who stands on it is `population::foyer_entities`.
pub fn foyer_layout() -> (out: MapGenOutput)
    ensures
        out.map.wf(),
        out.map.spec_width() == MAP_WIDTH,
        out.map.spec_height() == MAP_HEIGHT,
        forall|p: Position| #[trigger] out.map.spec_contains(p) ==> out.map.tile_at(p) == foyer_tile(p),
        out.player_start == (Position { x: 17i32, y: 11i32 }),
        out.stairs_up == out.player_start,
        out.stairs_down == (Position { x: 37i32, y: 21i32 }),
        out.combat_spawns@.len() == 0,
        out.boss_spawns@.len() == 0,
{
    let mut map = TileMap::new_filled(MAP_WIDTH, MAP_HEIGHT, TileType::Wall);
    let rx: i32 = 15;
    let ry: i32 = 9;
    let rw: i32 = 25;
    let rh: i32 = 15;
    let ghost m0 = map;
    fill_rect(&mut map, (rx, ry, rw, rh), TileType::Floor);
    let ghost m1 = map;
    let player_start = Position::new(rx + 2, ry + 2);
    let stairs_down = Position::new(rx + rw - 3, ry + rh - 3);
    map.set_tile(player_start, TileType::StairsUp);
    let ghost m2 = map;
    map.set_tile(stairs_down, TileType::StairsDown);
    proof {
        assert forall|p: Position| #[trigger] map.spec_contains(p) implies map.tile_at(p) == foyer_tile(p) by {
            assert(m0.spec_contains(p) && m1.spec_contains(p));
            lemma_set_tile_reads(m1, m2, player_start, TileType::StairsUp, p);
            lemma_set_tile_reads(m2, map, stairs_down, TileType::StairsDown, p);
        }
    }
    MapGenOutput {
        map,
        player_start,
        stairs_up: player_start,
        stairs_down,
        combat_spawns: Vec::new(),
        boss_spawns: Vec::new(),
    }
}

// ---------------------------------------------------------------------------
// Depth 17: the core

/// The tile of the core at `p`: one 20 by 15 room at `(17, 9)`, the stairs
/// up by its west wall, no stairs down.
pub open spec fn core_tile(p: Position) -> TileType {
    if p == (Position { x: 18i32, y: 16i32 }) {
        TileType::StairsUp
    } else if in_rect((17i32, 9i32, 20i32, 15i32), p) {
        TileType::Floor
    } else {
        TileType::Wall
    }
}

/// The map of the core, the last level: a single room in the middle, the
/// stairs up by its west wall and the player one step east of them. There
/// is no way down, so `stairs_down` is the start. Who stands on it is
/// `population::core_entities`.
pub fn core_layout() -> (out: MapGenOutput)
    ensures
        out.map.wf(),
        out.map.spec_width() == MAP_WIDTH,
        out.map.spec_height() == MAP_HEIGHT,
        forall|p: Position| #[trigger] out.map.spec_contains(p) ==> out.map.tile_at(p) == core_tile(p),
        forall|p: Position| #[trigger] out.map.spec_contains(p) ==> out.map.tile_at(p) != TileType::StairsDown,
        out.player_start == (Position { x: 19i32, y: 16i32 }),
        out.stairs_up == (Position { x: 18i32, y: 16i32 }),
        out.stairs_down == out.player_start,
        out.combat_spawns@.len() == 0,
        out.boss_spawns@.len() == 0,
{
    let mut map = TileMap::new_filled(MAP_WIDTH, MAP_HEIGHT, TileType::Wall);
    let rx: i32 = (MAP_WIDTH - 20) / 2;
    let ry: i32 = (MAP_HEIGHT - 15) / 2;
    let ghost m0 = map;
    fill_rect(&mut map, (rx, ry, 20, 15), TileType::Floor);
    let ghost m1 = map;
    let player_start = Position::new(rx + 2, ry + 15 / 2);
    let stairs_up = Position::new(rx + 1, ry + 15 / 2);
    map.set_tile(stairs_up, TileType::StairsUp);
    proof {
        assert forall|p: Position| #[trigger] map.spec_contains(p) implies map.tile_at(p) == core_tile(p) by {
            assert(m0.spec_contains(p) && m1.spec_contains(p));
            lemma_set_tile_reads(m1, map, stairs_up, TileType::StairsUp, p);
        }
    }
    MapGenOutput {
        map,
        player_start,
        stairs_up,
        stairs_down: player_start,
        combat_spawns: Vec::new(),
        boss_spawns: Vec::new(),
    }
}

// ---------------------------------------------------------------------------
// Depth 2: the tutorial grid

/// The nine 16 by 9 rooms of the tutorial grid, three rows of three.
pub open spec fn tutorial_grid_rooms() -> Seq<Rect> {
    seq![
        (2i32, 2i32, 16i32, 9i32),
        (19, 2, 16, 9),
        (36, 2, 16, 9),
        (2, 13, 16, 9),
        (19, 13, 16, 9),
        (36, 13, 16, 9),
        (2, 23, 16, 9),
        (19, 23, 16, 9),
        (36, 23, 16, 9),
    ]
}

/// The doors of the tutorial grid: two tiles high between neighbours in a
/// row, two by two from the third room down to the sixth and from the
/// fourth down to the seventh.
pub open spec fn tutorial_grid_doors() -> Seq<Rect> {
    seq![
        (18i32, 6i32, 1i32, 2i32),
        (35, 6, 1, 2),
        (18, 17, 1, 2),
        (35, 17, 1, 2),
        (18, 28, 1, 2),
        (35, 28, 1, 2),
        (43, 11, 2, 2),
        (9, 22, 2, 2),
    ]
}

/// The tile of the tutorial grid at `p`.
pub open spec fn tutorial_grid_tile(p: Position) -> TileType {
    if p == (Position { x: 38i32, y: 28i32 }) {
        TileType::PressurePlate
    } else if p == (Position { x: 50i32, y: 27i32 }) {
        TileType::StairsDown
    } else if p == (Position { x: 4i32, y: 4i32 }) {
        TileType::StairsUp
    } else if in_some_rect(tutorial_grid_rooms(), p) || in_some_rect(tutorial_grid_doors(), p) {
        TileType::Floor
    } else {
        TileType::Wall
    }
}

/// The map of the tutorial grid: nine rooms joined in a snake, the stairs
/// up in the top-left room, the stairs down in the last room (where barrels
/// hide them) and the pressure plate by that room's entrance. Who stands
/// on it is `population::tutorial_grid_entities`.
pub fn tutorial_grid_layout() -> (out: MapGenOutput)
    ensures
        out.map.wf(),
        out.map.spec_width() == MAP_WIDTH,
        out.map.spec_height() == MAP_HEIGHT,
        forall|p: Position| #[trigger] out.map.spec_contains(p) ==> out.map.tile_at(p) == tutorial_grid_tile(p),
        out.player_start == (Position { x: 4i32, y: 4i32 }),
        out.stairs_up == out.player_start,
        out.stairs_down == (Position { x: 50i32, y: 27i32 }),
        out.combat_spawns@.len() == 0,
        out.boss_spawns@.len() == 0,
{
    let mut map = TileMap::new_filled(MAP_WIDTH, MAP_HEIGHT, TileType::Wall);
    let rooms: Vec<Rect> = vec![
        (2, 2, 16, 9),
        (19, 2, 16, 9),
        (36, 2, 16, 9),
        (2, 13, 16, 9),
        (19, 13, 16, 9),
        (36, 13, 16, 9),
        (2, 23, 16, 9),
        (19, 23, 16, 9),
        (36, 23, 16, 9),
    ];
    // Doors within a row sit at x = 18 + 17 * column, y = 6 + 11 * row; the
    // two doors between rows at x = 9 + 17 * column, y = 11 + 11 * row.
    let doors: Vec<Rect> = vec![
        (18, 6, 1, 2),
        (35, 6, 1, 2),
        (18, 17, 1, 2),
        (35, 17, 1, 2),
        (18, 28, 1, 2),
        (35, 28, 1, 2),
        (43, 11, 2, 2),
        (9, 22, 2, 2),
    ];
    assert(rooms@ =~= tutorial_grid_rooms());
    assert(doors@ =~= tutorial_grid_doors());
    let ghost m0 = map;
    fill_rects(&mut map, &rooms, TileType::Floor);
    let ghost m1 = map;
    fill_rects(&mut map, &doors, TileType::Floor);
    let ghost m2 = map;
    let player_start = Position::new(4, 4);
    let stairs_down = Position::new(36 + 14, 23 + 4);
    let plate = Position::new(38, 28);
    map.set_tile(player_start, TileType::StairsUp);
    let ghost m3 = map;
    map.set_tile(stairs_down, TileType::StairsDown);
    let ghost m4 = map;
    map.set_tile(plate, TileType::PressurePlate);
    proof {
        assert forall|p: Position| #[trigger] map.spec_contains(p) implies map.tile_at(p) == tutorial_grid_tile(p) by {
            assert(m0.spec_contains(p) && m1.spec_contains(p) && m2.spec_contains(p));
            lemma_set_tile_reads(m2, m3, player_start, TileType::StairsUp, p);
            lemma_set_tile_reads(m3, m4, stairs_down, TileType::StairsDown, p);
            lemma_set_tile_reads(m4, map, plate, TileType::PressurePlate, p);
        }
    }
    MapGenOutput {
        map,
        player_start,
        stairs_up: player_start,
        stairs_down,
        combat_spawns: Vec::new(),
        boss_spawns: Vec::new(),
    }
}

// ---------------------------------------------------------------------------
// Depth 6: the gauntlet

/// The open tiles of the gauntlet: the corridor along the middle row and a
/// five-tile crossing every six columns.
pub open spec fn gauntlet_floor() -> Seq<Rect> {
    seq![
        (2i32, 16i32, 51i32, 1i32),
        (7, 14, 1, 5),
        (13, 14, 1, 5),
        (19, 14, 1, 5),
        (25, 14, 1, 5),
        (31, 14, 1, 5),
        (37, 14, 1, 5),
        (43, 14, 1, 5),
        (49, 14, 1, 5),
    ]
}

/// The tile of the gauntlet at `p`.
pub open spec fn gauntlet_tile(p: Position) -> TileType {
    if p == (Position { x: 5i32, y: 15i32 }) {
        TileType::Floor
    } else if p == (Position { x: 52i32, y: 16i32 }) {
        TileType::StairsDown
    } else if p == (Position { x: 3i32, y: 16i32 }) {
        TileType::StairsUp
    } else if in_some_rect(gauntlet_floor(), p) {
        TileType::Floor
    } else {
        TileType::Wall
    }
}

/// The map of the gauntlet: one corridor along the middle row, crossed by
/// the barrier columns, with the stairs at both ends and an open tile
/// for the wizard above the start. Who stands on it is
/// `population::gauntlet_entities`.
pub fn gauntlet_layout() -> (out: MapGenOutput)
    ensures
        out.map.wf(),
        out.map.spec_width() == MAP_WIDTH,
        out.map.spec_height() == MAP_HEIGHT,
        forall|p: Position| #[trigger] out.map.spec_contains(p) ==> out.map.tile_at(p) == gauntlet_tile(p),
        out.player_start == (Position { x: 3i32, y: 16i32 }),
        out.stairs_up == out.player_start,
        out.stairs_down == (Position { x: 52i32, y: 16i32 }),
        out.combat_spawns@.len() == 0,
        out.boss_spawns@.len() == 0,
{
    let mut map = TileMap::new_filled(MAP_WIDTH, MAP_HEIGHT, TileType::Wall);
    let corridor_y: i32 = MAP_HEIGHT / 2;
    let floor: Vec<Rect> = vec![
        (2, corridor_y, MAP_WIDTH - 4, 1),
        (7, corridor_y - 2, 1, 5),
        (13, corridor_y - 2, 1, 5),
        (19, corridor_y - 2, 1, 5),
        (25, corridor_y - 2, 1, 5),
        (31, corridor_y - 2, 1, 5),
        (37, corridor_y - 2, 1, 5),
        (43, corridor_y - 2, 1, 5),
        (49, corridor_y - 2, 1, 5),
    ];
    assert(floor@ =~= gauntlet_floor());
    let ghost m0 = map;
    fill_rects(&mut map, &floor, TileType::Floor);
    let ghost m1 = map;
    let player_start = Position::new(3, corridor_y);
    let stairs_down = Position::new(MAP_WIDTH - 3, corridor_y);
    let wizard_pos = Position::new(5, corridor_y - 1);
    map.set_tile(player_start, TileType::StairsUp);
    let ghost m2 = map;
    map.set_tile(stairs_down, TileType::StairsDown);
    let ghost m3 = map;
    map.set_tile(wizard_pos, TileType::Floor);
    proof {
        assert forall|p: Position| #[trigger] map.spec_contains(p) implies map.tile_at(p) == gauntlet_tile(p) by {
            assert(m0.spec_contains(p) && m1.spec_contains(p));
            lemma_set_tile_reads(m1, m2, player_start, TileType::StairsUp, p);
            lemma_set_tile_reads(m2, m3, stairs_down, TileType::StairsDown, p);
            lemma_set_tile_reads(m3, map, wizard_pos, TileType::Floor, p);
        }
    }
    MapGenOutput {
        map,
        player_start,
        stairs_up: player_start,
        stairs_down,
        combat_spawns: Vec::new(),
        boss_spawns: Vec::new(),
    }
}

// ---------------------------------------------------------------------------
// Depth 8: the counting room

/// The open tiles of the counting room: the seven by seven hub at
/// `(22, 15)`, the four corner rooms, and the passages from the hub to the
/// four doors six columns to either side.
pub open spec fn counting_room_floor() -> Seq<Rect> {
    seq![
        (19i32, 12i32, 7i32, 7i32),
        (6, 3, 10, 8),
        (28, 3, 10, 8),
        (6, 19, 10, 8),
        (28, 19, 10, 8),
        (17, 15, 6, 1),
        (22, 15, 6, 1),
        (16, 10, 1, 6),
        (16, 15, 1, 6),
        (28, 10, 1, 6),
        (28, 15, 1, 6),
    ]
}

/// The four door posts of the counting room.
pub open spec fn counting_room_posts() -> Seq<Rect> {
    seq![(16i32, 12i32, 1i32, 1i32), (28, 12, 1, 1), (16, 18, 1, 1), (28, 18, 1, 1)]
}

/// The tile of the counting room at `p`.
pub open spec fn counting_room_tile(p: Position) -> TileType {
    if p == (Position { x: 22i32, y: 18i32 }) {
        TileType::StairsDown
    } else if p == (Position { x: 22i32, y: 15i32 }) {
        TileType::StairsUp
    } else if in_some_rect(counting_room_posts(), p) {
        TileType::Wall
    } else if in_some_rect(counting_room_floor(), p) {
        TileType::Floor
    } else {
        TileType::Wall
    }
}

/// The map of the counting room: a hub with four rooms at its corners, each
/// reached through a door beside the hub, the stairs up in the middle of
/// the hub and the stairs down three tiles below. Who stands on it is
/// `population::counting_room_entities`.
pub fn counting_room_layout() -> (out: MapGenOutput)
    ensures
        out.map.wf(),
        out.map.spec_width() == MAP_WIDTH,
        out.map.spec_height() == MAP_HEIGHT,
        forall|p: Position| #[trigger] out.map.spec_contains(p) ==> out.map.tile_at(p) == counting_room_tile(p),
        out.player_start == (Position { x: 22i32, y: 15i32 }),
        out.stairs_up == out.player_start,
        out.stairs_down == (Position { x: 22i32, y: 18i32 }),
        out.combat_spawns@.len() == 0,
        out.boss_spawns@.len() == 0,
{
    let mut map = TileMap::new_filled(MAP_WIDTH, MAP_HEIGHT, TileType::Wall);
    let hub_x: i32 = 22;
    let hub_y: i32 = 15;
    let floor: Vec<Rect> = vec![
        // The hub.
        (hub_x - 3, hub_y - 3, 7, 7),
        // The rooms at the four corners.
        (hub_x - 16, hub_y - 12, 10, 8),
        (hub_x + 6, hub_y - 12, 10, 8),
        (hub_x - 16, hub_y + 4, 10, 8),
        (hub_x + 6, hub_y + 4, 10, 8),
        // From the hub along its row to either side, then along the door
        // columns up and down.
        (hub_x - 5, hub_y, 6, 1),
        (hub_x, hub_y, 6, 1),
        (hub_x - 6, hub_y - 5, 1, 6),
        (hub_x - 6, hub_y, 1, 6),
        (hub_x + 6, hub_y - 5, 1, 6),
        (hub_x + 6, hub_y, 1, 6),
    ];
    let posts: Vec<Rect> = vec![
        (hub_x - 6, hub_y - 3, 1, 1),
        (hub_x + 6, hub_y - 3, 1, 1),
        (hub_x - 6, hub_y + 3, 1, 1),
        (hub_x + 6, hub_y + 3, 1, 1),
    ];
    assert(floor@ =~= counting_room_floor());
    assert(posts@ =~= counting_room_posts());
    let ghost m0 = map;
    fill_rects(&mut map, &floor, TileType::Floor);
    let ghost m1 = map;
    fill_rects(&mut map, &posts, TileType::Wall);
    let ghost m2 = map;
    let player_start = Position::new(hub_x, hub_y);
    let stairs_down = Position::new(hub_x, hub_y + 3);
    map.set_tile(player_start, TileType::StairsUp);
    let ghost m3 = map;
    map.set_tile(stairs_down, TileType::StairsDown);
    proof {
        assert forall|p: Position| #[trigger] map.spec_contains(p) implies map.tile_at(p) == counting_room_tile(p) by {
            assert(m0.spec_contains(p) && m1.spec_contains(p) && m2.spec_contains(p));
            lemma_set_tile_reads(m2, m3, player_start, TileType::StairsUp, p);
            lemma_set_tile_reads(m3, map, stairs_down, TileType::StairsDown, p);
        }
    }
    MapGenOutput {
        map,
        player_start,
        stairs_up: player_start,
        stairs_down,
        combat_spawns: Vec::new(),
        boss_spawns: Vec::new(),
    }
}


// ---------------------------------------------------------------------------
// Depth 7: the boiling heart

/// The pillars of the boiling heart, two by two.
pub open spec fn boiling_heart_pillars() -> Seq<Rect> {
    seq![(22i32, 8i32, 2i32, 2i32), (22, 16, 2, 2), (22, 22, 2, 2), (34, 12, 2, 2)]
}

/// The fire patches of the boiling heart, two by two.
pub open spec fn boiling_heart_fires() -> Seq<Rect> {
    seq![(14i32, 8i32, 2i32, 2i32), (14, 20, 2, 2), (38, 8, 2, 2), (38, 20, 2, 2)]
}

/// The tile of the boiling heart at `p`.
pub open spec fn boiling_heart_tile(p: Position) -> TileType {
    if p == (Position { x: 46i32, y: 16i32 }) {
        TileType::StairsDown
    } else if p == (Position { x: 9i32, y: 16i32 }) {
        TileType::StairsUp
    } else if in_some_rect(boiling_heart_fires(), p) {
        TileType::Fire
    } else if in_some_rect(boiling_heart_pillars(), p) {
        TileType::Wall
    } else if in_rect((7i32, 4i32, 41i32, 25i32), p) {
        TileType::Floor
    } else {
        TileType::Wall
    }
}

/// The map of the boiling heart: one large 41 by 25 hall with four
/// pillars and four fire patches on its floor, the stairs up at its west
/// end and the stairs down at its east end. The enemies, fragment and
/// wizard of the level are not part of it.
pub fn boiling_heart_layout() -> (out: MapGenOutput)
    ensures
        out.map.wf(),
        out.map.spec_width() == MAP_WIDTH,
        out.map.spec_height() == MAP_HEIGHT,
        forall|p: Position| #[trigger] out.map.spec_contains(p) ==> out.map.tile_at(p) == boiling_heart_tile(p),
        out.player_start == (Position { x: 9i32, y: 16i32 }),
        out.stairs_up == out.player_start,
        out.stairs_down == (Position { x: 46i32, y: 16i32 }),
        out.combat_spawns@.len() == 0,
        out.boss_spawns@.len() == 0,
{
    let mut map = TileMap::new_filled(MAP_WIDTH, MAP_HEIGHT, TileType::Wall);
    let rx: i32 = 7;
    let ry: i32 = 4;
    let rw: i32 = 41;
    let rh: i32 = 25;
    let pillars: Vec<Rect> = vec![(22, 8, 2, 2), (22, 16, 2, 2), (22, 22, 2, 2), (34, 12, 2, 2)];
    // Every fire patch lies on the hall's open floor.
    let fires: Vec<Rect> = vec![(14, 8, 2, 2), (14, 20, 2, 2), (38, 8, 2, 2), (38, 20, 2, 2)];
    assert(pillars@ =~= boiling_heart_pillars());
    assert(fires@ =~= boiling_heart_fires());
    let ghost m0 = map;
    fill_rect(&mut map, (rx, ry, rw, rh), TileType::Floor);
    let ghost m1 = map;
    fill_rects(&mut map, &pillars, TileType::Wall);
    let ghost m2 = map;
    fill_rects(&mut map, &fires, TileType::Fire);
    let ghost m3 = map;
    let player_start = Position::new(rx + 2, ry + rh / 2);
    let stairs_down = Position::new(rx + rw - 2, ry + rh / 2);
    map.set_tile(player_start, TileType::StairsUp);
    let ghost m4 = map;
    map.set_tile(stairs_down, TileType::StairsDown);
    proof {
        assert forall|p: Position| #[trigger] map.spec_contains(p) implies map.tile_at(p) == boiling_heart_tile(p) by {
            assert(m0.spec_contains(p) && m1.spec_contains(p) && m2.spec_contains(p) && m3.spec_contains(p));
            lemma_set_tile_reads(m3, m4, player_start, TileType::StairsUp, p);
            lemma_set_tile_reads(m4, map, stairs_down, TileType::StairsDown, p);
        }
    }
    MapGenOutput {
        map,
        player_start,
        stairs_up: player_start,
        stairs_down,
        combat_spawns: Vec::new(),
        boss_spawns: Vec::new(),
    }
}

// ---------------------------------------------------------------------------
// Depth 9: the scale

/// The open tiles of the scale: the central hall, a room on each side and
/// the passage from each room to the hall along the middle row.
pub open spec fn scale_floor() -> Seq<Rect> {
    seq![
        (22i32, 13i32, 11i32, 7i32),
        (7, 13, 8, 6),
        (15, 16, 8, 1),
        (39, 13, 8, 6),
        (32, 16, 8, 1),
    ]
}

/// The tile of the scale at `p`.
pub open spec fn scale_tile(p: Position) -> TileType {
    if p == (Position { x: 30i32, y: 14i32 }) {
        TileType::StairsDown
    } else if p == (Position { x: 24i32, y: 18i32 }) {
        TileType::StairsUp
    } else if in_some_rect(scale_floor(), p) {
        TileType::Floor
    } else {
        TileType::Wall
    }
}

/// The map of the scale: a central hall with a room on either side, each
/// joined to it along the middle row, the stairs up in the hall's lower
/// left and the stairs down in its upper right. Who stands on it is
/// `population::scale_entities`.
pub fn scale_layout() -> (out: MapGenOutput)
    ensures
        out.map.wf(),
        out.map.spec_width() == MAP_WIDTH,
        out.map.spec_height() == MAP_HEIGHT,
        forall|p: Position| #[trigger] out.map.spec_contains(p) ==> out.map.tile_at(p) == scale_tile(p),
        out.player_start == (Position { x: 24i32, y: 18i32 }),
        out.stairs_up == out.player_start,
        out.stairs_down == (Position { x: 30i32, y: 14i32 }),
        out.combat_spawns@.len() == 0,
        out.boss_spawns@.len() == 0,
{
    let mut map = TileMap::new_filled(MAP_WIDTH, MAP_HEIGHT, TileType::Wall);
    let cx: i32 = MAP_WIDTH / 2;
    let cy: i32 = MAP_HEIGHT / 2;
    let floor: Vec<Rect> = vec![
        // The hall, eleven by seven around the middle.
        (cx - 5, cy - 3, 11, 7),
        // The west room and its passage to the hall.
        (cx - 20, cy - 3, 8, 6),
        (cx - 12, cy, 8, 1),
        // The east room and its passage to the hall.
        (cx + 12, cy - 3, 8, 6),
        (cx + 5, cy, 8, 1),
    ];
    assert(floor@ =~= scale_floor());
    let ghost m0 = map;
    fill_rects(&mut map, &floor, TileType::Floor);
    let ghost m1 = map;
    let player_start = Position::new(cx - 3, cy + 2);
    let stairs_down = Position::new(cx + 3, cy - 2);
    map.set_tile(player_start, TileType::StairsUp);
    let ghost m2 = map;
    map.set_tile(stairs_down, TileType::StairsDown);
    proof {
        assert forall|p: Position| #[trigger] map.spec_contains(p) implies map.tile_at(p) == scale_tile(p) by {
            assert(m0.spec_contains(p) && m1.spec_contains(p));
            lemma_set_tile_reads(m1, m2, player_start, TileType::StairsUp, p);
            lemma_set_tile_reads(m2, map, stairs_down, TileType::StairsDown, p);
        }
    }
    MapGenOutput {
        map,
        player_start,
        stairs_up: player_start,
        stairs_down,
        combat_spawns: Vec::new(),
        boss_spawns: Vec::new(),
    }
}

// ---------------------------------------------------------------------------
// Depth 11: the offer

/// The open tiles of the offer: the small central hall, four chambers, and
/// the arms from the hall to them.
pub open spec fn offer_floor() -> Seq<Rect> {
    seq![
        (24i32, 14i32, 7i32, 5i32),
        (5, 6, 12, 8),
        (37, 6, 12, 8),
        (5, 18, 12, 8),
        (37, 18, 12, 8),
        (12, 16, 13, 1),
        (30, 16, 13, 1),
        (12, 14, 1, 2),
        (42, 14, 1, 2),
        (24, 19, 1, 4),
        (30, 19, 1, 4),
        (16, 22, 9, 1),
        (30, 22, 9, 1),
    ]
}

/// The tile of the offer at `p`.
pub open spec fn offer_tile(p: Position) -> TileType {
    if p == (Position { x: 27i32, y: 15i32 }) {
        TileType::StairsDown
    } else if p == (Position { x: 27i32, y: 18i32 }) {
        TileType::StairsUp
    } else if in_some_rect(offer_floor(), p) {
        TileType::Floor
    } else {
        TileType::Wall
    }
}

/// The map of the offer: a small hall in the middle with arms west and
/// east up into two chambers and, from the hall's lower corners, down and
/// out into two more; the stairs up at the hall's bottom and the stairs
/// down just above its middle. Who stands on it is
/// `population::offer_entities`.
pub fn offer_layout() -> (out: MapGenOutput)
    ensures
        out.map.wf(),
        out.map.spec_width() == MAP_WIDTH,
        out.map.spec_height() == MAP_HEIGHT,
        forall|p: Position| #[trigger] out.map.spec_contains(p) ==> out.map.tile_at(p) == offer_tile(p),
        out.player_start == (Position { x: 27i32, y: 18i32 }),
        out.stairs_up == out.player_start,
        out.stairs_down == (Position { x: 27i32, y: 15i32 }),
        out.combat_spawns@.len() == 0,
        out.boss_spawns@.len() == 0,
{
    let mut map = TileMap::new_filled(MAP_WIDTH, MAP_HEIGHT, TileType::Wall);
    let cx: i32 = MAP_WIDTH / 2;
    let cy: i32 = MAP_HEIGHT / 2;
    let floor: Vec<Rect> = vec![
        // The central hall.
        (cx - 3, cy - 2, 7, 5),
        // The four chambers.
        (cx - 22, cy - 10, 12, 8),
        (cx + 10, cy - 10, 12, 8),
        (cx - 22, cy + 2, 12, 8),
        (cx + 10, cy + 2, 12, 8),
        // The west and east arms, and up into the upper chambers.
        (cx - 15, cy, 13, 1),
        (cx + 3, cy, 13, 1),
        (cx - 15, cy - 2, 1, 2),
        (cx + 15, cy - 2, 1, 2),
        // Down from the hall's corners, and across into the lower chambers.
        (cx - 3, cy + 3, 1, 4),
        (cx + 3, cy + 3, 1, 4),
        (cx - 11, cy + 6, 9, 1),
        (cx + 3, cy + 6, 9, 1),
    ];
    assert(floor@ =~= offer_floor());
    let ghost m0 = map;
    fill_rects(&mut map, &floor, TileType::Floor);
    let ghost m1 = map;
    let player_start = Position::new(cx, cy + 2);
    let stairs_down = Position::new(cx, cy - 1);
    map.set_tile(player_start, TileType::StairsUp);
    let ghost m2 = map;
    map.set_tile(stairs_down, TileType::StairsDown);
    proof {
        assert forall|p: Position| #[trigger] map.spec_contains(p) implies map.tile_at(p) == offer_tile(p) by {
            assert(m0.spec_contains(p) && m1.spec_contains(p));
            lemma_set_tile_reads(m1, m2, player_start, TileType::StairsUp, p);
            lemma_set_tile_reads(m2, map, stairs_down, TileType::StairsDown, p);
        }
    }
    MapGenOutput {
        map,
        player_start,
        stairs_up: player_start,
        stairs_down,
        combat_spawns: Vec::new(),
        boss_spawns: Vec::new(),
    }
}


// ---------------------------------------------------------------------------
// Procedural depths

/// Procedural depths are wider and taller than the hand-built ones.
pub const PROC_MAP_WIDTH: i32 = 80;
pub const PROC_MAP_HEIGHT: i32 = 50;

/// The map of a procedural depth, drawn from the depth's seed in this run:
/// a cave on even depths (`cave_level`), rooms and corridors on odd ones
/// (`rooms_level`), both drawn from `depth_seed`. Either way the map is 80
/// by 50, the
/// stairs lie on their tiles, and the stairs down and every enemy spawn can
/// be walked to from the start.
pub fn procedural_layout(depth: u32, run_seed: u64) -> (out: MapGenOutput)
    ensures
        out.map.wf(),
        out.map.spec_width() == PROC_MAP_WIDTH,
        out.map.spec_height() == PROC_MAP_HEIGHT,
        out.stairs_up == out.player_start,
        out.map.spec_contains(out.player_start),
        out.map.spec_contains(out.stairs_down),
        out.map.tile_at(out.stairs_down) == TileType::StairsDown,
        out.player_start != out.stairs_down ==> out.map.tile_at(out.player_start) == TileType::StairsUp,
        depth % 2 == 0 ==> border_walls(out.map) && interior(out.map, out.player_start) && interior(
            out.map,
            out.stairs_down,
        ) && out.combat_spawns@.len() <= depth + 1 && out.boss_spawns@.len() == 0,
        connects(out.map, out.player_start, out.stairs_down),
        forall|j: int| 0 <= j < out.combat_spawns@.len() ==> connects(out.map, out.player_start, #[trigger] out.combat_spawns@[j]),
        forall|j: int| 0 <= j < out.boss_spawns@.len() ==> connects(out.map, out.player_start, #[trigger] out.boss_spawns@[j]),
        depth % 2 == 0 ==> cave_level(out, depth_seed(run_seed, depth), depth),
        depth % 2 != 0 ==> rooms_level(out, depth_seed(run_seed, depth), PROC_MAP_WIDTH as int, PROC_MAP_HEIGHT as int, depth),
{
    let seed = level_seed(run_seed, depth);
    if depth % 2 == 0 {
        let out = TileMap::generate_cave_sized(PROC_MAP_WIDTH, PROC_MAP_HEIGHT, depth, seed);
        proof {
            assert(small_map(out.map));
        }
        out
    } else {
        TileMap::generate(PROC_MAP_WIDTH, PROC_MAP_HEIGHT, depth, seed)
    }
}


// ---------------------------------------------------------------------------
// Seeds

/// The generation seed of a depth: the depth times the golden-ratio
/// increment added to the run's seed, then the SplitMix64 finalizer, all in
/// wrapping 64-bit arithmetic.
pub open spec fn depth_seed(run_seed: u64, depth: u32) -> u64 {
    let z0 = vstd::wrapping::u64_specs::wrapping_add(
        run_seed,
        vstd::wrapping::u64_specs::wrapping_mul(depth as u64, 0x9E37_79B9_7F4A_7C15u64),
    );
    let z1 = vstd::wrapping::u64_specs::wrapping_mul(z0 ^ (z0 >> 30u64), 0xBF58_476D_1CE4_E5B9u64);
    let z2 = vstd::wrapping::u64_specs::wrapping_mul(z1 ^ (z1 >> 27u64), 0x94D0_49BB_1331_11EBu64);
    z2 ^ (z2 >> 31u64)
}

/// The seed a depth's level is generated from, so that the same run seed
/// always gives the same layouts.
pub fn level_seed(run_seed: u64, depth: u32) -> (s: u64)
    ensures
        s == depth_seed(run_seed, depth),
{
    let mut z = run_seed.wrapping_add((depth as u64).wrapping_mul(0x9E37_79B9_7F4A_7C15));
    z = (z ^ (z >> 30)).wrapping_mul(0xBF58_476D_1CE4_E5B9);
    z = (z ^ (z >> 27)).wrapping_mul(0x94D0_49BB_1331_11EB);
    z ^ (z >> 31)
}


// ---------------------------------------------------------------------------
// Depth 16: the descent

/// The walker carving the descent: its tile, its heading (east, south,
/// west, north in turn), the length of the current leg, the steps taken on
/// it, and the legs finished.
pub struct SpiralWalker {
    pub x: int,
    pub y: int,
    pub dir: int,
    pub leg: int,
    pub taken: int,
    pub legs: int,
}

/// One step of the walker: forward along its heading; at the end of a leg
/// it turns right, and every second turn the legs grow by one.
pub open spec fn spiral_step(s: SpiralWalker) -> SpiralWalker {
    let (dx, dy): (int, int) = if s.dir == 0 {
        (1, 0)
    } else if s.dir == 1 {
        (0, 1)
    } else if s.dir == 2 {
        (-1, 0)
    } else {
        (0, -1)
    };
    if s.taken + 1 >= s.leg {
        SpiralWalker {
            x: s.x + dx,
            y: s.y + dy,
            dir: (s.dir + 1) % 4,
            leg: if (s.legs + 1) % 2 == 0 {
                s.leg + 1
            } else {
                s.leg
            },
            taken: 0,
            legs: s.legs + 1,
        }
    } else {
        SpiralWalker { x: s.x + dx, y: s.y + dy, dir: s.dir, leg: s.leg, taken: s.taken + 1, legs: s.legs }
    }
}

/// The walker after `n` steps from the middle of the map, heading east on a
/// leg of one.
pub open spec fn spiral_walker(n: nat) -> SpiralWalker
    decreases n,
{
    if n == 0 {
        SpiralWalker { x: 27, y: 16, dir: 0, leg: 1, taken: 0, legs: 0 }
    } else {
        spiral_step(spiral_walker((n - 1) as nat))
    }
}

/// Whether the walker, after `n` steps, stands at least two tiles inside
/// the map's edges.
pub open spec fn spiral_inside(n: nat) -> bool {
    let s = spiral_walker(n);
    2 <= s.x < MAP_WIDTH - 2 && 2 <= s.y < MAP_HEIGHT - 2
}

/// Whether the walk carves `p`: within its first 800 steps, before it
/// first leaves the inside, the walker stands on `p` or just west of it.
pub open spec fn spiral_carved(p: Position) -> bool {
    exists|k: nat|
        k < 800 && (forall|j: nat| j <= k ==> #[trigger] spiral_inside(j)) && {
            let s = #[trigger] spiral_walker(k);
            (p.x == s.x || p.x == s.x + 1) && p.y == s.y
        }
}

/// The tile of the descent at `p`.
pub open spec fn descent_tile(p: Position) -> TileType {
    if p == (Position { x: 27i32, y: 18i32 }) {
        TileType::StairsDown
    } else if p == (Position { x: 27i32, y: 16i32 }) {
        TileType::StairsUp
    } else if spiral_carved(p) {
        TileType::Floor
    } else {
        TileType::Wall
    }
}

/// The map of the descent: a two-tile-wide square spiral walked out from
/// the middle of the map until it would leave the inside, the stairs up in
/// the middle and the stairs down two tiles below. Who stands on it is
/// `population::descent_entities`.
pub fn descent_layout() -> (out: MapGenOutput)
    ensures
        out.map.wf(),
        out.map.spec_width() == MAP_WIDTH,
        out.map.spec_height() == MAP_HEIGHT,
        forall|p: Position| #[trigger] out.map.spec_contains(p) ==> out.map.tile_at(p) == descent_tile(p),
        out.player_start == (Position { x: 27i32, y: 16i32 }),
        out.stairs_up == out.player_start,
        out.stairs_down == (Position { x: 27i32, y: 18i32 }),
        out.combat_spawns@.len() == 0,
        out.boss_spawns@.len() == 0,
{
    let mut map = TileMap::new_filled(MAP_WIDTH, MAP_HEIGHT, TileType::Wall);
    let cx: i32 = MAP_WIDTH / 2;
    let cy: i32 = MAP_HEIGHT / 2;
    let mut x: i32 = cx;
    let mut y: i32 = cy;
    let mut dir_idx: i32 = 0;
    let mut steps_in_dir: i32 = 1;
    let mut steps_taken: i32 = 0;
    let mut segment_count: i32 = 0;
    let ghost m0 = map;
    let mut i: u32 = 0;
    while i < 800
        invariant_except_break
            i < 800 ==> forall|j: nat| j < i ==> #[trigger] spiral_inside(j),
        invariant
            map.wf(),
            map.spec_width() == MAP_WIDTH,
            map.spec_height() == MAP_HEIGHT,
            i <= 800,
            forall|j: nat| j < i ==> #[trigger] spiral_inside(j),
            spiral_walker(i as nat) == (SpiralWalker {
                x: x as int,
                y: y as int,
                dir: dir_idx as int,
                leg: steps_in_dir as int,
                taken: steps_taken as int,
                legs: segment_count as int,
            }),
            0 <= dir_idx < 4,
            1 <= steps_in_dir <= i + 1,
            0 <= steps_taken < steps_in_dir,
            0 <= segment_count <= i,
            i32::MIN + 1000 < x < i32::MAX - 1000,
            i32::MIN + 1000 < y < i32::MAX - 1000,
            forall|p: Position| #[trigger] map.spec_contains(p) ==> map.tile_at(p) == (if exists|k: nat|
                k < i && {
                    let s = #[trigger] spiral_walker(k);
                    (p.x == s.x || p.x == s.x + 1) && p.y == s.y
                } {
                TileType::Floor
            } else {
                TileType::Wall
            }),
        ensures
            map.wf(),
            map.spec_width() == MAP_WIDTH,
            map.spec_height() == MAP_HEIGHT,
            forall|p: Position| #[trigger] map.spec_contains(p) ==> map.tile_at(p) == (if spiral_carved(p) {
                TileType::Floor
            } else {
                TileType::Wall
            }),
        decreases 800 - i,
    {
        if x < 2 || x >= MAP_WIDTH - 2 || y < 2 || y >= MAP_HEIGHT - 2 {
            proof {
                assert(!spiral_inside(i as nat));
                assert forall|p: Position| #[trigger] map.spec_contains(p) implies map.tile_at(p) == (if spiral_carved(p) {
                    TileType::Floor
                } else {
                    TileType::Wall
                }) by {
                    if spiral_carved(p) {
                        let k = choose|k: nat|
                            k < 800 && (forall|j: nat| j <= k ==> #[trigger] spiral_inside(j)) && {
                                let s = #[trigger] spiral_walker(k);
                                (p.x == s.x || p.x == s.x + 1) && p.y == s.y
                            };
                        if k >= i {
                            assert(spiral_inside(i as nat));
                        }
                    }
                    if exists|k: nat|
                        k < i && {
                            let s = #[trigger] spiral_walker(k);
                            (p.x == s.x || p.x == s.x + 1) && p.y == s.y
                        } {
                        let k = choose|k: nat|
                            k < i && {
                                let s = #[trigger] spiral_walker(k);
                                (p.x == s.x || p.x == s.x + 1) && p.y == s.y
                            };
                        assert(forall|j: nat| j <= k ==> #[trigger] spiral_inside(j));
                    }
                }
            }
            break;
        }
        let ghost before = map;
        let here = Position::new(x, y);
        let east = Position::new(x + 1, y);
        map.set_tile(here, TileType::Floor);
        let ghost mid = map;
        map.set_tile(east, TileType::Floor);
        proof {
            assert(spiral_inside(i as nat));
            assert forall|p: Position| #[trigger] map.spec_contains(p) implies map.tile_at(p) == (if exists|k: nat|
                k < i + 1 && {
                    let s = #[trigger] spiral_walker(k);
                    (p.x == s.x || p.x == s.x + 1) && p.y == s.y
                } {
                TileType::Floor
            } else {
                TileType::Wall
            }) by {
                assert(before.spec_contains(p));
                lemma_set_tile_reads(before, mid, here, TileType::Floor, p);
                lemma_set_tile_reads(mid, map, east, TileType::Floor, p);
                let s = spiral_walker(i as nat);
                if (p.x == s.x || p.x == s.x + 1) && p.y == s.y {
                    assert(exists|k: nat|
                        k < i + 1 && {
                            let s = #[trigger] spiral_walker(k);
                            (p.x == s.x || p.x == s.x + 1) && p.y == s.y
                        });
                }
                if exists|k: nat|
                    k < i + 1 && {
                        let s = #[trigger] spiral_walker(k);
                        (p.x == s.x || p.x == s.x + 1) && p.y == s.y
                    } {
                    let k = choose|k: nat|
                        k < i + 1 && {
                            let s = #[trigger] spiral_walker(k);
                            (p.x == s.x || p.x == s.x + 1) && p.y == s.y
                        };
                    if k < i {
                        assert(exists|k: nat|
                            k < i && {
                                let s = #[trigger] spiral_walker(k);
                                (p.x == s.x || p.x == s.x + 1) && p.y == s.y
                            });
                    }
                }
            }
        }
        let (dx, dy): (i32, i32) = if dir_idx == 0 {
            (1, 0)
        } else if dir_idx == 1 {
            (0, 1)
        } else if dir_idx == 2 {
            (-1, 0)
        } else {
            (0, -1)
        };
        x = x + dx;
        y = y + dy;
        steps_taken = steps_taken + 1;
        if steps_taken >= steps_in_dir {
            steps_taken = 0;
            dir_idx = (dir_idx + 1) % 4;
            segment_count = segment_count + 1;
            if segment_count % 2 == 0 {
                steps_in_dir = steps_in_dir + 1;
            }
        }
        proof {
            assert(spiral_walker((i + 1) as nat) == spiral_step(spiral_walker(i as nat)));
            assert forall|j: nat| j < i + 1 implies #[trigger] spiral_inside(j) by {
                if j == i {
                }
            }
        }
        i = i + 1;
    }
    let ghost walked = map;
    let player_start = Position::new(cx, cy);
    let stairs_down = Position::new(cx, cy + 2);
    map.set_tile(player_start, TileType::StairsUp);
    let ghost m2 = map;
    map.set_tile(stairs_down, TileType::StairsDown);
    proof {
        assert forall|p: Position| #[trigger] map.spec_contains(p) implies map.tile_at(p) == descent_tile(p) by {
            assert(walked.spec_contains(p));
            lemma_set_tile_reads(walked, m2, player_start, TileType::StairsUp, p);
            lemma_set_tile_reads(m2, map, stairs_down, TileType::StairsDown, p);
        }
    }
    MapGenOutput {
        map,
        player_start,
        stairs_up: player_start,
        stairs_down,
        combat_spawns: Vec::new(),
        boss_spawns: Vec::new(),
    }
}

// ---------------------------------------------------------------------------
// Depth 10: the Maze of Regret

/// A tile that may start shifting in the Maze of Regret: an inner floor
/// tile at least four steps from the start and from the stairs down, and at
/// least three from every enemy spawn.
pub open spec fn may_shift(m: TileMap, start: Position, stairs: Position, spawns: Seq<Position>, p: Position) -> bool {
    &&& interior(m, p)
    &&& m.tile_at(p) == TileType::Floor
    &&& manhattan(p, start) >= 4
    &&& manhattan(p, stairs) >= 4
    &&& far_from_all(spawns, p, 3)
}

/// Whether some spawn lies fewer than three steps from `pos`.
fn near_a_spawn(spawns: &Vec<Position>, pos: Position, max: i32) -> (b: bool)
    requires
        forall|j: int| 0 <= j < spawns@.len() ==> manhattan(#[trigger] spawns@[j], pos) <= i32::MAX,
    ensures
        b == !far_from_all(spawns@, pos, 3),
{
    let mut j: usize = 0;
    while j < spawns.len()
        invariant
            j <= spawns@.len(),
            forall|k: int| 0 <= k < spawns@.len() ==> manhattan(#[trigger] spawns@[k], pos) <= i32::MAX,
            far_from_all(spawns@.take(j as int), pos, 3),
        decreases spawns.len() - j,
    {
        let d = spawns[j].manhattan_distance(pos);
        if d < 3 {
            assert(manhattan(spawns@[j as int], pos) < 3);
            return true;
        }
        proof {
            assert forall|k: int| 0 <= k < j + 1 implies manhattan(#[trigger] spawns@.take(j + 1)[k], pos) >= 3 by {
                if k < j {
                    assert(spawns@.take(j + 1)[k] == spawns@.take(j as int)[k]);
                }
            }
        }
        j = j + 1;
    }
    assert(spawns@.take(j as int) =~= spawns@);
    false
}

/// `c` lists exactly the tiles of `m` that may shift, in row-major order.
pub open spec fn shift_list(m: TileMap, start: Position, stairs: Position, spawns: Seq<Position>, c: Seq<Position>) -> bool {
    &&& forall|k: int| 0 <= k < c.len() ==> may_shift(m, start, stairs, spawns, #[trigger] c[k])
    &&& forall|a: int, b: int| 0 <= a < b < c.len() ==> row_major_before(#[trigger] c[a], #[trigger] c[b])
    &&& forall|p: Position| #[trigger] may_shift(m, start, stairs, spawns, p) ==> c.contains(p)
}

/// The candidates among the first `k` that are picked: those whose draw is
/// below 15.
pub open spec fn picked(c: Seq<Position>, rolls: Seq<i32>, k: int) -> Seq<Position>
    decreases k,
{
    if k <= 0 {
        seq![]
    } else {
        let prev = picked(c, rolls, k - 1);
        if rolls[k - 1] < 15 {
            prev.push(c[k - 1])
        } else {
            prev
        }
    }
}

/// The tiles that may shift, scanning the inner tiles row by row.
pub fn shift_candidates(map: &TileMap, start: Position, stairs: Position, spawns: &Vec<Position>) -> (c: Vec<Position>)
    requires
        map.wf(),
        4 <= map.spec_width(),
        4 <= map.spec_height(),
        map.spec_contains(start),
        map.spec_contains(stairs),
        forall|j: int| 0 <= j < spawns@.len() ==> map.spec_contains(#[trigger] spawns@[j]),
    ensures
        shift_list(*map, start, stairs, spawns@, c@),
{
    let ghost m0 = *map;
    let w = map.width();
    let h = map.height();
    proof {
        m0.lemma_wf_len();
        assert(w + h <= i32::MAX) by (nonlinear_arith)
            requires
                4 <= w,
                4 <= h,
                w * h <= i32::MAX,
        ;
    }
    let mut c: Vec<Position> = Vec::new();
    let mut y: i32 = 1;
    while y < h - 1
        invariant
            m0 == *map,
            map.wf(),
            map.spec_width() == w,
            map.spec_height() == h,
            4 <= w,
            4 <= h,
            w + h <= i32::MAX,
            map.spec_contains(start),
            map.spec_contains(stairs),
            forall|j: int| 0 <= j < spawns@.len() ==> map.spec_contains(#[trigger] spawns@[j]),
            1 <= y <= h - 1,
            forall|k: int| 0 <= k < c@.len() ==> may_shift(m0, start, stairs, spawns@, #[trigger] c@[k])
                && c@[k].y < y,
            forall|a: int, b: int| 0 <= a < b < c@.len() ==> row_major_before(#[trigger] c@[a], #[trigger] c@[b]),
            forall|p: Position| #[trigger] may_shift(m0, start, stairs, spawns@, p) && p.y < y ==> c@.contains(p),
        decreases h - 1 - y,
    {
        let mut x: i32 = 1;
        while x < w - 1
            invariant
                m0 == *map,
                map.wf(),
                map.spec_width() == w,
                map.spec_height() == h,
                4 <= w,
                4 <= h,
                w + h <= i32::MAX,
                map.spec_contains(start),
                map.spec_contains(stairs),
                forall|j: int| 0 <= j < spawns@.len() ==> map.spec_contains(#[trigger] spawns@[j]),
                1 <= y < h - 1,
                1 <= x <= w - 1,
                forall|k: int| 0 <= k < c@.len() ==> may_shift(m0, start, stairs, spawns@, #[trigger] c@[k])
                    && row_major_before(c@[k], Position { x, y }),
                forall|a: int, b: int| 0 <= a < b < c@.len() ==> row_major_before(#[trigger] c@[a], #[trigger] c@[b]),
                forall|p: Position| #[trigger] may_shift(m0, start, stairs, spawns@, p) && row_major_before(p, Position { x, y })
                    ==> c@.contains(p),
            decreases w - 1 - x,
        {
            let pos = Position::new(x, y);
            proof {
                assert forall|j: int| 0 <= j < spawns@.len() implies manhattan(#[trigger] spawns@[j], pos) <= i32::MAX by {
                    assert(map.spec_contains(spawns@[j]));
                }
            }
            let ghost before = c@;
            if pos.manhattan_distance(start) >= 4 && pos.manhattan_distance(stairs) >= 4 && !near_a_spawn(
                spawns,
                pos,
                3,
            ) && map.tile(pos) == TileType::Floor {
                c.push(pos);
                proof {
                    assert(may_shift(m0, start, stairs, spawns@, pos));
                    assert forall|a: int, b: int| 0 <= a < b < c@.len() implies row_major_before(
                        #[trigger] c@[a],
                        #[trigger] c@[b],
                    ) by {
                        assert(c@[a] == before[a]);
                        if b < before.len() {
                            assert(c@[b] == before[b]);
                        }
                    }
                    assert(c@[before.len() as int] == pos);
                }
            }
            proof {
                assert forall|k: int| 0 <= k < c@.len() implies may_shift(m0, start, stairs, spawns@, #[trigger] c@[k])
                    && row_major_before(c@[k], Position { x: (x + 1) as i32, y }) by {
                    if k < before.len() {
                        assert(c@[k] == before[k]);
                    }
                }
                assert forall|p: Position| #[trigger] may_shift(m0, start, stairs, spawns@, p) && row_major_before(
                    p,
                    Position { x: (x + 1) as i32, y },
                ) implies c@.contains(p) by {
                    if row_major_before(p, Position { x, y }) {
                        assert(before.contains(p));
                        let k = choose|k: int| 0 <= k < before.len() && before[k] == p;
                        assert(c@[k] == p);
                    } else {
                        assert(p == pos);
                        assert(c@[c@.len() - 1] == pos);
                    }
                }
            }
            x = x + 1;
        }
        proof {
            assert forall|p: Position| #[trigger] may_shift(m0, start, stairs, spawns@, p) && p.y < y + 1 implies c@.contains(
                p,
            ) by {
                if p.y == y {
                    assert(row_major_before(p, Position { x, y }));
                }
            }
        }
        y = y + 1;
    }
    proof {
        assert forall|p: Position| #[trigger] may_shift(m0, start, stairs, spawns@, p) implies c@.contains(p) by {
            assert(p.y < y);
        }
    }
    c
}

/// Picks the candidates whose draw is below 15; when `wall_now` (an even
/// turn) the picked tiles turn to wall at once, and no other tile changes.
pub fn pick_walls(map: &mut TileMap, candidates: &Vec<Position>, rolls: &Vec<i32>, wall_now: bool) -> (walls: Vec<
    Position,
>)
    requires
        old(map).wf(),
        rolls@.len() == candidates@.len(),
    ensures
        final(map).wf(),
        final(map).spec_width() == old(map).spec_width(),
        final(map).spec_height() == old(map).spec_height(),
        walls@ == picked(candidates@, rolls@, candidates@.len() as int),
        forall|p: Position| #[trigger] final(map).spec_contains(p) ==> final(map).tile_at(p) == (if wall_now
            && walls@.contains(p) {
            TileType::Wall
        } else {
            old(map).tile_at(p)
        }),
{
    let ghost m0 = *map;
    let mut walls: Vec<Position> = Vec::new();
    let mut k: usize = 0;
    while k < candidates.len()
        invariant
            map.wf(),
            m0.wf(),
            map.spec_width() == m0.spec_width(),
            map.spec_height() == m0.spec_height(),
            rolls@.len() == candidates@.len(),
            k <= candidates@.len(),
            walls@ == picked(candidates@, rolls@, k as int),
            forall|p: Position| #[trigger] map.spec_contains(p) ==> map.tile_at(p) == (if wall_now && walls@.contains(p) {
                TileType::Wall
            } else {
                m0.tile_at(p)
            }),
        decreases candidates.len() - k,
    {
        if rolls[k] < 15 {
            let pos = candidates[k];
            let ghost before = walls@;
            let ghost mb = *map;
            walls.push(pos);
            if wall_now {
                map.set_tile(pos, TileType::Wall);
            }
            proof {
                assert forall|p: Position| #[trigger] map.spec_contains(p) implies map.tile_at(p) == (if wall_now
                    && walls@.contains(p) {
                    TileType::Wall
                } else {
                    m0.tile_at(p)
                }) by {
                    assert(mb.spec_contains(p));
                    if wall_now && mb.spec_contains(pos) {
                        lemma_set_tile_reads(mb, *map, pos, TileType::Wall, p);
                    } else if wall_now {
                        assert(map.tile_seq() == mb.tile_seq());
                    } else {
                        assert(*map == mb);
                    }
                    if p != pos {
                        if walls@.contains(p) {
                            let j = choose|j: int| 0 <= j < walls@.len() && walls@[j] == p;
                            assert(before[j] == p);
                        }
                        if before.contains(p) {
                            let j = choose|j: int| 0 <= j < before.len() && before[j] == p;
                            assert(walls@[j] == p);
                        }
                    } else {
                        assert(walls@[before.len() as int] == pos);
                    }
                }
            }
        }
        k = k + 1;
    }
    walls
}

/// Of sorted candidates, the picked ones are sorted too, and each may
/// shift when every candidate may.
proof fn lemma_picked_sorted(m: TileMap, start: Position, stairs: Position, spawns: Seq<Position>, c: Seq<Position>, rolls: Seq<i32>, k: int)
    requires
        0 <= k <= c.len(),
        k <= rolls.len(),
        shift_list(m, start, stairs, spawns, c),
    ensures
        forall|i: int| 0 <= i < picked(c, rolls, k).len() ==> may_shift(m, start, stairs, spawns, #[trigger] picked(c, rolls, k)[i]),
        forall|a: int, b: int|
            0 <= a < b < picked(c, rolls, k).len() ==> row_major_before(#[trigger] picked(c, rolls, k)[a], #[trigger] picked(c, rolls, k)[b]),
        forall|i: int| 0 <= i < picked(c, rolls, k).len() ==> k > 0 && (picked(c, rolls, k)[i] == c[k - 1] || row_major_before(#[trigger] picked(c, rolls, k)[i], c[k - 1])),
    decreases k,
{
    if k > 0 {
        lemma_picked_sorted(m, start, stairs, spawns, c, rolls, k - 1);
        let prev = picked(c, rolls, k - 1);
        let cur = picked(c, rolls, k);
        assert forall|i: int| 0 <= i < cur.len() implies k > 0 && (#[trigger] cur[i] == c[k - 1] || row_major_before(cur[i], c[k - 1])) by {
            if i < prev.len() {
                assert(cur[i] == prev[i]);
                assert(prev[i] == c[k - 2] || row_major_before(prev[i], c[k - 2]));
                assert(row_major_before(c[k - 2], c[k - 1]));
            }
        }
        assert forall|i: int| 0 <= i < cur.len() implies may_shift(m, start, stairs, spawns, #[trigger] cur[i]) by {
            if i < prev.len() {
                assert(cur[i] == prev[i]);
            }
        }
        assert forall|a: int, b: int| 0 <= a < b < cur.len() implies row_major_before(#[trigger] cur[a], #[trigger] cur[b]) by {
            assert(cur[a] == prev[a]);
            if b < prev.len() {
                assert(cur[b] == prev[b]);
            } else {
                assert(cur[b] == c[k - 1]);
                assert(prev[a] == c[k - 2] || row_major_before(prev[a], c[k - 2]));
                assert(row_major_before(c[k - 2], c[k - 1]));
            }
        }
    }
}

/// Two lists of positions, each in strict row-major order, that hold the
/// same positions are the same list.
proof fn lemma_sorted_unique(s1: Seq<Position>, s2: Seq<Position>)
    requires
        forall|a: int, b: int| 0 <= a < b < s1.len() ==> row_major_before(#[trigger] s1[a], #[trigger] s1[b]),
        forall|a: int, b: int| 0 <= a < b < s2.len() ==> row_major_before(#[trigger] s2[a], #[trigger] s2[b]),
        forall|p: Position| #![trigger s1.contains(p)] #![trigger s2.contains(p)] s1.contains(p) <==> s2.contains(p),
    ensures
        s1 == s2,
    decreases s1.len(),
{
    if s1.len() == 0 {
        if s2.len() > 0 {
            assert(s2.contains(s2[0]));
            assert(false);
        }
        assert(s1 =~= s2);
    } else {
        assert(s1.contains(s1[0]));
        let j = choose|j: int| 0 <= j < s2.len() && s2[j] == s1[0];
        assert(s2.contains(s2[0]));
        let k = choose|k: int| 0 <= k < s1.len() && s1[k] == s2[0];
        if j > 0 {
            assert(row_major_before(s2[0], s2[j]));
            if k > 0 {
                assert(row_major_before(s1[0], s1[k]));
            }
            assert(false);
        }
        let t1 = s1.drop_first();
        let t2 = s2.drop_first();
        assert forall|p: Position| #![trigger t1.contains(p)] #![trigger t2.contains(p)] t1.contains(p) <==> t2.contains(p) by {
            if t1.contains(p) {
                let i = choose|i: int| 0 <= i < t1.len() && t1[i] == p;
                assert(s1[i + 1] == p && row_major_before(s1[0], s1[i + 1]));
                assert(s1.contains(p));
                let m = choose|m: int| 0 <= m < s2.len() && s2[m] == p;
                assert(m > 0);
                assert(t2[m - 1] == p);
            }
            if t2.contains(p) {
                let i = choose|i: int| 0 <= i < t2.len() && t2[i] == p;
                assert(s2[i + 1] == p && row_major_before(s2[0], s2[i + 1]));
                assert(s2.contains(p));
                let m = choose|m: int| 0 <= m < s1.len() && s1[m] == p;
                assert(m > 0);
                assert(t1[m - 1] == p);
            }
        }
        assert forall|a: int, b: int| 0 <= a < b < t1.len() implies row_major_before(#[trigger] t1[a], #[trigger] t1[b]) by {
            assert(row_major_before(s1[a + 1], s1[b + 1]));
        }
        assert forall|a: int, b: int| 0 <= a < b < t2.len() implies row_major_before(#[trigger] t2[a], #[trigger] t2[b]) by {
            assert(row_major_before(s2[a + 1], s2[b + 1]));
        }
        lemma_sorted_unique(t1, t2);
        assert(s1 =~= s2) by {
            assert forall|i: int| 0 <= i < s1.len() implies s1[i] == s2[i] by {
                if i > 0 {
                    assert(s1[i] == t1[i - 1]);
                    assert(s2[i] == t2[i - 1]);
                }
            }
        }
    }
}

/// The same seed on the same map, start, stairs and spawns picks the same
/// shifting walls: the tiles that may shift come in one order only, and the
/// draws are those of the seed.
pub proof fn lemma_same_seed_same_shifting_walls(
    m: TileMap,
    start: Position,
    stairs: Position,
    spawns: Seq<Position>,
    seed: u64,
    c1: Seq<Position>,
    c2: Seq<Position>,
)
    requires
        shift_list(m, start, stairs, spawns, c1),
        shift_list(m, start, stairs, spawns, c2),
    ensures
        picked(c1, percent_rolls(seed, c1.len()), c1.len() as int) == picked(
            c2,
            percent_rolls(seed, c2.len()),
            c2.len() as int,
        ),
{
    assert forall|p: Position| #![trigger c1.contains(p)] #![trigger c2.contains(p)] c1.contains(p) <==> c2.contains(p) by {
        if c1.contains(p) {
            let i = choose|i: int| 0 <= i < c1.len() && c1[i] == p;
            assert(may_shift(m, start, stairs, spawns, c1[i]));
        }
        if c2.contains(p) {
            let i = choose|i: int| 0 <= i < c2.len() && c2[i] == p;
            assert(may_shift(m, start, stairs, spawns, c2[i]));
        }
    }
    lemma_sorted_unique(c1, c2);
}

/// The first `n` draws in `0..100` of a generator seeded with `seed`.
pub open spec fn percent_rolls(seed: u64, n: nat) -> Seq<i32>
    decreases n,
{
    if n == 0 {
        Seq::empty()
    } else {
        percent_rolls(seed, (n - 1) as nat).push(seeded_draw(seed, percent_span((n - 1) as nat), 0, 100))
    }
}

/// The shifting tiles of the maze: going over the inner tiles row by row,
/// each tile that may shift is picked when a draw from `0..100` of a
/// generator seeded with `seed` comes out below 15 (one draw per such tile,
/// in that order). When `wall_now` (an even turn) the picked tiles turn to
/// wall at once; no other tile changes. The draws are `percent_rolls` of the
/// seed.
pub fn pick_shifting_walls(
    map: &mut TileMap,
    start: Position,
    stairs: Position,
    spawns: &Vec<Position>,
    wall_now: bool,
    seed: u64,
) -> (walls: Vec<Position>)
    requires
        old(map).wf(),
        4 <= old(map).spec_width(),
        4 <= old(map).spec_height(),
        old(map).spec_contains(start),
        old(map).spec_contains(stairs),
        forall|j: int| 0 <= j < spawns@.len() ==> old(map).spec_contains(#[trigger] spawns@[j]),
    ensures
        final(map).wf(),
        final(map).spec_width() == old(map).spec_width(),
        final(map).spec_height() == old(map).spec_height(),
        exists|c: Seq<Position>|
            {
                &&& shift_list(*old(map), start, stairs, spawns@, c)
                &&& walls@ == #[trigger] picked(c, percent_rolls(seed, c.len()), c.len() as int)
            },
        forall|k: int| 0 <= k < walls@.len() ==> may_shift(*old(map), start, stairs, spawns@, #[trigger] walls@[k]),
        forall|a: int, b: int| 0 <= a < b < walls@.len() ==> row_major_before(#[trigger] walls@[a], #[trigger] walls@[b]),
        forall|p: Position| #[trigger] final(map).spec_contains(p) ==> final(map).tile_at(p) == (if wall_now
            && walls@.contains(p) {
            TileType::Wall
        } else {
            old(map).tile_at(p)
        }),
{
    let ghost m0 = *map;
    let candidates = shift_candidates(map, start, stairs, spawns);
    let mut rng = seeded_rng(seed);
    let mut rolls: Vec<i32> = Vec::new();
    let mut k: usize = 0;
    while k < candidates.len()
        invariant
            k <= candidates@.len(),
            rolls@.len() == k,
            forall|j: int| 0 <= j < rolls@.len() ==> 0 <= #[trigger] rolls@[j] < 100,
            rng.seed() == seed,
            rng.draws() == percent_span(k as nat),
            rolls@ == percent_rolls(seed, k as nat),
        decreases candidates.len() - k,
    {
        let roll = rng_range(&mut rng, 0, 100);
        rolls.push(roll);
        assert(rng.draws() =~= percent_span((k + 1) as nat));
        k = k + 1;
    }
    let walls = pick_walls(map, &candidates, &rolls, wall_now);
    proof {
        lemma_picked_sorted(m0, start, stairs, spawns@, candidates@, rolls@, candidates@.len() as int);
        assert(shift_list(m0, start, stairs, spawns@, candidates@));
    }
    walls
}

/// The Maze of Regret (depth 10): a room-and-corridor level of which some
/// floor tiles shift (see `pick_shifting_walls`), picked with a generator
/// seeded from the depth's seed mixed with a fixed salt, so that the walls do
/// not repeat the map's own draws. Returns the level, with the shifting tiles
/// turned to wall on even turns, and the shifting tiles.
pub fn maze_of_regret_layout(run_seed: u64, turn: u64) -> (r: (MapGenOutput, Vec<Position>))
    ensures
        r.0.map.wf(),
        r.0.map.spec_width() == MAP_WIDTH,
        r.0.map.spec_height() == MAP_HEIGHT,
        r.0.stairs_up == r.0.player_start,
        forall|k: int| 0 <= k < r.1@.len() ==> interior(r.0.map, #[trigger] r.1@[k]) && manhattan(
            r.1@[k],
            r.0.player_start,
        ) >= 4 && manhattan(r.1@[k], r.0.stairs_down) >= 4 && far_from_all(r.0.combat_spawns@, r.1@[k], 3),
        forall|a: int, b: int| 0 <= a < b < r.1@.len() ==> row_major_before(#[trigger] r.1@[a], #[trigger] r.1@[b]),
        forall|k: int| 0 <= k < r.1@.len() ==> r.0.map.tile_at(#[trigger] r.1@[k]) == (if turn % 2 == 0 {
            TileType::Wall
        } else {
            TileType::Floor
        }),
        r.0.map.tile_at(r.0.stairs_down) == TileType::StairsDown,
        connects_past(r.0.map, r.1@, r.0.player_start, r.0.stairs_down),
        forall|j: int| 0 <= j < r.0.combat_spawns@.len() ==> connects_past(
            r.0.map,
            r.1@,
            r.0.player_start,
            #[trigger] r.0.combat_spawns@[j],
        ),
{
    let gen = TileMap::generate(MAP_WIDTH, MAP_HEIGHT, 10, level_seed(run_seed, 10));
    let MapGenOutput { map, player_start, stairs_up, stairs_down, combat_spawns, boss_spawns } = gen;
    let mut map = map;
    let stairs = find_stairs_down(&map);
    proof {
        assert(map.spec_contains(stairs_down) && map.tile_at(stairs_down) == TileType::StairsDown);
        assert(stairs == stairs_down);
    }
    let ghost m0 = map;
    let seed = level_seed(run_seed, 10) ^ 0x4D41_5A45u64;
    let walls = pick_shifting_walls(&mut map, player_start, stairs, &combat_spawns, turn % 2 == 0, seed);
    proof {
        assert forall|k: int| 0 <= k < walls@.len() implies map.tile_at(#[trigger] walls@[k]) == (if turn % 2 == 0 {
            TileType::Wall
        } else {
            TileType::Floor
        }) by {
            assert(may_shift(m0, player_start, stairs, combat_spawns@, walls@[k]));
            assert(walls@.contains(walls@[k]));
            assert(map.spec_contains(walls@[k]));
        }
        assert(map.spec_contains(stairs_down));
        if walls@.contains(stairs_down) {
            let k = choose|k: int| 0 <= k < walls@.len() && walls@[k] == stairs_down;
            assert(may_shift(m0, player_start, stairs, combat_spawns@, walls@[k]));
        }
        assert forall|p: Position| #[trigger] m0.walkable_at(p) implies map.walkable_at(p) || walls@.contains(p) by {
            assert(map.spec_contains(p));
        }
        lemma_connects_past(m0, map, walls@, player_start, stairs_down);
        assert forall|j: int| 0 <= j < combat_spawns@.len() implies connects_past(
            map,
            walls@,
            player_start,
            #[trigger] combat_spawns@[j],
        ) by {
            lemma_connects_past(m0, map, walls@, player_start, combat_spawns@[j]);
        }
    }
    (MapGenOutput { map, player_start, stairs_up, stairs_down, combat_spawns, boss_spawns }, walls)
}

} // verus!
