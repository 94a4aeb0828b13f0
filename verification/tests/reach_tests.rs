use std::collections::{HashSet, VecDeque};

use xlyph::entity::Position;
use xlyph::levels::{
    boiling_heart_layout, counting_room_layout, descent_layout, foyer_layout, gauntlet_layout, generate_wizard_box,
    maze_of_regret_layout, offer_layout, pick_shifting_walls, pick_walls, shift_candidates, procedural_layout, quiet_halls_layout, scale_layout,
    tutorial_grid_layout,
};
use xlyph::map::{MapGenOutput, TileMap, TileType, MAP_HEIGHT, MAP_WIDTH};
use xlyph::mechanics::counting_room_locked_door;

/// Flood fill over walkable tiles (and the extra passable ones) from `start`,
/// one orthogonal step at a time.
fn reachable_with(map: &TileMap, start: Position, extra: &dyn Fn(Position) -> bool) -> HashSet<Position> {
    let mut seen = HashSet::new();
    let mut queue = VecDeque::new();
    seen.insert(start);
    queue.push_back(start);
    while let Some(p) = queue.pop_front() {
        for (dx, dy) in [(0, -1), (1, 0), (0, 1), (-1, 0)] {
            let next = Position::new(p.x + dx, p.y + dy);
            if map.contains(next) && (map.is_walkable(next) || extra(next)) && seen.insert(next) {
                queue.push_back(next);
            }
        }
    }
    seen
}

fn reachable(map: &TileMap, start: Position) -> HashSet<Position> {
    reachable_with(map, start, &|_| false)
}

fn assert_lint(out: &MapGenOutput, extra: &dyn Fn(Position) -> bool) {
    assert!(out.map.is_walkable(out.player_start));
    let seen = reachable_with(&out.map, out.player_start, extra);
    for y in 0..out.map.height() {
        for x in 0..out.map.width() {
            let p = Position::new(x, y);
            if out.map.tile(p) == TileType::StairsDown {
                assert!(seen.contains(&p), "stairs down unreachable at {:?}", p);
            }
        }
    }
    for p in out.combat_spawns.iter().chain(out.boss_spawns.iter()) {
        assert!(seen.contains(p), "spawn unreachable at {:?}", p);
    }
}

#[test]
fn fixed_levels_pass_the_lint() {
    let none = |_: Position| false;
    assert_lint(&foyer_layout(), &none);
    assert_lint(&generate_wizard_box(), &none);
    assert_lint(&tutorial_grid_layout(), &none);
    assert_lint(&quiet_halls_layout(), &none);
    assert_lint(&gauntlet_layout(), &none);
    // Locked doors open with keys, so they count as passable.
    assert_lint(&counting_room_layout(), &|p| counting_room_locked_door(p));
    assert_lint(&boiling_heart_layout(), &none);
    assert_lint(&scale_layout(), &none);
    assert_lint(&offer_layout(), &none);
    assert_lint(&descent_layout(), &none);
}

#[test]
fn procedural_levels_pass_the_lint() {
    for depth in 1..=17u32 {
        for run_seed in 1..=4u64 {
            let out = procedural_layout(depth, run_seed);
            assert_lint(&out, &|_| false);
        }
    }
}

#[test]
fn room_levels_join_every_room() {
    for depth in [1u32, 3, 7, 13] {
        let out = TileMap::generate(MAP_WIDTH, MAP_HEIGHT, depth, 99 + depth as u64);
        let seen = reachable(&out.map, out.player_start);
        assert!(seen.contains(&out.stairs_down));
        for p in out.combat_spawns.iter().chain(out.boss_spawns.iter()) {
            assert!(seen.contains(p));
        }
        // One stairs down, where the output says.
        let mut downs = Vec::new();
        for y in 0..MAP_HEIGHT {
            for x in 0..MAP_WIDTH {
                if out.map.tile(Position::new(x, y)) == TileType::StairsDown {
                    downs.push(Position::new(x, y));
                }
            }
        }
        assert_eq!(downs, vec![out.stairs_down]);
    }
}

#[test]
fn tiny_room_levels_still_join() {
    let out = TileMap::generate(12, 12, 2, 3);
    let seen = reachable(&out.map, out.player_start);
    assert!(seen.contains(&out.stairs_down));
}

#[test]
fn cave_levels_join_start_and_spawns() {
    for depth in [0u32, 2, 6, 12] {
        let out = TileMap::generate_cave(depth, 7 + depth as u64);
        let seen = reachable(&out.map, out.player_start);
        assert!(seen.contains(&out.stairs_down));
        for p in &out.combat_spawns {
            assert!(seen.contains(p));
        }
    }
}

#[test]
fn maze_walls_keep_clear_of_start_stairs_and_spawns() {
    for turn in [0u64, 1, 2, 7] {
        let (out, walls) = maze_of_regret_layout(42, turn);
        for (i, w) in walls.iter().enumerate() {
            assert!(w.x >= 1 && w.x < MAP_WIDTH - 1 && w.y >= 1 && w.y < MAP_HEIGHT - 1);
            assert!(w.manhattan_distance(out.player_start) >= 4);
            assert!(w.manhattan_distance(out.stairs_down) >= 4);
            for s in &out.combat_spawns {
                assert!(w.manhattan_distance(*s) >= 3);
            }
            let expected = if turn % 2 == 0 { TileType::Wall } else { TileType::Floor };
            assert_eq!(out.map.tile(*w), expected);
            if i > 0 {
                let prev = walls[i - 1];
                assert!(prev.y < w.y || (prev.y == w.y && prev.x < w.x));
            }
        }
        // With the shifting tiles counted as passable the level passes the lint.
        let gates: HashSet<Position> = walls.iter().copied().collect();
        assert_lint(&out, &|p| gates.contains(&p));
    }
}

#[test]
fn shifting_walls_follow_the_seed() {
    let mut open = TileMap::new_filled(30, 20, TileType::Wall);
    for y in 1..19 {
        for x in 1..29 {
            open.set_tile(Position::new(x, y), TileType::Floor);
        }
    }
    let start = Position::new(2, 2);
    let stairs = Position::new(27, 17);
    let spawns = vec![Position::new(15, 10)];

    let mut kept = open.clone();
    let walls = pick_shifting_walls(&mut kept, start, stairs, &spawns, false, 7);
    // Odd turns leave the map as it was.
    for y in 0..20 {
        for x in 0..30 {
            let p = Position::new(x, y);
            assert_eq!(kept.tile(p), open.tile(p));
        }
    }
    assert!(!walls.is_empty());
    for w in &walls {
        assert_eq!(open.tile(*w), TileType::Floor);
        assert!(w.manhattan_distance(start) >= 4);
        assert!(w.manhattan_distance(stairs) >= 4);
        assert!(w.manhattan_distance(spawns[0]) >= 3);
    }

    // The same seed picks the same tiles; on even turns they are walls.
    let mut walled = open.clone();
    let again = pick_shifting_walls(&mut walled, start, stairs, &spawns, true, 7);
    assert_eq!(again, walls);
    for y in 0..20 {
        for x in 0..30 {
            let p = Position::new(x, y);
            let expected = if walls.contains(&p) { TileType::Wall } else { open.tile(p) };
            assert_eq!(walled.tile(p), expected);
        }
    }
}

#[test]
fn candidates_are_the_open_inner_tiles_away_from_start_stairs_and_spawns() {
    let mut open = TileMap::new_filled(12, 8, TileType::Wall);
    for y in 1..7 {
        for x in 1..11 {
            open.set_tile(Position::new(x, y), TileType::Floor);
        }
    }
    let start = Position::new(1, 1);
    let stairs = Position::new(10, 6);
    let spawns = vec![Position::new(6, 3)];
    let c = shift_candidates(&open, start, stairs, &spawns);
    let mut expected = Vec::new();
    for y in 1..7 {
        for x in 1..11 {
            let p = Position::new(x, y);
            if p.manhattan_distance(start) >= 4 && p.manhattan_distance(stairs) >= 4 && p.manhattan_distance(spawns[0]) >= 3 {
                expected.push(p);
            }
        }
    }
    assert_eq!(c, expected);
    assert!(c.contains(&Position::new(10, 1)));
    assert!(!c.contains(&Position::new(6, 4)));
}

#[test]
fn draws_below_fifteen_pick_their_candidates() {
    let mut map = TileMap::new_filled(6, 6, TileType::Floor);
    let candidates = vec![Position::new(1, 1), Position::new(2, 1), Position::new(3, 2), Position::new(4, 4)];
    let rolls = vec![14, 15, 0, 99];
    let walls = pick_walls(&mut map, &candidates, &rolls, true);
    assert_eq!(walls, vec![Position::new(1, 1), Position::new(3, 2)]);
    assert_eq!(map.tile(Position::new(1, 1)), TileType::Wall);
    assert_eq!(map.tile(Position::new(3, 2)), TileType::Wall);
    assert_eq!(map.tile(Position::new(2, 1)), TileType::Floor);
    assert_eq!(map.tile(Position::new(4, 4)), TileType::Floor);

    let mut odd = TileMap::new_filled(6, 6, TileType::Floor);
    let again = pick_walls(&mut odd, &candidates, &rolls, false);
    assert_eq!(again, walls);
    assert_eq!(odd.tile(Position::new(1, 1)), TileType::Floor);
}

#[test]
fn standard_room_levels_fill_every_region() {
    // A 55 by 33 map has four columns and two rows of regions, each wide
    // enough for any room, so every level has eight rooms: the start, the
    // stairs and six more, each a spawn unless it is the exit.
    for depth in [1u32, 5] {
        let out = TileMap::generate(MAP_WIDTH, MAP_HEIGHT, depth, 99 + depth as u64);
        assert_eq!(out.combat_spawns.len() + out.boss_spawns.len() + 2, 8);
    }
}
