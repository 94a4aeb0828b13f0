use std::collections::HashSet;

use xlyph::entity::{Direction, Position};
use xlyph::flashlight::bresenham_line;
use xlyph::map::{find_stairs_down, TileMap, TileType, FLASHLIGHT_RADIUS, UNREACHED};
use xlyph::mapgen::{
    bfs_farthest, extra_loop_count, kruskal, room_edges, room_kind_for_roll, MstEdge, UnionFind,
};
use xlyph::map::RoomType;

/// The beam test as single-precision cosine, the way the game first wrote it.
fn in_beam_f32(origin: Position, facing: Direction, pos: Position) -> bool {
    let (fx, fy) = facing.delta();
    let facing_len = ((fx * fx + fy * fy) as f32).sqrt();
    let dx = pos.x - origin.x;
    let dy = pos.y - origin.y;
    let dist_sq = dx * dx + dy * dy;
    if dist_sq > FLASHLIGHT_RADIUS * FLASHLIGHT_RADIUS {
        return false;
    }
    let dist = (dist_sq as f32).sqrt();
    let dot = ((dx * fx + dy * fy) as f32) / (dist * facing_len);
    dot >= 0.70
}

fn reference_lit(map: &TileMap, origin: Position, facing: Direction) -> HashSet<Position> {
    let mut lit = HashSet::new();
    if !map.contains(origin) {
        return lit;
    }
    lit.insert(origin);
    for y in (origin.y - FLASHLIGHT_RADIUS)..=(origin.y + FLASHLIGHT_RADIUS) {
        for x in (origin.x - FLASHLIGHT_RADIUS)..=(origin.x + FLASHLIGHT_RADIUS) {
            let pos = Position::new(x, y);
            if !map.contains(pos) || pos == origin || !in_beam_f32(origin, facing, pos) {
                continue;
            }
            for p in bresenham_line(origin, pos).into_iter().skip(1) {
                if !map.contains(p) {
                    break;
                }
                lit.insert(p);
                if map.tile(p) == TileType::Wall {
                    break;
                }
            }
        }
    }
    lit
}

#[test]
fn flashlight_matches_single_precision_beam() {
    let map = TileMap::new_static();
    for origin in [Position::new(5, 5), Position::new(27, 16), Position::new(1, 1), Position::new(53, 31)] {
        for facing in [Direction::North, Direction::South, Direction::West, Direction::East] {
            let lit = map.flashlight_tiles(origin, facing);
            let set: HashSet<Position> = lit.iter().copied().collect();
            assert_eq!(set.len(), lit.len(), "no tile twice");
            assert_eq!(set, reference_lit(&map, origin, facing));
        }
    }
}

#[test]
fn flashlight_lights_facing_direction_and_stops_at_walls() {
    // The prototype arena, the player at (5, 5) facing east.
    let map = TileMap::new_static();
    let lit = map.flashlight_tiles(Position::new(5, 5), Direction::East);
    assert!(lit.contains(&Position::new(8, 5)));
    assert!(!lit.contains(&Position::new(2, 5)));
    assert!(lit.contains(&Position::new(8, 8)));
    assert!(!lit.contains(&Position::new(8, 9)));
}

#[test]
fn flashlight_lights_a_lone_wall_but_not_behind_it() {
    let mut map = TileMap::new_filled(30, 20, TileType::Floor);
    map.set_tile(Position::new(9, 5), TileType::Wall);
    let lit = map.flashlight_tiles(Position::new(5, 5), Direction::East);
    assert!(lit.contains(&Position::new(5, 5)));
    assert!(lit.contains(&Position::new(8, 5)));
    assert!(lit.contains(&Position::new(9, 5)), "the wall itself is lit");
    assert!(!lit.contains(&Position::new(10, 5)), "nothing behind the wall");
    assert!(!lit.contains(&Position::new(2, 5)), "nothing behind the player");
}

#[test]
fn flashlight_off_map_lights_nothing() {
    let map = TileMap::new_filled(10, 10, TileType::Floor);
    assert!(map.flashlight_tiles(Position::new(-1, 3), Direction::East).is_empty());
}

#[test]
fn bresenham_endpoints_and_steps() {
    let line = bresenham_line(Position::new(0, 0), Position::new(4, 2));
    assert_eq!(
        line,
        vec![
            Position::new(0, 0),
            Position::new(1, 1),
            Position::new(2, 1),
            Position::new(3, 2),
            Position::new(4, 2)
        ]
    );
    assert_eq!(bresenham_line(Position::new(3, 3), Position::new(3, 3)), vec![Position::new(3, 3)]);
    let back = bresenham_line(Position::new(5, 1), Position::new(2, -2));
    assert_eq!(back.first(), Some(&Position::new(5, 1)));
    assert_eq!(back.last(), Some(&Position::new(2, -2)));
}

#[test]
fn extra_loops_match_single_precision_ceiling() {
    for r in 0..=190usize {
        let expected = ((r as f32) * 0.15).ceil() as usize;
        assert_eq!(extra_loop_count(r), expected, "r = {r}");
    }
    assert_eq!(extra_loop_count(100), 16);
    assert_eq!(extra_loop_count(20), 3);
}

#[test]
fn union_find_joins_sets() {
    let mut uf = UnionFind::new(5);
    assert!(uf.union(0, 1));
    assert!(uf.union(3, 4));
    assert!(!uf.union(1, 0));
    assert!(uf.union(1, 4));
    assert_eq!(uf.find(0), uf.find(3));
    assert_ne!(uf.find(2), uf.find(0));
}

#[test]
fn edges_sorted_by_weight_then_pair() {
    let centers = vec![Position::new(0, 0), Position::new(3, 0), Position::new(0, 3), Position::new(10, 10)];
    let edges = room_edges(&centers);
    let got: Vec<(usize, usize, i32)> = edges.iter().map(|e| (e.from, e.to, e.weight)).collect();
    assert_eq!(got, vec![(0, 1, 3), (0, 2, 3), (1, 2, 6), (1, 3, 17), (2, 3, 17), (0, 3, 20)]);
}

#[test]
fn kruskal_takes_a_spanning_tree() {
    let centers = vec![Position::new(0, 0), Position::new(3, 0), Position::new(0, 3), Position::new(10, 10)];
    let edges: Vec<MstEdge> = room_edges(&centers);
    let (tree, rest) = kruskal(4, &edges);
    assert_eq!(tree, vec![0, 1, 3]);
    assert_eq!(rest, vec![2, 4, 5]);
}

#[test]
fn farthest_room_along_tree() {
    let adj = vec![vec![1], vec![0, 2, 3], vec![1], vec![1, 4], vec![3]];
    assert_eq!(bfs_farthest(0, &adj), 4);
    let star = vec![vec![1, 2], vec![0], vec![0]];
    assert_eq!(bfs_farthest(0, &star), 2, "the last of equals");
    let alone = vec![vec![], vec![]];
    assert_eq!(bfs_farthest(0, &alone), 1, "unreached rooms count as distance zero");
}

#[test]
fn room_kinds_by_roll() {
    assert_eq!(room_kind_for_roll(0, 1), RoomType::Treasure);
    assert_eq!(room_kind_for_roll(29, 1), RoomType::Treasure);
    assert_eq!(room_kind_for_roll(30, 1), RoomType::Combat);
    assert_eq!(room_kind_for_roll(14, 2), RoomType::Boss);
    assert_eq!(room_kind_for_roll(44, 3), RoomType::Treasure);
    assert_eq!(room_kind_for_roll(24, 4), RoomType::Boss);
    assert_eq!(room_kind_for_roll(59, 0), RoomType::Treasure);
    assert_eq!(room_kind_for_roll(60, 9), RoomType::Combat);
}

#[test]
fn generated_levels_place_stairs() {
    for depth in 1..=5 {
        let out = TileMap::generate(55, 33, depth, 11 + depth as u64);
        assert_eq!(out.map.width(), 55);
        assert_eq!(out.map.height(), 33);
        assert_eq!(out.stairs_up, out.player_start);
        assert!(out.map.contains(out.player_start));
        assert_eq!(out.map.tile(out.stairs_down), TileType::StairsDown);
        if out.stairs_down != out.stairs_up {
            assert_eq!(out.map.tile(out.stairs_up), TileType::StairsUp);
        }
        if depth == 1 {
            assert!(out.boss_spawns.is_empty());
        }
        assert_eq!(find_stairs_down(&out.map).y <= out.stairs_down.y, true);
    }
}

#[test]
fn tiny_map_gets_the_fallback_room() {
    let out = TileMap::generate(3, 3, 2, 5);
    assert_eq!(out.player_start, Position::new(1, 1));
    assert_eq!(out.map.tile(Position::new(1, 1)), TileType::StairsDown);
}

#[test]
fn distance_field_on_open_floor() {
    let mut map = TileMap::new_filled(5, 5, TileType::Floor);
    map.set_tile(Position::new(2, 1), TileType::Wall);
    map.compute_dijkstra(Position::new(2, 0));
    assert_eq!(map.dijkstra_best_step(Position::new(2, 2)), Some(Position::new(3, 2)));
    let mut walled = TileMap::new_filled(3, 3, TileType::Wall);
    walled.compute_dijkstra(Position::new(1, 1));
    assert_eq!(walled.dijkstra_best_step(Position::new(0, 0)), None);
    let _ = UNREACHED;
}

#[test]
fn a_fresh_map_has_no_best_step() {
    let map = TileMap::new_filled(6, 4, TileType::Floor);
    for y in -1..5 {
        for x in -1..7 {
            assert!(map.dijkstra_best_step(Position::new(x, y)).is_none());
        }
    }
}
