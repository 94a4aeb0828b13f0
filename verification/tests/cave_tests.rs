use xlyph::cave::{floor_adjacency, largest_floor_region, lay_out_cave, nearest_open_floor, pick_spawns, smooth_once};
use xlyph::entity::Position;
use xlyph::map::{TileMap, TileType, MAP_HEIGHT, MAP_WIDTH};

fn pos(x: i32, y: i32) -> Position {
    Position::new(x, y)
}

/// A map of `w` by `h` with walls all around and the inside open.
fn open_box(w: i32, h: i32) -> TileMap {
    let mut map = TileMap::new_filled(w, h, TileType::Wall);
    for y in 1..h - 1 {
        for x in 1..w - 1 {
            map.set_tile(pos(x, y), TileType::Floor);
        }
    }
    map
}

fn is_border(map: &TileMap, p: Position) -> bool {
    p.x == 0 || p.y == 0 || p.x == map.width() - 1 || p.y == map.height() - 1
}

fn assert_walled_border(map: &TileMap) {
    for y in 0..map.height() {
        for x in 0..map.width() {
            let p = pos(x, y);
            if is_border(map, p) {
                assert_eq!(map.tile(p), TileType::Wall, "border tile {:?}", p);
            }
        }
    }
}

#[test]
fn spawns_taken_in_order_five_apart_up_to_count() {
    let candidates = vec![pos(0, 0), pos(1, 0), pos(10, 0), pos(20, 0), pos(12, 0)];
    let swaps = vec![0, 1, 2, 3, 4];
    let spawns = pick_spawns(&candidates, &swaps, 3);
    assert_eq!(spawns, vec![pos(0, 0), pos(10, 0), pos(20, 0)]);
}

#[test]
fn spawns_follow_the_swaps() {
    let candidates = vec![pos(0, 0), pos(1, 0), pos(10, 0), pos(20, 0), pos(12, 0)];
    // The first swap exchanges the first and last candidates; the rest keep
    // their places.
    let swaps = vec![4, 1, 2, 3, 4];
    let spawns = pick_spawns(&candidates, &swaps, 10);
    assert_eq!(spawns, vec![pos(12, 0), pos(1, 0), pos(20, 0)]);
}

#[test]
fn no_spawns_when_none_asked() {
    let candidates = vec![pos(0, 0), pos(10, 0)];
    let swaps = vec![1, 0];
    assert!(pick_spawns(&candidates, &swaps, 0).is_empty());
}

#[test]
fn smoothing_closes_the_corners_of_an_open_box() {
    let map = open_box(10, 10);
    let next = smooth_once(&map);
    // A corner floor tile has five walls around it and closes up.
    assert_eq!(next.tile(pos(1, 1)), TileType::Wall);
    assert_eq!(next.tile(pos(8, 8)), TileType::Wall);
    // Edge tiles have three walls around them and stay open.
    assert_eq!(next.tile(pos(2, 1)), TileType::Floor);
    assert_eq!(next.tile(pos(5, 5)), TileType::Floor);
    assert_walled_border(&next);
}

#[test]
fn smoothing_opens_a_lone_inner_wall() {
    let mut map = open_box(10, 10);
    map.set_tile(pos(5, 5), TileType::Wall);
    let next = smooth_once(&map);
    assert_eq!(next.tile(pos(5, 5)), TileType::Floor);
}

#[test]
fn open_box_cave_starts_in_the_middle() {
    let layout = lay_out_cave(open_box(10, 10));
    assert_eq!(layout.player_start, pos(5, 5));
    assert_eq!(layout.map.tile(pos(5, 5)), TileType::StairsUp);
    // The farthest reachable tiles from the middle lie next to the closed
    // top-left corner, seven steps away.
    assert!(layout.stairs_down == pos(1, 2) || layout.stairs_down == pos(2, 1));
    assert_eq!(layout.map.tile(layout.stairs_down), TileType::StairsDown);
    // No tile is eight steps from the start.
    assert!(layout.candidates.is_empty());
    assert_walled_border(&layout.map);
}

#[test]
fn empty_noise_falls_back_to_a_fixed_start() {
    let layout = lay_out_cave(TileMap::new_filled(10, 10, TileType::Wall));
    assert_eq!(layout.player_start, pos(2, 2));
    assert_eq!(layout.stairs_down, pos(2, 2));
    assert_eq!(layout.map.tile(pos(2, 2)), TileType::StairsDown);
    assert!(layout.candidates.is_empty());
}

#[test]
fn only_the_largest_region_is_kept() {
    // Two open rooms split by a thick wall: the left one is larger.
    let mut map = TileMap::new_filled(24, 10, TileType::Wall);
    for y in 1..9 {
        for x in 1..12 {
            map.set_tile(pos(x, y), TileType::Floor);
        }
        for x in 17..23 {
            map.set_tile(pos(x, y), TileType::Floor);
        }
    }
    let layout = lay_out_cave(map);
    for y in 0..10 {
        for x in 17..24 {
            assert_eq!(layout.map.tile(pos(x, y)), TileType::Wall, "right room tile ({}, {})", x, y);
        }
    }
    let start = layout.player_start;
    assert!(start.x < 12);
    assert_eq!(layout.map.tile(start), TileType::StairsUp);
    // Candidates lie in the kept room, at least eight steps from the start,
    // in row-major order.
    assert!(!layout.candidates.is_empty());
    for c in &layout.candidates {
        assert!(c.x < 12);
        assert!(c.manhattan_distance(start) >= 8);
        let t = layout.map.tile(*c);
        assert!(t == TileType::Floor || t == TileType::StairsDown);
    }
    for pair in layout.candidates.windows(2) {
        assert!((pair[0].y, pair[0].x) < (pair[1].y, pair[1].x));
    }
}

#[test]
fn generated_caves_keep_their_promises() {
    for depth in [1u32, 3, 6] {
        let out = TileMap::generate_cave(depth, 7 + depth as u64);
        let map = &out.map;
        assert_eq!(map.width(), MAP_WIDTH);
        assert_eq!(map.height(), MAP_HEIGHT);
        assert_walled_border(map);
        assert_eq!(out.stairs_up, out.player_start);
        assert_eq!(map.tile(out.stairs_down), TileType::StairsDown);
        if out.stairs_up != out.stairs_down {
            assert_eq!(map.tile(out.stairs_up), TileType::StairsUp);
        }
        assert!(out.combat_spawns.len() <= depth as usize + 1);
        for (i, s) in out.combat_spawns.iter().enumerate() {
            assert!(s.manhattan_distance(out.player_start) >= 8);
            let t = map.tile(*s);
            assert!(t == TileType::Floor || t == TileType::StairsDown);
            for other in &out.combat_spawns[i + 1..] {
                assert!(s.manhattan_distance(*other) >= 5);
            }
        }
        assert!(out.boss_spawns.is_empty());
        let center = pos(MAP_WIDTH / 2, MAP_HEIGHT / 2);
        let nearest = out.player_start.manhattan_distance(center);
        for y in 0..MAP_HEIGHT {
            for x in 0..MAP_WIDTH {
                if map.tile(pos(x, y)) == TileType::Floor {
                    assert!(pos(x, y).manhattan_distance(center) >= nearest);
                }
            }
        }
    }
}

#[test]
fn open_floor_near_a_wall_target() {
    let mut map = TileMap::new_filled(12, 10, TileType::Wall);
    map.set_tile(pos(7, 5), TileType::Floor);
    assert_eq!(nearest_open_floor(&map, &vec![], pos(4, 5)), Some(pos(7, 5)));
    // An entity on the only open tile leaves nothing.
    assert_eq!(nearest_open_floor(&map, &vec![pos(7, 5)], pos(4, 5)), None);
    // An empty map has no tile at all.
    let empty = TileMap::new_filled(0, 0, TileType::Floor);
    assert_eq!(nearest_open_floor(&empty, &vec![], pos(0, 0)), None);
}

#[test]
fn open_floor_search_starts_on_the_map() {
    let map = TileMap::new_filled(12, 10, TileType::Floor);
    assert_eq!(nearest_open_floor(&map, &vec![], pos(-5, 100)), Some(pos(0, 9)));
    assert_eq!(nearest_open_floor(&map, &vec![pos(3, 3)], pos(3, 3)), Some(pos(3, 2)));
}

#[test]
fn open_floor_ties_go_north_east_south_west() {
    let mut map = TileMap::new_filled(12, 10, TileType::Wall);
    map.set_tile(pos(5, 4), TileType::Floor);
    map.set_tile(pos(6, 5), TileType::Floor);
    assert_eq!(nearest_open_floor(&map, &vec![], pos(5, 5)), Some(pos(5, 4)));
    let mut map = TileMap::new_filled(12, 10, TileType::Wall);
    map.set_tile(pos(6, 5), TileType::Floor);
    map.set_tile(pos(5, 6), TileType::Floor);
    assert_eq!(nearest_open_floor(&map, &vec![], pos(5, 5)), Some(pos(6, 5)));
}

fn walled(w: i32, h: i32, floors: &[(i32, i32)]) -> TileMap {
    let mut m = TileMap::new_filled(w, h, TileType::Wall);
    for &(x, y) in floors {
        m.set_tile(pos(x, y), TileType::Floor);
    }
    m
}

#[test]
fn of_equal_regions_the_first_found_is_kept() {
    // Two regions of three tiles: one on row 1, one on row 3.
    let m = walled(8, 5, &[(4, 1), (5, 1), (6, 1), (1, 3), (2, 3), (3, 3)]);
    let adj = floor_adjacency(&m);
    let (mask, count) = largest_floor_region(&m, &adj);
    assert_eq!(count, 3);
    let idx = |x: i32, y: i32| (y * 8 + x) as usize;
    assert!(mask[idx(4, 1)] && mask[idx(5, 1)] && mask[idx(6, 1)]);
    assert!(!mask[idx(1, 3)] && !mask[idx(2, 3)] && !mask[idx(3, 3)]);
}

#[test]
fn a_larger_later_region_wins() {
    let m = walled(8, 5, &[(4, 1), (5, 1), (1, 3), (2, 3), (3, 3)]);
    let adj = floor_adjacency(&m);
    let (mask, count) = largest_floor_region(&m, &adj);
    assert_eq!(count, 3);
    let idx = |x: i32, y: i32| (y * 8 + x) as usize;
    assert!(!mask[idx(4, 1)] && !mask[idx(5, 1)]);
    assert!(mask[idx(1, 3)] && mask[idx(2, 3)] && mask[idx(3, 3)]);
}
