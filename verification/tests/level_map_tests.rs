use xlyph::entity::Position;
use xlyph::levels::{
    boiling_heart_layout, counting_room_layout, descent_layout, foyer_layout, gauntlet_layout, level_seed, offer_layout,
    maze_of_regret_layout, procedural_layout, quiet_halls_layout, scale_layout, tutorial_grid_layout,
};
use xlyph::map::{MapGenOutput, TileMap, TileType, MAP_HEIGHT, MAP_WIDTH};

fn pos(x: i32, y: i32) -> Position {
    Position::new(x, y)
}

fn tile(out: &MapGenOutput, x: i32, y: i32) -> TileType {
    out.map.tile(pos(x, y))
}

fn count(out: &MapGenOutput, t: TileType) -> usize {
    let mut n = 0;
    for y in 0..MAP_HEIGHT {
        for x in 0..MAP_WIDTH {
            if tile(out, x, y) == t {
                n += 1;
            }
        }
    }
    n
}

fn assert_standard(out: &MapGenOutput) {
    assert_eq!(out.map.width(), MAP_WIDTH);
    assert_eq!(out.map.height(), MAP_HEIGHT);
    assert_eq!(out.stairs_up, out.player_start);
    assert_eq!(out.map.tile(out.player_start), TileType::StairsUp);
    assert_eq!(out.map.tile(out.stairs_down), TileType::StairsDown);
    assert_eq!(count(out, TileType::StairsUp), 1);
    assert_eq!(count(out, TileType::StairsDown), 1);
    assert!(out.combat_spawns.is_empty());
    assert!(out.boss_spawns.is_empty());
}

#[test]
fn foyer_is_one_room() {
    let out = foyer_layout();
    assert_standard(&out);
    assert_eq!(out.player_start, pos(17, 11));
    assert_eq!(out.stairs_down, pos(37, 21));
    // 25 by 15 open tiles, two of them stairs.
    assert_eq!(count(&out, TileType::Floor), 25 * 15 - 2);
    assert_eq!(tile(&out, 15, 9), TileType::Floor);
    assert_eq!(tile(&out, 39, 23), TileType::Floor);
    assert_eq!(tile(&out, 14, 9), TileType::Wall);
    assert_eq!(tile(&out, 40, 23), TileType::Wall);
}

#[test]
fn tutorial_grid_rooms_doors_and_plate() {
    let out = tutorial_grid_layout();
    assert_standard(&out);
    assert_eq!(out.player_start, pos(4, 4));
    assert_eq!(out.stairs_down, pos(50, 27));
    assert_eq!(tile(&out, 38, 28), TileType::PressurePlate);
    // Doors between the rooms of a row, two tiles high.
    assert_eq!(tile(&out, 18, 6), TileType::Floor);
    assert_eq!(tile(&out, 18, 7), TileType::Floor);
    assert_eq!(tile(&out, 18, 8), TileType::Wall);
    assert_eq!(tile(&out, 35, 28), TileType::Floor);
    // Doors between rows only below the third and the fourth room.
    assert_eq!(tile(&out, 43, 11), TileType::Floor);
    assert_eq!(tile(&out, 44, 12), TileType::Floor);
    assert_eq!(tile(&out, 9, 22), TileType::Floor);
    assert_eq!(tile(&out, 26, 11), TileType::Wall);
    // Nine rooms of 16 by 9, six row doors of two tiles and two doors of
    // four (the lower one reaching two tiles into the room below it), less
    // the stairs and the plate.
    assert_eq!(count(&out, TileType::Floor), 9 * 16 * 9 + 6 * 2 + 2 * 4 - 2 - 3);
}

#[test]
fn quiet_halls_gates_and_teeth() {
    let out = quiet_halls_layout();
    assert_standard(&out);
    assert_eq!(out.player_start, pos(5, 10));
    assert_eq!(out.stairs_down, pos(48, 29));
    // Each wall across the cave has a three-tile opening.
    assert_eq!(tile(&out, 16, 9), TileType::Wall);
    assert_eq!(tile(&out, 16, 10), TileType::Floor);
    assert_eq!(tile(&out, 16, 12), TileType::Floor);
    assert_eq!(tile(&out, 16, 13), TileType::Wall);
    assert_eq!(tile(&out, 45, 20), TileType::Wall);
    assert_eq!(tile(&out, 47, 20), TileType::Floor);
    // A rock tooth in the entrance hollow.
    assert_eq!(tile(&out, 8, 8), TileType::Wall);
    assert_eq!(tile(&out, 9, 9), TileType::Wall);
    assert_eq!(tile(&out, 10, 9), TileType::Floor);
    // Outside every chamber.
    assert_eq!(tile(&out, 1, 1), TileType::Wall);
}

#[test]
fn gauntlet_corridor_and_barriers() {
    let out = gauntlet_layout();
    assert_standard(&out);
    assert_eq!(out.player_start, pos(3, 16));
    assert_eq!(out.stairs_down, pos(52, 16));
    assert_eq!(tile(&out, 2, 16), TileType::Floor);
    assert_eq!(tile(&out, 1, 16), TileType::Wall);
    assert_eq!(tile(&out, 7, 14), TileType::Floor);
    assert_eq!(tile(&out, 7, 18), TileType::Floor);
    assert_eq!(tile(&out, 7, 19), TileType::Wall);
    assert_eq!(tile(&out, 8, 14), TileType::Wall);
    assert_eq!(tile(&out, 5, 15), TileType::Floor);
    // The corridor, eight crossings of four more tiles, the wizard's tile,
    // less the stairs.
    assert_eq!(count(&out, TileType::Floor), 51 + 8 * 4 + 1 - 2);
}

#[test]
fn counting_room_hub_doors_and_posts() {
    let out = counting_room_layout();
    assert_standard(&out);
    assert_eq!(out.player_start, pos(22, 15));
    assert_eq!(out.stairs_down, pos(22, 18));
    assert_eq!(tile(&out, 19, 12), TileType::Floor);
    assert_eq!(tile(&out, 16, 12), TileType::Wall);
    assert_eq!(tile(&out, 28, 18), TileType::Wall);
    assert_eq!(tile(&out, 16, 11), TileType::Floor);
    assert_eq!(tile(&out, 16, 10), TileType::Floor);
    assert_eq!(tile(&out, 16, 9), TileType::Wall);
    assert_eq!(tile(&out, 17, 15), TileType::Floor);
    assert_eq!(tile(&out, 6, 3), TileType::Floor);
    assert_eq!(tile(&out, 37, 26), TileType::Floor);
}

#[test]
fn boiling_heart_fire_and_pillars() {
    let out = boiling_heart_layout();
    assert_standard(&out);
    assert_eq!(out.player_start, pos(9, 16));
    assert_eq!(out.stairs_down, pos(46, 16));
    assert_eq!(count(&out, TileType::Fire), 16);
    assert_eq!(tile(&out, 14, 8), TileType::Fire);
    assert_eq!(tile(&out, 39, 21), TileType::Fire);
    assert_eq!(tile(&out, 22, 16), TileType::Wall);
    assert_eq!(tile(&out, 35, 13), TileType::Wall);
    assert_eq!(count(&out, TileType::Floor), 41 * 25 - 16 - 16 - 2);
}

#[test]
fn scale_hall_and_side_rooms() {
    let out = scale_layout();
    assert_standard(&out);
    assert_eq!(out.player_start, pos(24, 18));
    assert_eq!(out.stairs_down, pos(30, 14));
    assert_eq!(tile(&out, 7, 13), TileType::Floor);
    assert_eq!(tile(&out, 7, 19), TileType::Wall);
    assert_eq!(tile(&out, 15, 16), TileType::Floor);
    assert_eq!(tile(&out, 15, 15), TileType::Wall);
    assert_eq!(tile(&out, 46, 18), TileType::Floor);
    assert_eq!(tile(&out, 22, 13), TileType::Floor);
    assert_eq!(tile(&out, 33, 16), TileType::Floor);
}

#[test]
fn offer_hall_arms_and_chambers() {
    let out = offer_layout();
    assert_standard(&out);
    assert_eq!(out.player_start, pos(27, 18));
    assert_eq!(out.stairs_down, pos(27, 15));
    assert_eq!(tile(&out, 12, 16), TileType::Floor);
    assert_eq!(tile(&out, 12, 14), TileType::Floor);
    // The west arm ends below the west chamber and turns up into it.
    assert_eq!(tile(&out, 11, 16), TileType::Wall);
    assert_eq!(tile(&out, 12, 13), TileType::Floor);
    assert_eq!(tile(&out, 24, 22), TileType::Floor);
    assert_eq!(tile(&out, 16, 22), TileType::Floor);
    assert_eq!(tile(&out, 23, 20), TileType::Wall);
    assert_eq!(tile(&out, 4, 6), TileType::Wall);
}

#[test]
fn procedural_depths_alternate() {
    for depth in [2u32, 3, 4, 5] {
        let out = procedural_layout(depth, 42);
        assert_eq!(out.map.width(), 80);
        assert_eq!(out.map.height(), 50);
        assert_eq!(out.stairs_up, out.player_start);
        assert_eq!(out.map.tile(out.stairs_down), TileType::StairsDown);
        if depth % 2 == 0 {
            assert!(out.boss_spawns.is_empty());
            assert!(out.combat_spawns.len() <= depth as usize + 1);
        }
    }
}

#[test]
fn level_seeds_mix_run_seed_and_depth() {
    assert_eq!(level_seed(0, 0), 0);
    assert_eq!(level_seed(0, 1), 16294208416658607535);
    assert_eq!(level_seed(12345, 4), 3248800117070709450);
    assert_eq!(level_seed(u64::MAX, 7), 17388166129998380965);
    // The same run seed and depth always give the same seed.
    assert_eq!(level_seed(99, 3), level_seed(99, 3));
    assert_ne!(level_seed(99, 3), level_seed(99, 4));
}

#[test]
fn descent_spirals_out_from_the_middle() {
    let out = descent_layout();
    assert_standard(&out);
    assert_eq!(out.player_start, pos(27, 16));
    assert_eq!(out.stairs_down, pos(27, 18));
    // Eight hundred steps, each opening the walker's tile and the one east
    // of it, wind into one solid block.
    assert_eq!(count(&out, TileType::Floor), 826);
    assert_eq!(tile(&out, 13, 15), TileType::Floor);
    assert_eq!(tile(&out, 13, 14), TileType::Wall);
    assert_eq!(tile(&out, 14, 3), TileType::Floor);
    assert_eq!(tile(&out, 42, 3), TileType::Floor);
    assert_eq!(tile(&out, 43, 3), TileType::Wall);
    assert_eq!(tile(&out, 42, 30), TileType::Floor);
    assert_eq!(tile(&out, 42, 31), TileType::Wall);
}

fn tile_fingerprint(out: &MapGenOutput) -> Vec<TileType> {
    let mut tiles = Vec::new();
    for y in 0..out.map.height() {
        for x in 0..out.map.width() {
            tiles.push(out.map.tile(pos(x, y)));
        }
    }
    tiles
}

#[test]
fn same_run_seed_reproduces_generated_levels() {
    // 4 = room gen, 5 = cave gen, 10 = room gen + shifting walls,
    // 18 = procedural fallback.
    for depth in [4u32, 5, 10, 18] {
        let build = |seed: u64| -> (MapGenOutput, Vec<Position>) {
            match depth {
                4 => (TileMap::generate(MAP_WIDTH, MAP_HEIGHT, 4, level_seed(seed, 4)), Vec::new()),
                5 => (TileMap::generate_cave(5, level_seed(seed, 5)), Vec::new()),
                10 => maze_of_regret_layout(seed, 0),
                _ => (procedural_layout(depth, seed), Vec::new()),
            }
        };
        let (a, wa) = build(0xDECAF);
        let (b, wb) = build(0xDECAF);
        let (c, _) = build(0xC0FFEE);
        assert_eq!(tile_fingerprint(&a), tile_fingerprint(&b), "depth {}: same seed produced different maps", depth);
        assert_eq!(wa, wb, "depth {}: same seed produced different shifting walls", depth);
        assert_ne!(tile_fingerprint(&a), tile_fingerprint(&c), "depth {}: map generation ignores the seed", depth);
    }
}
