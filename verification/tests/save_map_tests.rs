use xlyph::entity::Position;
use xlyph::map::{TileMap, TileType};
use xlyph::save::{
    decode_map_tiles, encode_map_tiles, tile_from_char, tile_to_char, tile_type_from_string, tile_type_to_string,
};

const ALL_TILES: [TileType; 7] = [
    TileType::Floor,
    TileType::Wall,
    TileType::StairsDown,
    TileType::StairsUp,
    TileType::Fire,
    TileType::Lamp,
    TileType::PressurePlate,
];

#[test]
fn tile_names_as_saved() {
    assert_eq!(tile_type_to_string(TileType::Floor), "floor");
    assert_eq!(tile_type_to_string(TileType::StairsDown), "stairs_down");
    assert_eq!(tile_type_to_string(TileType::PressurePlate), "pressure_plate");
    assert_eq!(tile_type_from_string("lamp"), TileType::Lamp);
    assert_eq!(tile_type_from_string("fire"), TileType::Fire);
    // Unknown spellings read as floor.
    assert_eq!(tile_type_from_string("lava"), TileType::Floor);
    assert_eq!(tile_type_from_string(""), TileType::Floor);
}

#[test]
fn tile_names_round_trip() {
    for t in ALL_TILES {
        assert_eq!(tile_type_from_string(&tile_type_to_string(t)), t);
    }
}

#[test]
fn tile_chars_as_saved() {
    let chars: Vec<char> = ALL_TILES.iter().map(|t| tile_to_char(*t)).collect();
    assert_eq!(chars, vec!['F', 'W', 'D', 'U', '^', 'L', 'P']);
    assert_eq!(tile_from_char('?'), TileType::Floor);
    for t in ALL_TILES {
        assert_eq!(tile_from_char(tile_to_char(t)), t);
    }
}

#[test]
fn map_tiles_stored_row_major() {
    let mut map = TileMap::new_filled(3, 2, TileType::Wall);
    map.set_tile(Position::new(1, 0), TileType::Floor);
    map.set_tile(Position::new(2, 1), TileType::StairsDown);
    assert_eq!(encode_map_tiles(&map), vec!['W', 'F', 'W', 'W', 'W', 'D']);
}

#[test]
fn map_tiles_round_trip() {
    let mut map = TileMap::new_filled(4, 3, TileType::Floor);
    for (i, t) in ALL_TILES.iter().enumerate() {
        let i = i as i32;
        map.set_tile(Position::new(i % 4, i / 4), *t);
    }
    let back = decode_map_tiles(4, 3, &encode_map_tiles(&map));
    assert_eq!(back.width(), 4);
    assert_eq!(back.height(), 3);
    for y in 0..3 {
        for x in 0..4 {
            let p = Position::new(x, y);
            assert_eq!(back.tile(p), map.tile(p));
        }
    }
}

#[test]
fn short_or_long_tile_lists_load() {
    // Missing characters leave floor; extra ones are ignored.
    let short = decode_map_tiles(2, 2, &vec!['W']);
    assert_eq!(short.tile(Position::new(0, 0)), TileType::Wall);
    assert_eq!(short.tile(Position::new(1, 1)), TileType::Floor);
    let long = decode_map_tiles(1, 2, &vec!['W', 'U', 'W', 'W']);
    assert_eq!(long.tile(Position::new(0, 0)), TileType::Wall);
    assert_eq!(long.tile(Position::new(0, 1)), TileType::StairsUp);
}
