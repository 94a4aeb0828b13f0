use xlyph::ai::{flee_step, random_step, step_toward};
use xlyph::entity::Position;
use xlyph::map::{TileMap, TileType};

fn pos(x: i32, y: i32) -> Position {
    Position::new(x, y)
}

#[test]
fn a_fleeing_creature_takes_the_first_tile_farther_away() {
    let map = TileMap::new_filled(10, 10, TileType::Floor);
    assert_eq!(flee_step(&map, pos(5, 5), pos(4, 5), pos(0, 0), &Vec::new()), Some(pos(5, 4)));
    // North taken: south is next.
    assert_eq!(flee_step(&map, pos(5, 5), pos(4, 5), pos(5, 4), &Vec::new()), Some(pos(5, 6)));
    // Cornered: nothing is farther.
    let walls = TileMap::new_filled(10, 10, TileType::Wall);
    assert_eq!(flee_step(&walls, pos(5, 5), pos(4, 5), pos(0, 0), &Vec::new()), None);
}

#[test]
fn a_wandering_creature_turns_with_the_clock() {
    let map = TileMap::new_filled(10, 10, TileType::Floor);
    assert_eq!(random_step(&map, pos(1, 1), 0, pos(9, 9), &Vec::new()), Some(pos(0, 1)));
    assert_eq!(random_step(&map, pos(1, 1), 1, pos(9, 9), &Vec::new()), Some(pos(2, 1)));
    assert_eq!(random_step(&map, pos(1, 1), 1, pos(9, 9), &vec![pos(2, 1)]), Some(pos(1, 0)));
}

#[test]
fn a_chasing_creature_follows_the_distance_field() {
    let mut map = TileMap::new_filled(10, 10, TileType::Floor);
    assert_eq!(step_toward(&mut map, pos(1, 1), pos(5, 1), &Vec::new()), Some(pos(2, 1)));
    assert_eq!(step_toward(&mut map, pos(1, 1), pos(5, 1), &vec![pos(2, 1)]), None);
    assert_eq!(step_toward(&mut map, pos(4, 1), pos(5, 1), &Vec::new()), None);
    assert_eq!(step_toward(&mut map, pos(5, 1), pos(5, 1), &Vec::new()), None);
}
