use xlyph::entity::{EntityKind, Position};
use xlyph::event_log::EventLog;
use xlyph::levels::{gauntlet_layout, tutorial_grid_layout};
use xlyph::map::{TileMap, TileType};
use xlyph::mechanics::{
    activate_pressure_plate, award_counting_room_key, counting_room_locked_door, gauntlet_barrier_evacuation_pos,
    shift_maze_walls, try_open_counting_room_door,
};

fn pos(x: i32, y: i32) -> Position {
    Position::new(x, y)
}

fn last_line(log: &EventLog) -> (String, Option<(u8, u8, u8)>) {
    let e = log.entries().last().unwrap();
    (e.text.clone(), e.color)
}

#[test]
fn locked_doors_of_the_counting_room() {
    assert!(counting_room_locked_door(pos(16, 12)));
    assert!(counting_room_locked_door(pos(28, 18)));
    assert!(!counting_room_locked_door(pos(16, 13)));
    assert!(!counting_room_locked_door(pos(22, 15)));
}

#[test]
fn pressure_plate_toggles_the_door() {
    let mut map = tutorial_grid_layout().map;
    let mut log = EventLog::new();
    // The door starts open.
    assert_eq!(map.tile(pos(35, 28)), TileType::Floor);
    activate_pressure_plate(2, pos(38, 28), &mut map, &mut log);
    assert_eq!(map.tile(pos(35, 28)), TileType::Wall);
    assert_eq!(map.tile(pos(35, 29)), TileType::Wall);
    assert_eq!(
        last_line(&log),
        ("Click. The door slides shut behind you.".to_string(), Some((0, 255, 0)))
    );
    activate_pressure_plate(2, pos(38, 28), &mut map, &mut log);
    assert_eq!(map.tile(pos(35, 28)), TileType::Floor);
    assert_eq!(map.tile(pos(35, 29)), TileType::Floor);
    assert_eq!(last_line(&log).0, "Click. The door opens.");
    // Elsewhere, or on another depth, nothing happens.
    activate_pressure_plate(3, pos(38, 28), &mut map, &mut log);
    activate_pressure_plate(2, pos(38, 27), &mut map, &mut log);
    assert_eq!(map.tile(pos(35, 28)), TileType::Floor);
    assert_eq!(log.entries().len(), 2);
}

#[test]
fn keys_open_counting_room_doors() {
    let mut map = TileMap::new_filled(55, 33, TileType::Wall);
    let mut log = EventLog::new();
    let mut keys: Vec<String> = Vec::new();
    assert!(try_open_counting_room_door(8, pos(16, 12), &mut keys, &mut map, &mut log));
    assert_eq!(map.tile(pos(16, 12)), TileType::Wall);
    assert_eq!(last_line(&log).1, Some((255, 255, 0)));
    award_counting_room_key(8, EntityKind::Goblin, &mut keys, &mut log);
    award_counting_room_key(8, EntityKind::Bat, &mut keys, &mut log);
    award_counting_room_key(7, EntityKind::Goblin, &mut keys, &mut log);
    award_counting_room_key(8, EntityKind::Goblin, &mut keys, &mut log);
    assert_eq!(keys, vec!["memory-key-1".to_string(), "memory-key-2".to_string()]);
    assert_eq!(
        last_line(&log),
        ("A memory-key clatters to the floor. You pick it up.".to_string(), Some((0, 255, 255)))
    );
    assert!(try_open_counting_room_door(8, pos(16, 12), &mut keys, &mut map, &mut log));
    assert_eq!(map.tile(pos(16, 12)), TileType::Floor);
    assert_eq!(keys, vec!["memory-key-1".to_string()]);
    assert!(!try_open_counting_room_door(8, pos(17, 12), &mut keys, &mut map, &mut log));
    assert!(!try_open_counting_room_door(9, pos(28, 12), &mut keys, &mut map, &mut log));
    assert_eq!(keys.len(), 1);
}

#[test]
fn at_most_three_memory_keys() {
    let mut log = EventLog::new();
    let mut keys: Vec<String> = Vec::new();
    for _ in 0..5 {
        award_counting_room_key(8, EntityKind::Goblin, &mut keys, &mut log);
    }
    assert_eq!(keys.len(), 3);
    assert_eq!(keys[2], "memory-key-3");
    assert_eq!(log.entries().len(), 3);
}

#[test]
fn barrier_evacuation_tries_nearest_first() {
    let map = gauntlet_layout().map;
    // One step west of the barrier at 13 is the open corridor.
    assert_eq!(gauntlet_barrier_evacuation_pos(&map, &vec![], 13, 16), Some(pos(12, 16)));
    // Taken tiles are passed over, west before east.
    assert_eq!(gauntlet_barrier_evacuation_pos(&map, &vec![pos(12, 16)], 13, 16), Some(pos(14, 16)));
    // Off the corridor row nothing is walkable.
    assert_eq!(gauntlet_barrier_evacuation_pos(&map, &vec![], 13, 10), None);
}

#[test]
fn maze_walls_shift_with_the_turn() {
    let mut map = TileMap::new_filled(5, 5, TileType::Floor);
    let mut log = EventLog::new();
    let mut frozen = false;
    let walls = vec![pos(1, 1), pos(2, 1), pos(3, 1)];
    let occupied = vec![pos(2, 1)];
    shift_maze_walls(10, 4, "", &walls, &occupied, &mut frozen, &mut map, &mut log);
    assert_eq!(map.tile(pos(1, 1)), TileType::Wall);
    assert_eq!(map.tile(pos(2, 1)), TileType::Floor);
    assert_eq!(map.tile(pos(3, 1)), TileType::Wall);
    shift_maze_walls(10, 5, "", &walls, &vec![], &mut frozen, &mut map, &mut log);
    assert_eq!(map.tile(pos(1, 1)), TileType::Floor);
    // Other depths leave the maze alone.
    shift_maze_walls(9, 6, "", &walls, &vec![], &mut frozen, &mut map, &mut log);
    assert_eq!(map.tile(pos(1, 1)), TileType::Floor);
    assert!(log.entries().is_empty());
}

#[test]
fn maze_freezes_when_asked_to_hold_still() {
    let mut map = TileMap::new_filled(5, 5, TileType::Floor);
    let mut log = EventLog::new();
    let walls = vec![pos(1, 1)];
    for text in ["  :still  ", "(x (quote :still))", "':still"] {
        let mut frozen = false;
        shift_maze_walls(10, 2, text, &walls, &vec![], &mut frozen, &mut map, &mut log);
        assert!(frozen);
        assert_eq!(map.tile(pos(1, 1)), TileType::Floor);
    }
    assert_eq!(
        last_line(&log),
        ("The walls shudder... and stop. The maze holds its breath.".to_string(), Some((0, 255, 255)))
    );
    // Once frozen, the walls stay put without another message.
    let mut frozen = true;
    shift_maze_walls(10, 2, "", &walls, &vec![], &mut frozen, &mut map, &mut log);
    assert_eq!(map.tile(pos(1, 1)), TileType::Floor);
    assert_eq!(log.entries().len(), 3);
    // ":still" with more around it is no request.
    let mut frozen = false;
    shift_maze_walls(10, 2, "still", &walls, &vec![], &mut frozen, &mut map, &mut log);
    assert!(!frozen);
    assert_eq!(map.tile(pos(1, 1)), TileType::Wall);
}
