use xlyph::entity::{EntityKind, Position};
use xlyph::levels::{generate_wizard_box, quiet_halls_layout, tutorial_grid_layout};
use xlyph::map::{TileMap, TileType};
use xlyph::population::{
    foyer_entities, level_entities, level_plan, quiet_halls_entities, tutorial_grid_entities, wizard_chamber_entities,
    wizard_spot, LevelPlan, FOYER_SIGN,
};

fn pos(x: i32, y: i32) -> Position {
    Position::new(x, y)
}

#[test]
fn the_foyer_has_its_sign_and_one_slime() {
    let es = foyer_entities();
    assert_eq!(es.len(), 2);
    assert_eq!((es[0].pos, es[0].kind, es[0].sign), (pos(21, 15), EntityKind::Sign, Some(FOYER_SIGN)));
    assert!(FOYER_SIGN.starts_with("If you're reading this, you\nfinally woke up."));
    assert_eq!((es[1].pos, es[1].kind), (pos(32, 12), EntityKind::Slime));
}

#[test]
fn the_wizard_appears_two_steps_east_in_his_chamber() {
    let gen = generate_wizard_box();
    let es = wizard_chamber_entities(&gen.map, gen.player_start);
    assert_eq!((es[0].pos, es[0].kind), (pos(17, 12), EntityKind::Wizard));
    assert_eq!((es[1].pos, es[1].kind), (pos(20, 9), EntityKind::Sign));
}

#[test]
fn the_wizard_skips_walls_and_occupied_tiles() {
    let mut map = TileMap::new_filled(10, 10, TileType::Floor);
    map.set_tile(pos(7, 5), TileType::Wall);
    assert_eq!(wizard_spot(&map, pos(5, 5), &vec![pos(3, 5)]), pos(5, 7));
    let walls = TileMap::new_filled(10, 10, TileType::Wall);
    assert_eq!(wizard_spot(&walls, pos(5, 5), &Vec::new()), pos(7, 5));
}

#[test]
fn the_tutorial_grid_fills_its_barrel_room() {
    let es = tutorial_grid_entities();
    let map = tutorial_grid_layout().map;
    assert_eq!(es.len(), 150);
    let barrels: Vec<Position> = es.iter().filter(|e| e.kind == EntityKind::Barrel).map(|e| e.pos).collect();
    assert_eq!(barrels.len(), 128);
    // The stairs down hide under the last barrel; the entrance is clear.
    assert_eq!(*barrels.last().unwrap(), pos(50, 27));
    assert_eq!(map.tile(pos(50, 27)), TileType::StairsDown);
    assert!(!barrels.contains(&pos(38, 28)));
    assert!(!barrels.contains(&pos(40, 31)));
    let frag = es.iter().find(|e| e.kind == EntityKind::Fragment).unwrap();
    assert_eq!((frag.pos, frag.fragment), (pos(50, 9), Some("frag-001")));
    let wizard = es.iter().find(|e| e.kind == EntityKind::Wizard).unwrap();
    assert_eq!(wizard.pos, pos(38, 6));
    assert_eq!(es.iter().filter(|e| e.kind == EntityKind::Sign).count(), 7);
    assert!(es.iter().any(|e| e.sign == Some("Nothing is wrong.")));
}

#[test]
fn the_quiet_halls_have_three_gates_and_three_memories() {
    let es = quiet_halls_entities();
    let map = quiet_halls_layout().map;
    assert_eq!(es.iter().filter(|e| e.kind == EntityKind::Barrel).count(), 9);
    let frags: Vec<&str> = es.iter().filter_map(|e| e.fragment).collect();
    assert_eq!(frags, vec!["frag-002", "frag-003", "frag-004"]);
    for e in &es {
        assert!(map.is_walkable(e.pos), "{:?} stands in a wall", e.pos);
    }
}

#[test]
fn depths_map_to_their_levels() {
    assert_eq!(level_plan(0), LevelPlan::Foyer);
    assert_eq!(level_plan(2), LevelPlan::TutorialGrid);
    assert_eq!(level_plan(10), LevelPlan::MazeOfRegret);
    assert_eq!(level_plan(17), LevelPlan::Core);
    assert_eq!(level_plan(18), LevelPlan::Procedural);
    let map = TileMap::new_filled(4, 4, TileType::Floor);
    assert!(level_entities(LevelPlan::Procedural, &map, pos(1, 1)).is_none());
    assert_eq!(level_entities(LevelPlan::Foyer, &map, pos(1, 1)).unwrap().len(), 2);
}
