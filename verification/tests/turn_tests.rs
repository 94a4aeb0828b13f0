use xlyph::console::ConsoleInput;
use xlyph::entity::{Direction, EntityKind, Position};
use xlyph::event_log::EventLog;
use xlyph::fragment::{all_fragments, FragmentRegistry, FragmentStatus, FRAGMENT_TEXTS};
use xlyph::game::{ActionCost, Intent, Mode, ScrollState};
use xlyph::interface::{apply_interface_intent, InterfaceAction, InterfaceState};
use xlyph::map::{TileMap, TileType};
use xlyph::movement::{player_step, StepOutcome};
use xlyph::rules::RuleRegistry;
use xlyph::save::{encode_map_tiles, restore_state, save_record as save_record_of, EntitySnapshot, SaveRecord, SavedLine};

fn pos(x: i32, y: i32) -> Position {
    Position::new(x, y)
}

#[test]
fn helpless_player_bump_shoves_for_free() {
    let map = TileMap::new_static();
    let es = vec![(pos(6, 5), EntityKind::Slime)];
    assert_eq!(
        player_step(&map, pos(5, 5), &es, false, 3, 0, Direction::East),
        (StepOutcome::Shove(0, pos(7, 5)), ActionCost::Free)
    );
    // A wall behind the slime keeps it in place.
    let es = vec![(pos(1, 5), EntityKind::Slime)];
    assert_eq!(
        player_step(&map, pos(2, 5), &es, false, 3, 0, Direction::West),
        (StepOutcome::ShoveBlocked(0), ActionCost::Free)
    );
    // Another entity behind it does too.
    let es = vec![(pos(6, 5), EntityKind::Slime), (pos(7, 5), EntityKind::Goblin)];
    assert_eq!(
        player_step(&map, pos(5, 5), &es, false, 3, 0, Direction::East),
        (StepOutcome::ShoveBlocked(0), ActionCost::Free)
    );
}

#[test]
fn armed_player_strikes_for_a_tick() {
    let map = TileMap::new_static();
    let es = vec![(pos(6, 5), EntityKind::Slime)];
    assert_eq!(
        player_step(&map, pos(5, 5), &es, true, 3, 0, Direction::East),
        (StepOutcome::Strike(0), ActionCost::Tick)
    );
}

#[test]
fn walls_doors_and_moves_take_a_tick() {
    let map = TileMap::new_static();
    let none: Vec<(Position, EntityKind)> = Vec::new();
    assert_eq!(player_step(&map, pos(1, 1), &none, true, 3, 0, Direction::West), (StepOutcome::Bump, ActionCost::Tick));
    assert_eq!(
        player_step(&map, pos(5, 5), &none, true, 3, 0, Direction::South),
        (StepOutcome::MoveTo(pos(5, 6)), ActionCost::Tick)
    );
    let mut room = TileMap::new_filled(40, 30, TileType::Floor);
    room.set_tile(pos(16, 12), TileType::Wall);
    assert_eq!(
        player_step(&room, pos(15, 12), &none, true, 8, 1, Direction::East),
        (StepOutcome::OpenDoor, ActionCost::Tick)
    );
    assert_eq!(
        player_step(&room, pos(15, 12), &none, true, 8, 0, Direction::East),
        (StepOutcome::LockedDoor, ActionCost::Tick)
    );
    assert_eq!(player_step(&room, pos(15, 12), &none, true, 7, 1, Direction::East), (StepOutcome::Bump, ActionCost::Tick));
}

#[test]
fn pickups_are_free_and_talking_takes_a_tick() {
    let map = TileMap::new_static();
    let step = |kind: EntityKind| player_step(&map, pos(5, 5), &vec![(pos(5, 4), kind)], true, 3, 0, Direction::North);
    assert_eq!(step(EntityKind::Fragment), (StepOutcome::Fragment(0), ActionCost::Free));
    assert_eq!(step(EntityKind::ShadeEcho), (StepOutcome::PickUp(0), ActionCost::Free));
    assert_eq!(step(EntityKind::VaporCanteen), (StepOutcome::PickUp(0), ActionCost::Free));
    assert_eq!(step(EntityKind::Wizard), (StepOutcome::Wizard(0), ActionCost::Tick));
    assert_eq!(step(EntityKind::Sign), (StepOutcome::Sign(0), ActionCost::Tick));
    assert_eq!(step(EntityKind::Barrel), (StepOutcome::Barrel(0), ActionCost::Tick));
}

fn interface(mode: Mode) -> InterfaceState {
    InterfaceState {
        turn: 9,
        view: ScrollState {
            mode,
            inspector_selection: 0,
            sign_scroll: 0,
            memory_scroll: 0,
            console_output_scroll: 0,
            event_log_scroll: 0,
        },
        console: ConsoleInput::new(vec!["(help)".to_string()]),
        rule_count: 4,
        new_rule_ids: vec!["slime-hunt".to_string()],
        new_binding_keys: vec!["m".to_string()],
        has_new_bindings: true,
        confirming_quit: true,
    }
}

#[test]
fn interface_intents_are_free_and_keep_the_turn() {
    let mut st = interface(Mode::Normal);
    assert_eq!(apply_interface_intent(&mut st, &Intent::ToggleConsole), (ActionCost::Free, InterfaceAction::Nothing));
    assert_eq!(st.view.mode, Mode::Console);
    assert!(!st.confirming_quit);
    for ch in "(+ 1 2)".chars() {
        apply_interface_intent(&mut st, &Intent::ConsoleInput(ch));
    }
    assert_eq!(st.console.text(), "(+ 1 2)");
    apply_interface_intent(&mut st, &Intent::ConsoleBackspace);
    assert_eq!(st.console.text(), "(+ 1 2");
    let (cost, action) = apply_interface_intent(&mut st, &Intent::ConsoleSubmit);
    assert_eq!(cost, ActionCost::Free);
    assert_eq!(action, InterfaceAction::Submit("(+ 1 2".to_string()));
    // The line is emptied once submitted.
    assert_eq!(st.console.text(), "");
    assert_eq!(st.console.cursor(), 0);
    assert_eq!(apply_interface_intent(&mut st, &Intent::SaveGame(2)).1, InterfaceAction::Save(2));
    assert_eq!(st.turn, 9);
}

#[test]
fn typing_outside_the_console_does_nothing() {
    let mut st = interface(Mode::Normal);
    apply_interface_intent(&mut st, &Intent::ConsoleInput('x'));
    assert_eq!(st.console.text(), "");
    assert_eq!(apply_interface_intent(&mut st, &Intent::ConsoleSubmit).1, InterfaceAction::Nothing);
}

#[test]
fn closing_overlays_clears_what_they_marked_new() {
    let mut st = interface(Mode::Inspector);
    apply_interface_intent(&mut st, &Intent::InspectorScroll(2));
    assert_eq!(st.view.inspector_selection, 2);
    apply_interface_intent(&mut st, &Intent::CloseOverlay);
    assert_eq!(st.view.mode, Mode::Normal);
    assert!(st.new_rule_ids.is_empty());
    assert_eq!(st.new_binding_keys, vec!["m".to_string()]);

    let mut st = interface(Mode::Normal);
    apply_interface_intent(&mut st, &Intent::ToggleKeybindings);
    assert_eq!(st.view.mode, Mode::Keybindings);
    assert!(!st.has_new_bindings);
    apply_interface_intent(&mut st, &Intent::CloseOverlay);
    assert!(st.new_binding_keys.is_empty());
    assert_eq!(st.new_rule_ids, vec!["slime-hunt".to_string()]);
}

#[test]
fn history_browsing_keeps_the_draft() {
    let mut st = interface(Mode::Console);
    apply_interface_intent(&mut st, &Intent::ConsoleInput('a'));
    apply_interface_intent(&mut st, &Intent::ConsoleHistory(-1));
    assert_eq!(st.console.text(), "(help)");
    apply_interface_intent(&mut st, &Intent::ConsoleHistory(1));
    assert_eq!(st.console.text(), "a");
}

fn save_record() -> SaveRecord {
    SaveRecord {
        version: 1,
        depth: 3,
        turn: 41,
        player_id_raw: 0,
        player_facing: "west".to_string(),
        player_can_attack: false,
        wizard_taught: true,
        wizard_id_raw: Some(7),
        cheat_unlocked: true,
        blocking: true,
        map_width: 2,
        map_height: 2,
        map_tiles: vec!['W', 'F', 'D', '?'],
        entities: vec![EntitySnapshot {
            id: 4,
            kind: "goblin".to_string(),
            x: 1,
            y: 0,
            hp_current: 2,
            hp_max: 3,
            alive: true,
            has_enemy_ai: true,
            glyph: 'g',
            sign_message: None,
            fragment_id: None,
        },
        EntitySnapshot {
            id: 5,
            kind: "sign".to_string(),
            x: 0,
            y: 1,
            hp_current: 1,
            hp_max: 1,
            alive: true,
            has_enemy_ai: false,
            glyph: '?',
            sign_message: None,
            fragment_id: Some("frag-009".to_string()),
        },
        EntitySnapshot {
            id: 6,
            kind: "memory fragment".to_string(),
            x: 1,
            y: 1,
            hp_current: 1,
            hp_max: 1,
            alive: false,
            has_enemy_ai: false,
            glyph: '*',
            sign_message: None,
            fragment_id: None,
        }],
        event_log: vec![
            SavedLine { text: "first".to_string(), color: None },
            SavedLine { text: "second".to_string(), color: Some((0, 255, 255)) },
        ],
        bindings: vec![("x".to_string(), "(wait)".to_string())],
        user_source: vec!["(def a 1)".to_string()],
        fragments: all_fragments(),
        ending: Some("ascend".to_string()),
        registry_write_unlocked: true,
        held_keys: vec!["memory-key-1".to_string()],
        held_items: Vec::new(),
        gauntlet_barrier_locked: vec![12],
        explored_tiles: vec![(0, 0), (1, 0)],
        seen_entity_kinds: vec!["slime".to_string(), "bat".to_string()],
        seen_tile_types: vec!["fire".to_string()],
        known_rule_ids: vec!["fire/burn".to_string()],
        console_history: vec!["(help)".to_string()],
        barrel_room_protected: true,
        maze_shifting_walls: vec![(3, 4)],
        maze_shift_frozen: true,
    }
}

#[test]
fn loading_restores_the_saved_state() {
    let s = restore_state(save_record());
    assert_eq!(s.map.tile(pos(0, 0)), TileType::Wall);
    assert_eq!(s.map.tile(pos(1, 0)), TileType::Floor);
    assert_eq!(s.map.tile(pos(0, 1)), TileType::StairsDown);
    assert_eq!(s.map.tile(pos(1, 1)), TileType::Floor);
    assert_eq!((s.depth, s.turn), (3, 41));
    assert_eq!(s.facing, Direction::West);
    // The wizard taught the player, so the lost flag is healed.
    assert!(s.player_can_attack);
    let es: Vec<(usize, Position, EntityKind, i32, i32, bool, char)> =
        s.entities.iter().map(|e| (e.id, e.pos, e.kind, e.hp_current, e.hp_max, e.alive, e.glyph)).collect();
    assert_eq!(
        es,
        vec![
            (4, pos(1, 0), EntityKind::Goblin, 2, 3, true, 'g'),
            (5, pos(0, 1), EntityKind::Sign, 1, 1, true, '?'),
            (6, pos(1, 1), EntityKind::Fragment, 1, 1, false, '*'),
        ]
    );
    // A sign without a message gets an empty one and drops a stray fragment
    // id; a fragment without an id stands for the first memory.
    assert_eq!(s.entities[0].sign_message, None);
    assert_eq!(s.entities[1].sign_message, Some(String::new()));
    assert_eq!(s.entities[1].fragment_id, None);
    assert_eq!(s.entities[2].fragment_id, Some("frag-001".to_string()));
    assert_eq!((s.player_id, s.wizard_id), (0, Some(7)));
    assert!(s.cheat_unlocked && s.blocking && s.registry_write_unlocked && s.barrel_room_protected);
    assert_eq!(s.bindings, vec![("x".to_string(), "(wait)".to_string())]);
    assert_eq!(s.user_source, vec!["(def a 1)".to_string()]);
    assert_eq!(s.ending, Some("ascend".to_string()));
    assert_eq!(s.gauntlet_barrier_locked, vec![12]);
    assert_eq!(s.explored_tiles, vec![pos(0, 0), pos(1, 0)]);
    assert_eq!(s.known_rule_ids, vec!["fire/burn".to_string()]);
    assert_eq!(s.console_history, vec!["(help)".to_string()]);
    let lines: Vec<(String, Option<(u8, u8, u8)>)> = s.log.entries().iter().map(|e| (e.text.clone(), e.color)).collect();
    assert_eq!(
        lines,
        vec![
            ("first".to_string(), None),
            ("second".to_string(), Some((0, 255, 255))),
            ("Save file detected. Auto-loading. Use (wipe!) to delete the save.".to_string(), None),
        ]
    );
    assert_eq!(s.fragments.all().len(), 42);
    assert_eq!(s.held_keys, vec!["memory-key-1".to_string()]);
    assert_eq!(s.seen_entity_kinds, vec![EntityKind::Slime, EntityKind::Bat]);
    assert_eq!(s.seen_tile_types, vec![TileType::Fire]);
    assert_eq!(s.maze_shifting_walls, vec![pos(3, 4)]);
    assert!(s.maze_shift_frozen);
}

#[test]
fn rules_show_and_run_their_sources() {
    let r = RuleRegistry::core_rules();
    assert!(r.get("maze-shift").unwrap().body_lines.is_none());
    assert!(r.get("vessel-suppress").unwrap().body_lines.is_none());
    let rage = r.get("rage-impact").unwrap();
    let body = rage.body_lines.unwrap();
    assert!(body.contains(&"    (attack! *self* *player* 3)"));
    assert_ne!(body, rage.source_lines);
    let bat = r.get("bat-flutter").unwrap();
    assert_eq!(bat.body_lines.unwrap(), bat.source_lines);
    assert!(bat.source_lines.contains(&"    (attack! *self* *player* 1)"));
}

#[test]
fn fragments_carry_their_memories() {
    let v = all_fragments();
    for (i, f) in v.iter().enumerate() {
        assert_eq!(f.text, FRAGMENT_TEXTS[i]);
    }
    assert!(v[1].text.starts_with("She stayed late after a party"));
}

#[test]
fn collecting_keeps_the_campaign_counts() {
    let mut r = FragmentRegistry::new();
    for id in ["frag-001", "frag-002", "frag-001", "frag-040", "frag-033", "nope"] {
        r.collect(id);
        assert_eq!(r.findable_count(), 33);
        assert_eq!(r.suppressed().len(), 9);
        assert_eq!(r.all().len(), 42);
        assert!(r.collected_count() <= 33);
    }
    assert_eq!(r.collected_count(), 3);
    assert!(!r.collect("frag-001"));
    assert_eq!(r.get("frag-040").unwrap().status, FragmentStatus::Suppressed);
    let _ = EventLog::new();
}

#[test]
fn saving_then_loading_gives_the_state_back() {
    let s = restore_state(save_record());
    let d = save_record_of(&s);
    assert_eq!(d.version, 1);
    assert_eq!(d.map_tiles, vec!['W', 'F', 'D', 'F']);
    assert_eq!(d.entities[1].sign_message, Some(String::new()));
    assert_eq!(d.entities[0].kind, "goblin");
    assert!(d.entities[0].has_enemy_ai);
    let l = restore_state(d);
    assert_eq!((l.depth, l.turn, l.facing), (s.depth, s.turn, s.facing));
    assert_eq!(l.bindings, s.bindings);
    assert_eq!(l.console_history, s.console_history);
    assert_eq!(l.ending, s.ending);
    assert_eq!((l.cheat_unlocked, l.blocking), (s.cheat_unlocked, s.blocking));
    assert_eq!(l.map.tile(pos(0, 1)), TileType::StairsDown);
    assert_eq!(l.log.entries().last().unwrap().text, "Save file detected. Auto-loading. Use (wipe!) to delete the save.");
}

#[test]
fn an_empty_map_saves_as_no_tiles() {
    let m = TileMap::new_filled(0, 0, TileType::Wall);
    assert!(encode_map_tiles(&m).is_empty());
}

#[test]
fn a_recorded_command_is_browsed_back_first() {
    let mut c = ConsoleInput::new(vec!["(help)".to_string()]);
    c.record("(wait)".to_string());
    c.history_move(-1);
    assert_eq!(c.text(), "(wait)");
    c.history_move(-1);
    assert_eq!(c.text(), "(help)");
}
