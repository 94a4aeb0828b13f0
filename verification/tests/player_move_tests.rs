use xlyph::entity::{Direction, EntityKind, Position};
use xlyph::event_log::EventLog;
use xlyph::fragment::{FragmentRegistry, FragmentStatus};
use xlyph::frame::Frame;
use xlyph::game::ActionCost;
use xlyph::inspector::render_inspector;
use xlyph::map::{TileMap, TileType};
use xlyph::movement::StepOutcome;
use xlyph::player_move::apply_player_move;
use xlyph::rules::{rule_matches, RuleRegistry};
use xlyph::save::{RestoredEntity, RestoredState};
use xlyph::turn_end::{close_gauntlet_barriers, end_of_turn};

fn ent(id: usize, x: i32, y: i32, kind: EntityKind, hp: i32) -> RestoredEntity {
    RestoredEntity {
        id,
        pos: Position::new(x, y),
        kind,
        hp_current: hp,
        hp_max: 3,
        alive: true,
        glyph: '?',
        sign_message: None,
        fragment_id: None,
    }
}

/// A 10 by 6 room of floor walled all round, the player at (3, 2).
fn state(depth: u32, others: Vec<RestoredEntity>) -> RestoredState {
    let mut map = TileMap::new_filled(10, 6, TileType::Floor);
    for x in 0..10 {
        map.set_tile(Position::new(x, 0), TileType::Wall);
        map.set_tile(Position::new(x, 5), TileType::Wall);
    }
    for y in 0..6 {
        map.set_tile(Position::new(0, y), TileType::Wall);
        map.set_tile(Position::new(9, y), TileType::Wall);
    }
    let mut entities = vec![ent(0, 3, 2, EntityKind::Player, 1)];
    entities.extend(others);
    RestoredState {
        map,
        depth,
        turn: 0,
        player_id: 0,
        facing: Direction::East,
        player_can_attack: false,
        wizard_taught: false,
        wizard_id: None,
        cheat_unlocked: false,
        blocking: false,
        entities,
        log: EventLog::new(),
        bindings: Vec::new(),
        user_source: Vec::new(),
        fragments: FragmentRegistry::new(),
        ending: None,
        registry_write_unlocked: false,
        held_keys: Vec::new(),
        held_items: Vec::new(),
        gauntlet_barrier_locked: Vec::new(),
        explored_tiles: Vec::new(),
        seen_entity_kinds: Vec::new(),
        seen_tile_types: Vec::new(),
        known_rule_ids: Vec::new(),
        console_history: Vec::new(),
        barrel_room_protected: false,
        maze_shifting_walls: Vec::new(),
        maze_shift_frozen: false,
    }
}

fn texts(s: &RestoredState) -> Vec<String> {
    s.log.entries().iter().map(|e| e.text.clone()).collect()
}

#[test]
fn walking_moves_the_player_and_says_where() {
    let mut s = state(3, Vec::new());
    let mut read = Vec::new();
    let (o, c) = apply_player_move(&mut s, &mut read, Direction::East);
    assert_eq!(o, StepOutcome::MoveTo(Position::new(4, 2)));
    assert_eq!(c, ActionCost::Tick);
    assert_eq!(s.entities[0].pos, Position::new(4, 2));
    assert_eq!(texts(&s), vec!["You move to 4,2.".to_string()]);
    assert_eq!(s.log.entries()[0].color, Some((169, 169, 169)));
}

#[test]
fn bumping_a_wall_costs_a_tick() {
    let mut s = state(3, Vec::new());
    s.entities[0].pos = Position::new(1, 2);
    let mut read = Vec::new();
    let (o, c) = apply_player_move(&mut s, &mut read, Direction::West);
    assert_eq!(o, StepOutcome::Bump);
    assert_eq!(c, ActionCost::Tick);
    assert_eq!(s.entities[0].pos, Position::new(1, 2));
    assert_eq!(texts(&s), vec!["You bump into a wall. Time still moves.".to_string()]);
}

#[test]
fn the_wizard_greets_on_the_foyer_and_teaches_below() {
    let mut s = state(0, vec![ent(1, 4, 2, EntityKind::Wizard, 1)]);
    let mut read = Vec::new();
    let (o, _) = apply_player_move(&mut s, &mut read, Direction::East);
    assert_eq!(o, StepOutcome::Wizard(0));
    assert!(!s.player_can_attack);
    assert_eq!(
        texts(&s),
        vec!["-- wizard --".to_string(), "wizard: Good. I see you're awake. Keep moving; I'll find you below.".to_string()]
    );

    let mut s = state(1, vec![ent(1, 4, 2, EntityKind::Wizard, 1)]);
    let (_, c) = apply_player_move(&mut s, &mut read, Direction::East);
    assert_eq!(c, ActionCost::Tick);
    assert!(s.player_can_attack && s.wizard_taught);
    assert_eq!(s.entities[0].hp_current, 3);
    assert_eq!(texts(&s).len(), 8);
    assert_eq!(texts(&s)[0], "-- wizard --");
}

#[test]
fn a_shove_pushes_a_creature_back_until_the_player_can_strike() {
    let mut s = state(3, vec![ent(1, 4, 2, EntityKind::Slime, 2)]);
    let mut read = Vec::new();
    let (o, c) = apply_player_move(&mut s, &mut read, Direction::East);
    assert_eq!(o, StepOutcome::Shove(0, Position::new(5, 2)));
    assert_eq!(c, ActionCost::Free);
    assert_eq!(s.entities[1].pos, Position::new(5, 2));
    assert_eq!(texts(&s), vec!["You shove the slime back.".to_string()]);

    s.player_can_attack = true;
    s.entities[0].pos = Position::new(4, 2);
    let (o, c) = apply_player_move(&mut s, &mut read, Direction::East);
    assert_eq!(o, StepOutcome::Strike(0));
    assert_eq!(c, ActionCost::Tick);
    assert_eq!(s.entities[1].hp_current, 1);
    assert!(s.entities[1].alive);
    let (_, _) = apply_player_move(&mut s, &mut read, Direction::East);
    assert!(!s.entities[1].alive);
    let t = texts(&s);
    assert_eq!(t[t.len() - 2], "You strike the slime for 1 damage.");
    assert_eq!(t[t.len() - 1], "The slime collapses into inert code.");
}

#[test]
fn a_blocked_shove_does_not_budge() {
    let mut s = state(3, vec![ent(1, 4, 2, EntityKind::Goblin, 2)]);
    s.entities[1].pos = Position::new(8, 2);
    s.entities[0].pos = Position::new(7, 2);
    let mut read = Vec::new();
    let (o, _) = apply_player_move(&mut s, &mut read, Direction::East);
    assert_eq!(o, StepOutcome::ShoveBlocked(0));
    assert_eq!(texts(&s), vec!["You shove the goblin. It doesn't budge.".to_string()]);
}

#[test]
fn a_sign_is_logged_the_first_time_only() {
    let mut sign = ent(7, 4, 2, EntityKind::Sign, 1);
    sign.sign_message = Some("Hello\n\nthere".to_string());
    let mut s = state(3, vec![sign]);
    let mut read = Vec::new();
    let (o, c) = apply_player_move(&mut s, &mut read, Direction::East);
    assert_eq!(o, StepOutcome::Sign(0));
    assert_eq!(c, ActionCost::Tick);
    assert_eq!(read, vec![7]);
    assert_eq!(texts(&s), vec!["-- sign --".to_string(), "sign: Hello".to_string(), "".to_string(), "sign: there".to_string()]);
    apply_player_move(&mut s, &mut read, Direction::East);
    assert_eq!(texts(&s).len(), 4);
}

#[test]
fn the_first_memory_binds_m_and_leaves_the_map() {
    let mut frag = ent(2, 4, 2, EntityKind::Fragment, 1);
    frag.fragment_id = Some("frag-001".to_string());
    let mut s = state(3, vec![frag]);
    let mut read = Vec::new();
    let (o, c) = apply_player_move(&mut s, &mut read, Direction::East);
    assert_eq!(o, StepOutcome::Fragment(0));
    assert_eq!(c, ActionCost::Free);
    assert!(!s.entities[1].alive);
    assert_eq!(s.fragments.get("frag-001").unwrap().status, FragmentStatus::Collected);
    assert_eq!(s.bindings, vec![("m".to_string(), "(toggle-memories!)".to_string())]);
    let t = texts(&s);
    assert_eq!(t[0], "-- memory --");
    assert_eq!(t[1], "MEMORY: frag-001");
    assert!(t.contains(&"Collected 1 of 33 findable memories.".to_string()));
    assert_eq!(t[t.len() - 2], "-- system --");
    assert_eq!(t[t.len() - 1], "  Press m to view collected memories.");
}

#[test]
fn an_already_recovered_memory_only_leaves() {
    let mut frag = ent(2, 4, 2, EntityKind::Fragment, 1);
    frag.fragment_id = Some("frag-001".to_string());
    let mut s = state(3, vec![frag]);
    s.fragments.collect("frag-001");
    let mut read = Vec::new();
    apply_player_move(&mut s, &mut read, Direction::East);
    assert!(!s.entities[1].alive);
    assert_eq!(texts(&s), vec!["Memory frag-001 is already recovered.".to_string()]);
}

#[test]
fn items_are_picked_up_and_barrels_break() {
    let mut s = state(3, vec![ent(1, 4, 2, EntityKind::ShadeEcho, 1), ent(2, 3, 3, EntityKind::Barrel, 1)]);
    s.map.set_tile(Position::new(3, 3), TileType::StairsDown);
    let mut read = Vec::new();
    let (o, c) = apply_player_move(&mut s, &mut read, Direction::East);
    assert_eq!(o, StepOutcome::PickUp(0));
    assert_eq!(c, ActionCost::Free);
    assert_eq!(s.held_items, vec!["Shade Echo".to_string()]);
    assert!(!s.entities[1].alive);
    let (o, c) = apply_player_move(&mut s, &mut read, Direction::South);
    assert_eq!(o, StepOutcome::Barrel(0));
    assert_eq!(c, ActionCost::Tick);
    assert!(!s.entities[2].alive);
    let t = texts(&s);
    assert_eq!(t[1], "The barrel shatters into splinters!");
    assert_eq!(t[2], "The stairs down are revealed!");
}

#[test]
fn the_inspector_lists_known_rules_with_the_selected_one_open() {
    let reg = RuleRegistry::core_rules();
    let first = reg.rules()[0].id.to_string();
    let second = reg.rules()[1].id.to_string();
    let mut frame = Frame::new(90, 50);
    render_inspector(&mut frame, &reg, &vec![first.clone(), second], &vec![first], 0);
    // The box's corner and title.
    assert_eq!(frame.cell(4, 1).glyph, ' ');
    let title: String = (4..11).map(|x| frame.cell(x, 1).glyph).collect();
    assert_eq!(title, " rules ");
    // The selected rule's header, yellow, marked new.
    let name = reg.rules()[0].name;
    let header: String = (4..4 + 2 + name.chars().count() as i32).map(|x| frame.cell(x, 3).glyph).collect();
    assert_eq!(header, format!("v {}", name));
    assert_eq!(frame.cell(4, 3).fg, (255, 255, 0));
    let footer: String = (4..29).map(|x| frame.cell(x, 47).glyph).collect();
    assert_eq!(footer, "j/k select  i/esc close  ");
}

#[test]
fn the_inspector_says_when_no_rule_is_known() {
    let reg = RuleRegistry::core_rules();
    let mut frame = Frame::new(90, 50);
    render_inspector(&mut frame, &reg, &Vec::new(), &Vec::new(), 3);
    let note: String = (4..21).map(|x| frame.cell(x, 3).glyph).collect();
    assert_eq!(note, "(no rules loaded)");
    assert_eq!(frame.cell(4, 3).fg, (190, 190, 190));
}

#[test]
fn a_rule_is_found_by_id_name_or_either_spelling() {
    let reg = RuleRegistry::core_rules();
    let r = &reg.rules()[0];
    assert!(rule_matches(r, r.id));
    assert!(rule_matches(r, r.name));
    assert!(rule_matches(r, &r.id.replace('-', "/")));
    assert!(rule_matches(r, &r.name.replace('/', "-")));
    assert!(!rule_matches(r, "no-such-rule"));
}

#[test]
fn the_end_of_a_turn_advances_the_clock_and_finds_the_dead() {
    let mut s = state(3, Vec::new());
    s.blocking = true;
    assert!(!end_of_turn(&mut s, ""));
    assert_eq!(s.turn, 1);
    assert!(!s.blocking);
    assert!(s.log.entries().is_empty());
    s.entities[0].hp_current = 0;
    assert!(end_of_turn(&mut s, ""));
    assert_eq!(s.turn, 2);
    assert_eq!(texts(&s), vec!["You have perished!".to_string()]);
}

#[test]
fn the_maze_shifts_on_the_clock_until_asked_to_hold_still() {
    let mut s = state(10, Vec::new());
    s.maze_shifting_walls = vec![Position::new(5, 3)];
    // Turn 1 is odd: the shifting wall opens.
    end_of_turn(&mut s, "");
    assert_eq!(s.map.tile(Position::new(5, 3)), TileType::Floor);
    // Turn 2 is even: it closes.
    end_of_turn(&mut s, "");
    assert_eq!(s.map.tile(Position::new(5, 3)), TileType::Wall);
    end_of_turn(&mut s, "(quote :still)");
    assert!(s.maze_shift_frozen);
    assert_eq!(texts(&s), vec!["The walls shudder... and stop. The maze holds its breath.".to_string()]);
    end_of_turn(&mut s, "");
    assert_eq!(s.map.tile(Position::new(5, 3)), TileType::Wall);
}

#[test]
fn any_run_of_collects_keeps_the_campaign_counts() {
    let mut r = FragmentRegistry::new();
    for id in ["frag-001", "frag-001", "frag-040", "frag-002", "nope", "frag-033"] {
        r.collect(id);
    }
    assert_eq!(r.findable_count(), 33);
    assert_eq!(r.suppressed().len(), 9);
    assert_eq!(r.all().len(), 42);
    assert_eq!(r.collected_count(), 3);
}

#[test]
fn a_gauntlet_barrier_closes_behind_the_player_and_moves_what_stands_in_it() {
    let mut s = state(6, vec![ent(1, 7, 16, EntityKind::Slime, 2)]);
    s.map = TileMap::new_filled(60, 33, TileType::Floor);
    s.entities[0].pos = Position::new(8, 16);
    close_gauntlet_barriers(&mut s);
    assert_eq!(s.gauntlet_barrier_locked, vec![7]);
    assert_eq!(s.entities[1].pos, Position::new(6, 16));
    for y in 14..=18 {
        assert_eq!(s.map.tile(Position::new(7, y)), TileType::Wall);
    }
    assert_eq!(s.map.tile(Position::new(7, 13)), TileType::Floor);
    assert_eq!(s.map.tile(Position::new(13, 16)), TileType::Floor);
    assert_eq!(texts(&s), vec!["A barrier slams shut behind you!".to_string()]);
    assert_eq!(s.log.entries()[0].color, Some((255, 0, 0)));
    close_gauntlet_barriers(&mut s);
    assert_eq!(texts(&s).len(), 1);
}
