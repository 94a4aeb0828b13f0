use xlyph::entity::{Direction, EntityKind};
use xlyph::game::{default_bindings, intent_cost, mode_after, ActionCost, Intent, KonamiState, Mode, ScrollState};
use xlyph::no_hit::{NoHitAction, NoHitOptions};
use xlyph::paths::{
    current_playbook_dir, decimal_string, log_path, playbook_init_path, save_path, saves_dir, temp_edit_path,
    xlyph_dir,
};
use xlyph::profile::PlayerProfile;
use xlyph::save::{direction_from_string, direction_to_string, kind_from_string, kind_to_string, has_enemy_ai};

#[test]
fn paths_under_home() {
    let home = Some("/home/ada");
    assert_eq!(xlyph_dir(home), "/home/ada/.xlyph");
    assert_eq!(saves_dir(home), "/home/ada/.xlyph/saves");
    assert_eq!(save_path(home, 0), "/home/ada/.xlyph/saves/slot-0.json");
    assert_eq!(save_path(home, 4294967295), "/home/ada/.xlyph/saves/slot-4294967295.json");
    assert_eq!(temp_edit_path(home), "/home/ada/.xlyph/tmp/console-input.glyph");
    assert_eq!(log_path(home), "/home/ada/.xlyph/logs/xlyph.log");
    assert_eq!(current_playbook_dir(home), "/home/ada/.xlyph/playbooks/current");
    assert_eq!(playbook_init_path(home), "/home/ada/.xlyph/playbooks/current/init.glyph");
    assert_eq!(PlayerProfile::path(home), "/home/ada/.xlyph/profile.json");
}

#[test]
fn paths_without_home_or_with_trailing_slash() {
    assert_eq!(xlyph_dir(None), "./.xlyph");
    assert_eq!(xlyph_dir(Some("/root/")), "/root/.xlyph");
    assert_eq!(xlyph_dir(Some("")), ".xlyph");
    assert_eq!(decimal_string(1907), "1907");
}

#[test]
fn default_bindings_cover_movement() {
    let b = default_bindings();
    assert_eq!(b.len(), 17);
    assert!(b.contains(&("h".to_string(), "(move! :west)".to_string())));
    assert!(b.contains(&("tab".to_string(), "(toggle-keybindings!)".to_string())));
    assert_eq!(b.last().unwrap(), &("q".to_string(), "(quit!)".to_string()));
}

#[test]
fn konami_code_unlocks_cheats() {
    let mut st = KonamiState::new();
    let keys = ["up", "up", "down", "down", "left", "right", "left"];
    for k in keys {
        assert!(!st.check(k));
    }
    assert!(st.check("right"));
    assert!(st.unlocked);
    assert!(!st.check("up"));
    assert!(st.unlocked);
}

#[test]
fn konami_code_restarts_on_mistakes() {
    let mut st = KonamiState::new();
    st.check("up");
    st.check("up");
    st.check("up");
    assert_eq!(st.index, 1, "a wrong up starts a new attempt");
    st.check("x");
    assert_eq!(st.index, 1, "other keys are ignored");
    st.check("left");
    assert_eq!(st.index, 0);
}

#[test]
fn scrolling_targets_the_active_view() {
    let mut s = ScrollState {
        mode: Mode::Console,
        inspector_selection: 0,
        sign_scroll: 0,
        memory_scroll: 0,
        console_output_scroll: 0,
        event_log_scroll: 3,
    };
    s.scroll_view(-2, 5);
    assert_eq!(s.console_output_scroll, 2);
    s.mode = Mode::Normal;
    s.scroll_view(5, 5);
    assert_eq!(s.event_log_scroll, 0);
    s.mode = Mode::Inspector;
    s.scroll_view(10, 5);
    assert_eq!(s.inspector_selection, 4);
    s.scroll_view(-1, 5);
    assert_eq!(s.inspector_selection, 3);
    s.mode = Mode::Memories;
    s.scroll_view(7, 5);
    assert_eq!(s.memory_scroll, 7);
    s.scroll_sign(i32::MIN);
    assert_eq!(s.sign_scroll, 0);
    s.scroll_inspector(3, 0);
    assert_eq!(s.inspector_selection, 0);
}

#[test]
fn no_hit_actions_and_limits() {
    assert_eq!(NoHitAction::Wait.intent(), Intent::Wait);
    assert_eq!(NoHitAction::Move(Direction::West).intent(), Intent::Move(Direction::West));
    let o = NoHitOptions::default();
    assert_eq!((o.max_states, o.max_depth), (50_000, 200));
}

#[test]
fn save_spellings_round_trip() {
    for d in [Direction::North, Direction::South, Direction::West, Direction::East] {
        assert_eq!(direction_from_string(&direction_to_string(d)), d);
    }
    assert_eq!(direction_from_string("sideways"), Direction::East);
    for k in [EntityKind::Player, EntityKind::Fragment, EntityKind::ShadeEcho, EntityKind::VaporCanteen] {
        assert_eq!(kind_from_string(&kind_to_string(k)), k);
    }
    assert_eq!(kind_to_string(EntityKind::Fragment), "memory fragment");
    assert_eq!(kind_from_string("dragon"), EntityKind::Slime);
    assert!(has_enemy_ai(EntityKind::Sentry));
    assert!(!has_enemy_ai(EntityKind::Wizard));
}

#[test]
fn empty_profile() {
    let p = PlayerProfile::default();
    assert!(p.bindings.is_empty() && !p.wizard_taught && p.console_history.is_empty());
}

#[test]
fn interface_intents_are_free_and_play_costs_a_tick() {
    // Waiting always takes a tick.
    assert_eq!(intent_cost(&Intent::Wait, ActionCost::Free, 3, 3, true), ActionCost::Tick);
    // A move costs what the step came to.
    assert_eq!(intent_cost(&Intent::Move(Direction::North), ActionCost::Tick, 3, 3, true), ActionCost::Tick);
    assert_eq!(intent_cost(&Intent::Move(Direction::North), ActionCost::Free, 3, 3, true), ActionCost::Free);
    // A binding costs a tick when the turn advanced, quits when the game stopped.
    let bind = Intent::ExecuteBinding("a".to_string());
    assert_eq!(intent_cost(&bind, ActionCost::Free, 3, 4, true), ActionCost::Tick);
    assert_eq!(intent_cost(&bind, ActionCost::Free, 3, 3, true), ActionCost::Free);
    assert_eq!(intent_cost(&bind, ActionCost::Free, 3, 4, false), ActionCost::Quit);
    assert_eq!(intent_cost(&Intent::Quit, ActionCost::Free, 0, 0, true), ActionCost::Quit);
    // Interface intents never cost time, whatever happened around them.
    for intent in [
        Intent::ToggleConsole,
        Intent::ToggleKeybindings,
        Intent::ToggleMemories,
        Intent::CloseOverlay,
        Intent::InspectorScroll(2),
        Intent::Scroll(-1),
        Intent::ConsoleInput('x'),
        Intent::ConsoleSubmit,
        Intent::ConsoleBackspaceWord,
        Intent::SaveGame(1),
        Intent::Respawn,
        Intent::Noop,
    ] {
        assert_eq!(intent_cost(&intent, ActionCost::Tick, 3, 9, true), ActionCost::Free);
    }
}

#[test]
fn toggles_open_and_close_their_overlays() {
    assert_eq!(mode_after(Mode::Normal, &Intent::ToggleConsole), Mode::Console);
    assert_eq!(mode_after(Mode::Console, &Intent::ToggleConsole), Mode::Normal);
    assert_eq!(mode_after(Mode::Inspector, &Intent::ToggleConsole), Mode::Console);
    assert_eq!(mode_after(Mode::Normal, &Intent::ToggleKeybindings), Mode::Keybindings);
    assert_eq!(mode_after(Mode::Keybindings, &Intent::ToggleKeybindings), Mode::Normal);
    assert_eq!(mode_after(Mode::Normal, &Intent::ToggleMemories), Mode::Memories);
    assert_eq!(mode_after(Mode::Memories, &Intent::ToggleMemories), Mode::Normal);
    assert_eq!(mode_after(Mode::Inspector, &Intent::CloseOverlay), Mode::Normal);
    assert_eq!(mode_after(Mode::Inspector, &Intent::Wait), Mode::Inspector);
    assert_eq!(mode_after(Mode::Console, &Intent::ConsoleInput('a')), Mode::Console);
}
