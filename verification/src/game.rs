//! Player intents, UI modes, the default key bindings, the cheat-code
//! sequence and panel scrolling.

use vstd::prelude::*;

use crate::entity::Direction;
use crate::text::str_eq;

verus! {

/// What an intent costs in game time.
#[derive(Clone, Copy, Debug, PartialEq, Eq, Structural)]
pub enum ActionCost {
    Free,
    Tick,
    Quit,
}

/// Something the player asks the game to do.
#[derive(Clone, Debug, PartialEq, Eq)]
pub enum Intent {
    /// Execute a keybinding (looked up in the bindings).
    ExecuteBinding(String),
    Move(Direction),
    Wait,
    /// Scroll in overlays (inspector, keybindings).
    InspectorScroll(i32),
    ConsoleInput(char),
    ConsoleNewline,
    ConsoleHistory(i32),
    ConsoleCursor(i32),
    ConsoleMoveWord(i32),
    ConsoleBackspace,
    ConsoleBackspaceWord,
    ConsoleDelete,
    ConsoleHome,
    ConsoleEnd,
    ConsoleKillToStart,
    ConsoleKillToEnd,
    ConsoleSubmit,
    Scroll(i32),
    CloseOverlay,
    ToggleConsole,
    ToggleKeybindings,
    ToggleMemories,
    Respawn,
    Restart,
    SaveGame(u32),
    LoadGame(u32),
    WipeSave(u32),
    OpenExternalEditor,
    Quit,
    Noop,
}

/// The screen the player is in.
#[derive(Clone, Copy, Debug, PartialEq, Eq, Structural)]
pub enum Mode {
    Normal,
    Inspector,
    Console,
    Dead,
    Keybindings,
    Memories,
    ReadingSign,
}

// ---------------------------------------------------------------------------
// What intents cost

/// What an intent costs, from how the game answered it: a move costs what
/// the step came to (`moved`), waiting a tick, a key binding a tick when it
/// advanced the turn and a quit when it stopped the game, quitting a quit;
/// every other intent only works the interface and is free.
pub open spec fn cost_of(intent: Intent, moved: ActionCost, turn_before: u64, turn_after: u64, running: bool) -> ActionCost {
    match intent {
        Intent::Move(_) => moved,
        Intent::Wait => ActionCost::Tick,
        Intent::ExecuteBinding(_) => if !running {
            ActionCost::Quit
        } else if turn_after > turn_before {
            ActionCost::Tick
        } else {
            ActionCost::Free
        },
        Intent::Quit => ActionCost::Quit,
        _ => ActionCost::Free,
    }
}

/// Intents that act in the game rather than on the interface.
pub open spec fn acts_in_game(intent: Intent) -> bool {
    ||| intent is Move
    ||| intent is Wait
    ||| intent is ExecuteBinding
    ||| intent is Quit
}

/// The cost of `intent` once the game has answered it: `moved` is what a
/// move came to, `turn_before` and `turn_after` the turn around a key
/// binding, `running` whether the game still runs after it.
pub fn intent_cost(intent: &Intent, moved: ActionCost, turn_before: u64, turn_after: u64, running: bool) -> (c: ActionCost)
    ensures
        c == cost_of(*intent, moved, turn_before, turn_after, running),
{
    match intent {
        Intent::Move(_) => moved,
        Intent::Wait => ActionCost::Tick,
        Intent::ExecuteBinding(_) => {
            if !running {
                ActionCost::Quit
            } else if turn_after > turn_before {
                ActionCost::Tick
            } else {
                ActionCost::Free
            }
        },
        Intent::Quit => ActionCost::Quit,
        _ => ActionCost::Free,
    }
}

/// The interface is free: an intent that does not act in the game costs no
/// game time, whatever the game answered.
pub proof fn lemma_interface_is_free(
    intent: Intent,
    moved: ActionCost,
    turn_before: u64,
    turn_after: u64,
    running: bool,
)
    requires
        !acts_in_game(intent),
    ensures
        cost_of(intent, moved, turn_before, turn_after, running) == ActionCost::Free,
{
}

/// Waiting always costs a tick, and a key binding costs one exactly when
/// it advanced the turn without stopping the game.
pub proof fn lemma_time_passes_with_the_turn(
    intent: Intent,
    moved: ActionCost,
    turn_before: u64,
    turn_after: u64,
    running: bool,
)
    ensures
        intent is Wait ==> cost_of(intent, moved, turn_before, turn_after, running) == ActionCost::Tick,
        intent is ExecuteBinding ==> (cost_of(intent, moved, turn_before, turn_after, running) == ActionCost::Tick
            <==> running && turn_after > turn_before),
{
}

/// The overlay a toggle intent opens, if it is one.
pub open spec fn toggled_overlay(intent: Intent) -> Option<Mode> {
    match intent {
        Intent::ToggleConsole => Some(Mode::Console),
        Intent::ToggleKeybindings => Some(Mode::Keybindings),
        Intent::ToggleMemories => Some(Mode::Memories),
        _ => None,
    }
}

/// The screen after an intent, as far as the intent itself picks it: a
/// toggle opens its overlay, or closes it to the map when it is open;
/// closing an overlay returns to the map; other intents keep the screen.
pub open spec fn mode_after_spec(mode: Mode, intent: Intent) -> Mode {
    match toggled_overlay(intent) {
        Some(o) => if mode == o {
            Mode::Normal
        } else {
            o
        },
        None => if intent is CloseOverlay {
            Mode::Normal
        } else {
            mode
        },
    }
}

/// The screen after `intent` in `mode` (see `mode_after_spec`).
pub fn mode_after(mode: Mode, intent: &Intent) -> (m: Mode)
    ensures
        m == mode_after_spec(mode, *intent),
{
    match intent {
        Intent::ToggleConsole => if mode == Mode::Console {
            Mode::Normal
        } else {
            Mode::Console
        },
        Intent::ToggleKeybindings => if mode == Mode::Keybindings {
            Mode::Normal
        } else {
            Mode::Keybindings
        },
        Intent::ToggleMemories => if mode == Mode::Memories {
            Mode::Normal
        } else {
            Mode::Memories
        },
        Intent::CloseOverlay => Mode::Normal,
        _ => mode,
    }
}

/// A toggle pressed twice from the map comes back to the map, and pressed
/// in any other screen lands in its overlay.
pub proof fn lemma_toggle_twice(mode: Mode, intent: Intent)
    requires
        toggled_overlay(intent) is Some,
    ensures
        mode != toggled_overlay(intent)->0 ==> mode_after_spec(mode, intent) == toggled_overlay(intent)->0,
        mode_after_spec(mode_after_spec(Mode::Normal, intent), intent) == Mode::Normal,
{
}

// ---------------------------------------------------------------------------
// Default bindings

/// The key bindings a new game starts with, as (key, Glyph command).
pub open spec fn default_binding_list() -> Seq<(Seq<char>, Seq<char>)> {
    seq![
        ("h"@, "(move! :west)"@),
        ("j"@, "(move! :south)"@),
        ("k"@, "(move! :north)"@),
        ("l"@, "(move! :east)"@),
        ("left"@, "(move! :west)"@),
        ("right"@, "(move! :east)"@),
        ("up"@, "(move! :north)"@),
        ("down"@, "(move! :south)"@),
        ("."@, "(wait!)"@),
        ("b"@, "(block!)"@),
        ("v"@, "(shove!)"@),
        (">"@, "(descend!)"@),
        ("<"@, "(ascend!)"@),
        ("i"@, "(toggle-inspector!)"@),
        ("`"@, "(toggle-console!)"@),
        ("tab"@, "(toggle-keybindings!)"@),
        ("q"@, "(quit!)"@),
    ]
}

pub open spec fn binding_pairs(v: Seq<(String, String)>) -> Seq<(Seq<char>, Seq<char>)> {
    v.map_values(|p: (String, String)| (p.0@, p.1@))
}

fn push_binding(v: &mut Vec<(String, String)>, key: &str, command: &str)
    ensures
        binding_pairs(final(v)@) == binding_pairs(old(v)@).push((key@, command@)),
{
    let pair = (key.to_owned(), command.to_owned());
    v.push(pair);
    assert(binding_pairs(v@) =~= binding_pairs(old(v)@).push((key@, command@)));
}

/// The key bindings a new game starts with, as (key, Glyph command) pairs.
pub fn default_bindings() -> (v: Vec<(String, String)>)
    ensures
        binding_pairs(v@) == default_binding_list(),
{
    let mut v: Vec<(String, String)> = Vec::new();
    push_binding(&mut v, "h", "(move! :west)");
    push_binding(&mut v, "j", "(move! :south)");
    push_binding(&mut v, "k", "(move! :north)");
    push_binding(&mut v, "l", "(move! :east)");
    push_binding(&mut v, "left", "(move! :west)");
    push_binding(&mut v, "right", "(move! :east)");
    push_binding(&mut v, "up", "(move! :north)");
    push_binding(&mut v, "down", "(move! :south)");
    push_binding(&mut v, ".", "(wait!)");
    push_binding(&mut v, "b", "(block!)");
    push_binding(&mut v, "v", "(shove!)");
    push_binding(&mut v, ">", "(descend!)");
    push_binding(&mut v, "<", "(ascend!)");
    push_binding(&mut v, "i", "(toggle-inspector!)");
    push_binding(&mut v, "`", "(toggle-console!)");
    push_binding(&mut v, "tab", "(toggle-keybindings!)");
    push_binding(&mut v, "q", "(quit!)");
    assert(binding_pairs(v@) =~= default_binding_list());
    v
}

// ---------------------------------------------------------------------------
// The cheat code

/// The `k`-th key of the cheat code: up, up, down, down, left, right, left,
/// right.
pub open spec fn konami_key(k: int) -> Seq<char> {
    if k == 0 || k == 1 {
        "up"@
    } else if k == 2 || k == 3 {
        "down"@
    } else if k == 4 || k == 6 {
        "left"@
    } else {
        "right"@
    }
}

pub open spec fn is_direction_key(key: Seq<char>) -> bool {
    key == "up"@ || key == "down"@ || key == "left"@ || key == "right"@
}

/// Progress through the cheat code.
#[derive(Clone, Copy, Debug, PartialEq, Eq, Structural)]
pub struct KonamiState {
    /// Whether the cheats are unlocked.
    pub unlocked: bool,
    /// How many keys of the code have been entered in a row.
    pub index: usize,
}

/// The progress after pressing `key`: once unlocked nothing changes; keys
/// other than the four directions are ignored; the expected key advances
/// (the eighth unlocks); any other direction starts over, `up` counting as
/// the first key of a new attempt.
pub open spec fn konami_next(st: KonamiState, key: Seq<char>) -> KonamiState {
    if st.unlocked || !is_direction_key(key) {
        st
    } else if st.index < 8 && key == konami_key(st.index as int) {
        KonamiState { unlocked: st.index + 1 >= 8, index: (st.index + 1) as usize }
    } else {
        KonamiState { unlocked: false, index: if key == "up"@ {
            1
        } else {
            0
        } }
    }
}

fn konami_key_str(k: usize) -> (s: &'static str)
    requires
        k < 8,
    ensures
        s@ == konami_key(k as int),
{
    if k == 0 || k == 1 {
        "up"
    } else if k == 2 || k == 3 {
        "down"
    } else if k == 4 || k == 6 {
        "left"
    } else {
        "right"
    }
}

impl KonamiState {
    pub fn new() -> (st: KonamiState)
        ensures
            st == (KonamiState { unlocked: false, index: 0 }),
    {
        KonamiState { unlocked: false, index: 0 }
    }

    /// Feeds one key press; true when this press unlocks the cheats.
    pub fn check(&mut self, key: &str) -> (activated: bool)
        ensures
            *final(self) == konami_next(*old(self), key@),
            activated == (!old(self).unlocked && final(self).unlocked),
    {
        if self.unlocked {
            return false;
        }
        if !(str_eq(key, "up") || str_eq(key, "down") || str_eq(key, "left") || str_eq(key, "right")) {
            return false;
        }
        if self.index < 8 && str_eq(konami_key_str(self.index), key) {
            self.index = self.index + 1;
            if self.index >= 8 {
                self.unlocked = true;
                return true;
            }
            false
        } else {
            self.index = if str_eq(key, "up") {
                1
            } else {
                0
            };
            false
        }
    }
}

// ---------------------------------------------------------------------------
// Scrolling

/// `a - b`, but not below zero.
pub open spec fn sat_sub(a: int, b: int) -> int {
    if a >= b {
        a - b
    } else {
        0
    }
}

/// `a + b`, but not above `usize::MAX`.
pub open spec fn sat_add(a: int, b: int) -> int {
    if a + b <= usize::MAX {
        a + b
    } else {
        usize::MAX as int
    }
}

pub open spec fn abs_i32(d: i32) -> int {
    if d < 0 {
        -(d as int)
    } else {
        d as int
    }
}

/// The scroll offsets of the side panels and overlays.
#[derive(Clone, Copy, Debug, PartialEq, Eq, Structural)]
pub struct ScrollState {
    pub mode: Mode,
    /// Selected rule in the inspector (and line in the key bindings).
    pub inspector_selection: usize,
    pub sign_scroll: usize,
    pub memory_scroll: usize,
    /// Lines scrolled back in the console output.
    pub console_output_scroll: usize,
    /// Lines scrolled back in the event log.
    pub event_log_scroll: usize,
}

/// A scroll offset moved by `delta`: back towards zero for a negative
/// delta, forward otherwise.
pub open spec fn scrolled(v: usize, delta: i32) -> int {
    if delta < 0 {
        sat_sub(v as int, abs_i32(delta))
    } else {
        sat_add(v as int, delta as int)
    }
}

/// A log view scrolled by `delta`: a negative delta (scrolling up) moves
/// further back, a positive one towards the newest line.
pub open spec fn log_scrolled(v: usize, delta: i32) -> int {
    if delta < 0 {
        sat_add(v as int, abs_i32(delta))
    } else {
        sat_sub(v as int, delta as int)
    }
}

/// The inspector selection moved by `delta`, kept on one of `rule_count`
/// rules when moving forward.
pub open spec fn selection_scrolled(v: usize, delta: i32, rule_count: usize) -> int {
    if delta < 0 {
        sat_sub(v as int, abs_i32(delta))
    } else {
        let moved = sat_add(v as int, delta as int);
        let last = sat_sub(rule_count as int, 1);
        if moved <= last {
            moved
        } else {
            last
        }
    }
}

fn unsigned_abs(d: i32) -> (r: usize)
    ensures
        r == abs_i32(d),
{
    if d < 0 {
        if d == i32::MIN {
            2147483648usize
        } else {
            (-d) as usize
        }
    } else {
        d as usize
    }
}

impl ScrollState {
    /// Moves the inspector selection; forward moves stop at the last of
    /// `rule_count` rules.
    pub fn scroll_inspector(&mut self, delta: i32, rule_count: usize)
        ensures
            final(self).inspector_selection == selection_scrolled(old(self).inspector_selection, delta, rule_count),
            final(self).mode == old(self).mode,
            final(self).sign_scroll == old(self).sign_scroll,
            final(self).memory_scroll == old(self).memory_scroll,
            final(self).console_output_scroll == old(self).console_output_scroll,
            final(self).event_log_scroll == old(self).event_log_scroll,
    {
        if delta < 0 {
            self.inspector_selection = self.inspector_selection.saturating_sub(unsigned_abs(delta));
        } else {
            let moved = self.inspector_selection.saturating_add(delta as usize);
            let last = rule_count.saturating_sub(1);
            self.inspector_selection = if moved <= last {
                moved
            } else {
                last
            };
        }
    }

    pub fn scroll_sign(&mut self, delta: i32)
        ensures
            *final(self) == (ScrollState { sign_scroll: scrolled(old(self).sign_scroll, delta) as usize, ..*old(self) }),
    {
        if delta < 0 {
            self.sign_scroll = self.sign_scroll.saturating_sub(unsigned_abs(delta));
        } else {
            self.sign_scroll = self.sign_scroll.saturating_add(delta as usize);
        }
    }

    pub fn scroll_memories(&mut self, delta: i32)
        ensures
            *final(self) == (ScrollState { memory_scroll: scrolled(old(self).memory_scroll, delta) as usize, ..*old(self) }),
    {
        if delta < 0 {
            self.memory_scroll = self.memory_scroll.saturating_sub(unsigned_abs(delta));
        } else {
            self.memory_scroll = self.memory_scroll.saturating_add(delta as usize);
        }
    }

    /// Scrolls what the current mode shows: the console output, the
    /// memories, the inspector (also for the key bindings), or else the event
    /// log.
    pub fn scroll_view(&mut self, delta: i32, rule_count: usize)
        ensures
            final(self).mode == old(self).mode,
            final(self).sign_scroll == old(self).sign_scroll,
            final(self).console_output_scroll == if old(self).mode == Mode::Console {
                log_scrolled(old(self).console_output_scroll, delta)
            } else {
                old(self).console_output_scroll as int
            },
            final(self).memory_scroll == if old(self).mode == Mode::Memories {
                scrolled(old(self).memory_scroll, delta)
            } else {
                old(self).memory_scroll as int
            },
            final(self).inspector_selection == if old(self).mode == Mode::Inspector || old(self).mode
                == Mode::Keybindings {
                selection_scrolled(old(self).inspector_selection, delta, rule_count)
            } else {
                old(self).inspector_selection as int
            },
            final(self).event_log_scroll == if old(self).mode != Mode::Console && old(self).mode
                != Mode::Memories && old(self).mode != Mode::Inspector && old(self).mode != Mode::Keybindings {
                log_scrolled(old(self).event_log_scroll, delta)
            } else {
                old(self).event_log_scroll as int
            },
    {
        match self.mode {
            Mode::Console => {
                self.console_output_scroll = if delta < 0 {
                    self.console_output_scroll.saturating_add(unsigned_abs(delta))
                } else {
                    self.console_output_scroll.saturating_sub(delta as usize)
                };
            },
            Mode::Memories => {
                self.scroll_memories(delta);
            },
            Mode::Inspector | Mode::Keybindings => {
                self.scroll_inspector(delta, rule_count);
            },
            _ => {
                self.event_log_scroll = if delta < 0 {
                    self.event_log_scroll.saturating_add(unsigned_abs(delta))
                } else {
                    self.event_log_scroll.saturating_sub(delta as usize)
                };
            },
        }
    }
}

} // verus!
