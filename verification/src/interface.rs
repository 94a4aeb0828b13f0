//! The intents that only work the interface: overlays, scrolling and the
//! console's input line. They never cost game time; what they ask of the
//! game (running a console line, saving, loading, respawning) is handed
//! back as an action.

use vstd::prelude::*;

use crate::console::{next_word, prev_word, ConsoleInput};
use crate::game::{
    acts_in_game, log_scrolled, mode_after, mode_after_spec, scrolled, selection_scrolled, ActionCost, Intent, Mode,
    ScrollState,
};

verus! {

/// The input line as a value: its text, cursor, history, the history
/// position shown and the draft kept while browsing.
#[verifier::ext_equal]
pub struct ConsoleView {
    pub buffer: Seq<char>,
    pub cursor: int,
    pub history: Seq<Seq<char>>,
    pub history_index: int,
    pub draft: Seq<char>,
}

/// The input line as a value.
pub open spec fn console_view(c: ConsoleInput) -> ConsoleView {
    ConsoleView {
        buffer: c.spec_buffer(),
        cursor: c.spec_cursor(),
        history: c.spec_history(),
        history_index: c.spec_history_index(),
        draft: c.spec_draft(),
    }
}

/// The line after browsing the history by `delta`: back (older) for a
/// negative delta, which first keeps the typed text as the draft; forward
/// towards the draft otherwise. The cursor goes to the end.
pub open spec fn history_moved(v: ConsoleView, delta: i32) -> ConsoleView {
    let n = v.history.len();
    let i = v.history_index;
    if n == 0 {
        v
    } else {
        let i2 = if delta < 0 {
            if i == 0 {
                1
            } else if i < n {
                i + 1
            } else {
                i
            }
        } else if i > 0 {
            i - 1
        } else {
            i
        };
        let draft2 = if delta < 0 && i == 0 {
            v.buffer
        } else {
            v.draft
        };
        let buf = if i2 == 0 {
            draft2
        } else {
            v.history[n - i2]
        };
        ConsoleView { buffer: buf, cursor: buf.len() as int, history: v.history, history_index: i2, draft: draft2 }
    }
}

/// The input line after an intent, while the console is open; other
/// screens leave it alone.
pub open spec fn console_after(v: ConsoleView, mode: Mode, intent: Intent) -> ConsoleView {
    if mode != Mode::Console {
        v
    } else {
        match intent {
            Intent::ConsoleInput(ch) => ConsoleView { buffer: v.buffer.insert(v.cursor, ch), cursor: v.cursor + 1, ..v },
            Intent::ConsoleNewline => ConsoleView { buffer: v.buffer.insert(v.cursor, '\n'), cursor: v.cursor + 1, ..v },
            Intent::ConsoleHistory(d) => history_moved(v, d),
            Intent::ConsoleCursor(d) => ConsoleView {
                cursor: if d < 0 {
                    if v.cursor > 0 {
                        v.cursor - 1
                    } else {
                        0
                    }
                } else if v.cursor < v.buffer.len() {
                    v.cursor + 1
                } else {
                    v.cursor
                },
                ..v
            },
            Intent::ConsoleMoveWord(d) => ConsoleView {
                cursor: if d < 0 {
                    prev_word(v.buffer, v.cursor)
                } else {
                    next_word(v.buffer, v.cursor)
                },
                ..v
            },
            Intent::ConsoleBackspace => if v.cursor > 0 {
                ConsoleView { buffer: v.buffer.remove(v.cursor - 1), cursor: v.cursor - 1, ..v }
            } else {
                v
            },
            Intent::ConsoleBackspaceWord => ConsoleView {
                buffer: v.buffer.subrange(0, prev_word(v.buffer, v.cursor)) + v.buffer.subrange(
                    v.cursor,
                    v.buffer.len() as int,
                ),
                cursor: prev_word(v.buffer, v.cursor),
                ..v
            },
            Intent::ConsoleDelete => if v.cursor < v.buffer.len() {
                ConsoleView { buffer: v.buffer.remove(v.cursor), ..v }
            } else {
                v
            },
            Intent::ConsoleHome => ConsoleView { cursor: 0, ..v },
            Intent::ConsoleEnd => ConsoleView { cursor: v.buffer.len() as int, ..v },
            Intent::ConsoleKillToStart => ConsoleView {
                buffer: v.buffer.subrange(v.cursor, v.buffer.len() as int),
                cursor: 0,
                ..v
            },
            Intent::ConsoleKillToEnd => ConsoleView { buffer: v.buffer.subrange(0, v.cursor), ..v },
            Intent::ConsoleSubmit => ConsoleView {
                buffer: Seq::empty(),
                cursor: 0,
                history_index: 0,
                draft: Seq::empty(),
                ..v
            },
            _ => v,
        }
    }
}

/// The scroll offsets after an intent: scrolling an overlay moves what it
/// shows (the memories, the sign, the inspector's selection), scrolling the
/// view moves what the current screen shows (see `ScrollState::scroll_view`).
pub open spec fn offsets_after(v: ScrollState, intent: Intent, rule_count: usize) -> ScrollState {
    match intent {
        Intent::InspectorScroll(d) => if v.mode == Mode::Memories {
            ScrollState { memory_scroll: scrolled(v.memory_scroll, d) as usize, ..v }
        } else if v.mode == Mode::ReadingSign {
            ScrollState { sign_scroll: scrolled(v.sign_scroll, d) as usize, ..v }
        } else if v.mode == Mode::Inspector || v.mode == Mode::Keybindings {
            ScrollState { inspector_selection: selection_scrolled(v.inspector_selection, d, rule_count) as usize, ..v }
        } else {
            v
        },
        Intent::Scroll(d) => ScrollState {
            console_output_scroll: if v.mode == Mode::Console {
                log_scrolled(v.console_output_scroll, d) as usize
            } else {
                v.console_output_scroll
            },
            memory_scroll: if v.mode == Mode::Memories {
                scrolled(v.memory_scroll, d) as usize
            } else {
                v.memory_scroll
            },
            inspector_selection: if v.mode == Mode::Inspector || v.mode == Mode::Keybindings {
                selection_scrolled(v.inspector_selection, d, rule_count) as usize
            } else {
                v.inspector_selection
            },
            event_log_scroll: if v.mode != Mode::Console && v.mode != Mode::Memories && v.mode != Mode::Inspector
                && v.mode != Mode::Keybindings {
                log_scrolled(v.event_log_scroll, d) as usize
            } else {
                v.event_log_scroll
            },
            ..v
        },
        _ => v,
    }
}

/// What the game state the interface works on holds: the turn, the screen
/// and its scroll offsets, the input line, how many rules the inspector
/// lists, the rules and key bindings marked new, whether new bindings are
/// flagged, and whether a quit waits for confirmation.
pub struct InterfaceState {
    pub turn: u64,
    pub view: ScrollState,
    pub console: ConsoleInput,
    pub rule_count: usize,
    pub new_rule_ids: Vec<String>,
    pub new_binding_keys: Vec<String>,
    pub has_new_bindings: bool,
    pub confirming_quit: bool,
}

impl InterfaceState {
    pub open spec fn wf(&self) -> bool {
        self.console.wf()
    }
}

/// What an interface intent asks the game to do.
#[derive(Clone, Debug, PartialEq, Eq)]
pub enum InterfaceAction {
    Nothing,
    /// Run this console line.
    Submit(String),
    Respawn,
    Restart,
    Save(u32),
    Load(u32),
    Wipe(u32),
    /// Open the console line in an external editor.
    OpenEditor,
}

/// The action an interface intent hands to the game.
pub open spec fn interface_action(mode: Mode, buffer: Seq<char>, intent: Intent, action: InterfaceAction) -> bool {
    match intent {
        Intent::ConsoleSubmit => if mode == Mode::Console {
            action matches InterfaceAction::Submit(line) && line@ == buffer
        } else {
            action == InterfaceAction::Nothing
        },
        Intent::OpenExternalEditor => action == (if mode == Mode::Console {
            InterfaceAction::OpenEditor
        } else {
            InterfaceAction::Nothing
        }),
        Intent::Respawn => action == InterfaceAction::Respawn,
        Intent::Restart => action == InterfaceAction::Restart,
        Intent::SaveGame(s) => action == InterfaceAction::Save(s),
        Intent::LoadGame(s) => action == InterfaceAction::Load(s),
        Intent::WipeSave(s) => action == InterfaceAction::Wipe(s),
        _ => action == InterfaceAction::Nothing,
    }
}

/// Applies an intent that only works the interface. It costs nothing and
/// leaves the turn alone; it cancels a pending quit; the screen changes as
/// `mode_after_spec` says and the scroll offsets as `offsets_after`; while
/// the console is open the input line is edited as `console_after` says;
/// closing the inspector or the key bindings clears the rules or keys marked
/// new, and opening the key bindings clears their flag. What is left for
/// the game is returned as an action.
pub fn apply_interface_intent(st: &mut InterfaceState, intent: &Intent) -> (r: (ActionCost, InterfaceAction))
    requires
        !acts_in_game(*intent),
        old(st).wf(),
    ensures
        final(st).wf(),
        r.0 == ActionCost::Free,
        final(st).turn == old(st).turn,
        !final(st).confirming_quit,
        final(st).rule_count == old(st).rule_count,
        final(st).view == (ScrollState {
            mode: mode_after_spec(old(st).view.mode, *intent),
            ..offsets_after(old(st).view, *intent, old(st).rule_count)
        }),
        console_view(final(st).console) == console_after(console_view(old(st).console), old(st).view.mode, *intent),
        final(st).new_rule_ids@ == (if *intent is CloseOverlay && old(st).view.mode == Mode::Inspector {
            Seq::empty()
        } else {
            old(st).new_rule_ids@
        }),
        final(st).new_binding_keys@ == (if *intent is CloseOverlay && old(st).view.mode == Mode::Keybindings {
            Seq::empty()
        } else {
            old(st).new_binding_keys@
        }),
        final(st).has_new_bindings == (if *intent is ToggleKeybindings && old(st).view.mode != Mode::Keybindings {
            false
        } else {
            old(st).has_new_bindings
        }),
        interface_action(old(st).view.mode, old(st).console.spec_buffer(), *intent, r.1),
{
    let ghost c0 = console_view(st.console);
    proof {
        st.console.lemma_positions_nonneg();
    }
    st.confirming_quit = false;
    let mode = st.view.mode;
    let console_open = mode == Mode::Console;
    let mut action = InterfaceAction::Nothing;
    match intent {
        Intent::InspectorScroll(d) => {
            if mode == Mode::Memories {
                st.view.scroll_memories(*d);
            } else if mode == Mode::ReadingSign {
                st.view.scroll_sign(*d);
            } else if mode == Mode::Inspector || mode == Mode::Keybindings {
                st.view.scroll_inspector(*d, st.rule_count);
            }
        },
        Intent::Scroll(d) => {
            st.view.scroll_view(*d, st.rule_count);
        },
        Intent::ConsoleHistory(d) => {
            if console_open {
                st.console.history_move(*d);
            }
        },
        Intent::ConsoleInput(ch) => {
            if console_open {
                st.console.insert(*ch);
            }
        },
        Intent::ConsoleNewline => {
            if console_open {
                st.console.insert('\n');
            }
        },
        Intent::ConsoleCursor(d) => {
            if console_open {
                st.console.move_cursor(*d);
            }
        },
        Intent::ConsoleMoveWord(d) => {
            if console_open {
                st.console.move_word(*d);
            }
        },
        Intent::ConsoleBackspace => {
            if console_open {
                st.console.backspace();
            }
        },
        Intent::ConsoleBackspaceWord => {
            if console_open {
                st.console.backspace_word();
            }
        },
        Intent::ConsoleDelete => {
            if console_open {
                st.console.delete();
            }
        },
        Intent::ConsoleHome => {
            if console_open {
                st.console.home();
            }
        },
        Intent::ConsoleEnd => {
            if console_open {
                st.console.end();
            }
        },
        Intent::ConsoleKillToStart => {
            if console_open {
                st.console.kill_to_start();
            }
        },
        Intent::ConsoleKillToEnd => {
            if console_open {
                st.console.kill_to_end();
            }
        },
        Intent::ConsoleSubmit => {
            if console_open {
                action = InterfaceAction::Submit(st.console.text());
                st.console.clear_line();
            }
        },
        Intent::CloseOverlay => {
            if mode == Mode::Inspector {
                st.new_rule_ids = Vec::new();
            } else if mode == Mode::Keybindings {
                st.new_binding_keys = Vec::new();
            }
        },
        Intent::ToggleKeybindings => {
            if mode != Mode::Keybindings {
                st.has_new_bindings = false;
            }
        },
        Intent::Respawn => {
            action = InterfaceAction::Respawn;
        },
        Intent::Restart => {
            action = InterfaceAction::Restart;
        },
        Intent::SaveGame(s) => {
            action = InterfaceAction::Save(*s);
        },
        Intent::LoadGame(s) => {
            action = InterfaceAction::Load(*s);
        },
        Intent::WipeSave(s) => {
            action = InterfaceAction::Wipe(*s);
        },
        Intent::OpenExternalEditor => {
            if console_open {
                action = InterfaceAction::OpenEditor;
            }
        },
        _ => {},
    }
    st.view.mode = mode_after(mode, intent);
    proof {
        assert(console_view(st.console) =~= console_after(c0, mode, *intent));
    }
    (ActionCost::Free, action)
}

} // verus!
