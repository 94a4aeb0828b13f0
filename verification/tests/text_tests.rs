use xlyph::console::{auto_close, confirms_wipe, ending_for, trim_text, ConsoleInput};
use xlyph::layout::{clipped_lines, cursor_visual_pos, display_key, is_diagnostic_output, wrap_text, wrapped_log_lines};
use xlyph::event_log::{EventLog, LogEntry, MAX_LOG_LINES};
use xlyph::dialogue::{Dialogue, DialogueLine, DialogueSpeaker, WizardDialogue};

fn console_with(text: &str, cursor: usize) -> ConsoleInput {
    let mut c = ConsoleInput::new(Vec::new());
    for ch in text.chars() {
        c.insert(ch);
    }
    c.home();
    for _ in 0..cursor {
        c.move_cursor(1);
    }
    c
}

#[test]
fn console_readline_word_motion_and_deletion() {
    let mut c = console_with("alpha beta gamma", 16);
    c.move_word(-1);
    assert_eq!(c.cursor(), "alpha beta ".chars().count());
    c.backspace_word();
    assert_eq!(c.text(), "alpha gamma");
    assert_eq!(c.cursor(), "alpha ".chars().count());
    c.move_word(1);
    assert_eq!(c.cursor(), "alpha gamma".chars().count());
}

#[test]
fn console_readline_kill_and_delete_edit_the_buffer() {
    let mut c = console_with("alpha beta", 6);
    c.kill_to_start();
    assert_eq!(c.text(), "beta");
    assert_eq!(c.cursor(), 0);

    let mut c = console_with("alpha beta", 5);
    c.kill_to_end();
    assert_eq!(c.text(), "alpha");
    assert_eq!(c.cursor(), 5);

    let mut c = console_with("éx", 0);
    c.delete();
    assert_eq!(c.text(), "x");
}

#[test]
fn console_backspace_and_cursor_limits() {
    let mut c = console_with("ab", 0);
    c.backspace();
    assert_eq!(c.text(), "ab");
    c.move_cursor(-1);
    assert_eq!(c.cursor(), 0);
    c.end();
    c.move_cursor(1);
    assert_eq!(c.cursor(), 2);
    c.backspace();
    assert_eq!(c.text(), "a");
}

#[test]
fn console_history_browsing_keeps_the_draft() {
    let mut c = ConsoleInput::new(vec!["(one)".to_string(), "(two)".to_string()]);
    c.insert('x');
    c.history_move(-1);
    assert_eq!(c.text(), "(two)");
    c.history_move(-1);
    assert_eq!(c.text(), "(one)");
    c.history_move(-1);
    assert_eq!(c.text(), "(one)");
    assert_eq!(c.cursor(), 5);
    c.history_move(1);
    c.history_move(1);
    assert_eq!(c.text(), "x");
    let mut empty = ConsoleInput::new(Vec::new());
    empty.insert('y');
    empty.history_move(-1);
    assert_eq!(empty.text(), "y");
}

#[test]
fn auto_close_closes_open_brackets() {
    assert_eq!(auto_close("(+ 1 2"), "(+ 1 2)");
    assert_eq!(auto_close("(+ (* 2 3"), "(+ (* 2 3))");
    assert_eq!(auto_close("(first (list 1 2 3"), "(first (list 1 2 3))");
    assert_eq!(auto_close("(let [x {:a"), "(let [x {:a}])");
    assert_eq!(auto_close("(str \"(\" ; ("), "(str \"(\" ; ()");
    assert_eq!(auto_close("(str \"\\\"(\""), "(str \"\\\"(\")");
    assert_eq!(auto_close(")) (a"), ")) (a)");
    assert_eq!(auto_close("(a)"), "(a)");
}

#[test]
fn trimming_and_wipe_confirmation() {
    assert_eq!(trim_text("  (help)\n"), "(help)");
    assert_eq!(trim_text(" \t "), "");
    assert!(confirms_wipe("i am aware of what i am doing."));
    assert!(!confirms_wipe("I am aware"));
}

#[test]
fn endings_only_at_the_core() {
    assert_eq!(ending_for(3, "(unregister! :vessel)"), None);
    assert!(ending_for(17, "(UNREGISTER! 'Vessel/suppress)").unwrap().starts_with("DESTROY THE SELF"));
    assert!(ending_for(17, "(set-threshold! 100)").unwrap().starts_with("MAINTAIN SUPPRESSION"));
    assert!(ending_for(17, "(redirect :x)").unwrap().starts_with("REINTEGRATE"));
    assert_eq!(ending_for(17, "(+ 1 2)"), None);
}

#[test]
fn console_header_wraps_to_two_lines_at_eighty() {
    let text = "Glyph REPL — press Ctrl+E to open an external editor for multi-line input. Try (help). ESC or ` to close.";
    let lines = wrap_text(text, 80);
    assert_eq!(lines.len(), 2);
    assert!(lines[0].chars().count() <= 80);
    assert!(lines[1].chars().count() <= 80);
}

#[test]
fn log_entries_wrap_into_visible_rows() {
    let color = bracket_color::prelude::CYAN;
    let entries = vec![LogEntry {
        text: "Open the console (`) and bind attack to a key".to_string(),
        color: Some(color),
    }];

    let lines = wrapped_log_lines(&entries, 18);
    let text = lines.iter().map(|line| line.text.as_str()).collect::<Vec<_>>();

    assert_eq!(text, vec!["Open the console", "(`) and bind", "attack to a key"]);
    assert!(lines.iter().all(|line| line.color == Some(color)));
}

#[test]
fn diagnostic_lines_are_clipped_without_reflowing() {
    let report = "Error: syntax error\n   +-[glyph:1:17]\n 1 | (bind-key :z (do";

    assert!(is_diagnostic_output(report));
    assert_eq!(
        clipped_lines(report, 80),
        vec!["Error: syntax error", "   +-[glyph:1:17]", " 1 | (bind-key :z (do"]
    );
}

#[test]
fn wrapping_edge_cases() {
    assert!(wrap_text("anything", 0).is_empty());
    assert!(wrap_text("", 10).is_empty());
    assert_eq!(wrap_text("a\n\nb\r\n", 10), vec!["a", "", "b"]);
    assert_eq!(wrap_text("abcdefghij", 4), vec!["abcd", "efgh", "ij"]);
    assert_eq!(wrap_text("  lead spaces", 5), vec!["", "lead", "space", "s"]);
    assert_eq!(clipped_lines("abcdef\nxy", 3), vec!["abc", "xy"]);
}

#[test]
fn cursor_position_in_wrapped_console() {
    assert_eq!(cursor_visual_pos("hello world", 11, 5), (1, 5));
    assert_eq!(cursor_visual_pos("hello world", 11, 4), (3, 1));
    assert_eq!(wrap_text("hello world", 4), vec!["hell", "o", "worl", "d"]);
    assert_eq!(cursor_visual_pos("hello", 2, 10), (0, 2));
    assert_eq!(cursor_visual_pos("", 0, 10), (0, 0));
    assert_eq!(cursor_visual_pos("abc", 99, 10), (0, 3));
}

#[test]
fn display_names_of_keys() {
    assert_eq!(display_key(">"), "shift+.");
    assert_eq!(display_key("<"), "shift+,");
    assert_eq!(display_key("tab"), "tab");
    assert!(!is_diagnostic_output("Error: syntax error"));
}

#[test]
fn event_log_keeps_the_newest_hundred() {
    let mut log = EventLog::new();
    for i in 0..(MAX_LOG_LINES + 5) {
        log.push(format!("line {i}"));
    }
    assert_eq!(log.entries().len(), MAX_LOG_LINES);
    assert_eq!(log.entries()[0].text, "line 5");
    log.push_colored("boom".to_string(), (255, 0, 0));
    assert_eq!(log.entries().last().unwrap().color, Some((255, 0, 0)));
    assert!(log.contains("oom"));
    assert!(!log.contains("line 0"));
}

#[test]
fn dialogue_transcript() {
    let mut log = EventLog::new();
    let d = Dialogue::wizard(&["Hello.", "  "])
        .line(DialogueLine::action("waves".to_string()))
        .line(DialogueLine::hint("(help)".to_string()))
        .line(DialogueLine::danger("careful".to_string()))
        .line(DialogueLine::plain("plain".to_string()));
    d.log(&mut log);
    let texts: Vec<&str> = log.entries().iter().map(|e| e.text.as_str()).collect();
    assert_eq!(texts, vec!["-- wizard --", "wizard: Hello.", "", "* waves", "  (help)", "  careful", "plain"]);
    let colors: Vec<Option<(u8, u8, u8)>> = log.entries().iter().map(|e| e.color).collect();
    assert_eq!(colors[0], Some((169, 169, 169)));
    assert_eq!(colors[1], Some((0, 255, 255)));
    assert_eq!(colors[2], None);
    assert_eq!(colors[4], Some((0, 255, 0)));
    assert_eq!(colors[5], Some((255, 0, 0)));
    let memory = Dialogue::spoken(DialogueSpeaker::Memory, &["x"]);
    assert_eq!(memory.line_color(&memory.lines[0]), (0, 255, 0));
    assert_eq!(DialogueSpeaker::Narration.label(), "system");
    let w = WizardDialogue::healing_lines(&["heal"]);
    assert!(w.heals_player);
    assert!(!WizardDialogue::no_heal_lines(&["no"]).heals_player);
    assert_eq!(Dialogue::new(DialogueSpeaker::Sign).lines.len(), 0);
    assert_eq!(Dialogue::mixed(DialogueSpeaker::Sign, vec![DialogueLine::code("x".into())]).format_line(&DialogueLine::speech("hi".into())), "sign: hi");
}
