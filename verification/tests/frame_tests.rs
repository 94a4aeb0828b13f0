use xlyph::draw::{
    draw_box, fill_rect, log_box_height, log_box_y, print_clipped, print_clipped_color, print_highlighted,
    print_section_header, render_event_log, render_overlay_backdrop, top_panel_height,
};
use xlyph::event_log::EventLog;
use xlyph::frame::{Cell, Frame};
use xlyph::highlight::{highlight, Span, Tok};

const WHITE: (u8, u8, u8) = (255, 255, 255);
const BLACK: (u8, u8, u8) = (0, 0, 0);

fn row_text(frame: &Frame, y: i32) -> String {
    (0..frame.width()).map(|x| glyph_at(frame, x, y)).collect()
}

fn glyph_at(frame: &Frame, x: i32, y: i32) -> char {
    // Read back through the terminal text: every cell is one color code
    // followed by its glyph.
    let text = frame.to_ansi_string();
    let cells: Vec<char> = text
        .split("\x1b[38;2;")
        .skip(1)
        .map(|chunk| {
            let m = chunk.find('m').unwrap();
            chunk[m + 1..].chars().next().unwrap()
        })
        .collect();
    cells[(y * frame.width() + x) as usize]
}

#[test]
fn new_frame_is_blank() {
    let frame = Frame::new(3, 2);
    assert_eq!(frame.width(), 3);
    assert_eq!(frame.height(), 2);
    assert_eq!(frame.mouse_pos(), (0, 0));
    assert_eq!(row_text(&frame, 0), "   ");
    assert_eq!(Cell::default(), Cell { glyph: ' ', fg: WHITE, bg: BLACK });
}

#[test]
fn ansi_text_of_a_small_frame() {
    let mut frame = Frame::new(2, 2);
    frame.set(1, 0, (255, 0, 0), (0, 0, 255), 'x');
    let expected = [
        "\x1b[H",
        "\x1b[38;2;255;255;255;48;2;0;0;0m ",
        "\x1b[38;2;255;0;0;48;2;0;0;255mx",
        "\r\n",
        "\x1b[38;2;255;255;255;48;2;0;0;0m ",
        "\x1b[38;2;255;255;255;48;2;0;0;0m ",
        "\x1b[0m",
    ]
    .join("");
    assert_eq!(frame.to_ansi_string(), expected);
}

#[test]
fn writes_outside_the_frame_are_ignored() {
    let mut frame = Frame::new(3, 1);
    frame.set(-1, 0, WHITE, BLACK, 'a');
    frame.set(3, 0, WHITE, BLACK, 'b');
    frame.set(0, 1, WHITE, BLACK, 'c');
    assert_eq!(row_text(&frame, 0), "   ");
    frame.print_color(-1, 0, WHITE, BLACK, "abcde");
    assert_eq!(row_text(&frame, 0), "bcd");
}

#[test]
fn resize_keeps_or_blanks() {
    let mut frame = Frame::new(2, 1);
    frame.set(0, 0, WHITE, BLACK, 'k');
    frame.resize(2, 1);
    assert_eq!(row_text(&frame, 0), "k ");
    frame.resize(0, -4);
    assert_eq!(frame.width(), 1);
    assert_eq!(frame.height(), 1);
    assert_eq!(row_text(&frame, 0), " ");
    frame.set_mouse_pos(7, 9);
    frame.clear();
    assert_eq!(frame.mouse_pos(), (7, 9));
}

#[test]
fn clipped_printing() {
    let mut frame = Frame::new(8, 2);
    print_clipped(&mut frame, 1, 0, 3, "hello");
    assert_eq!(row_text(&frame, 0), " hel    ");
    print_clipped(&mut frame, 0, 1, 0, "nothing");
    assert_eq!(row_text(&frame, 1), "        ");
    print_clipped_color(&mut frame, 0, 5, 4, "off", WHITE);
    print_clipped_color(&mut frame, 4, 1, 10, "abc", (1, 2, 3));
    assert_eq!(row_text(&frame, 1), "    abc ");
    assert!(frame.to_ansi_string().contains("\x1b[38;2;1;2;3;48;2;0;0;0ma"));
}

#[test]
fn boxes_have_corners_sides_and_titles() {
    let mut frame = Frame::new(8, 3);
    draw_box(&mut frame, 0, 0, 8, 3, " log ");
    assert_eq!(row_text(&frame, 0), "+- log-+");
    assert_eq!(row_text(&frame, 1), "|      |");
    assert_eq!(row_text(&frame, 2), "+------+");
    let mut small = Frame::new(3, 3);
    draw_box(&mut small, 0, 0, 1, 3, "x");
    assert_eq!(row_text(&small, 0), "   ");
}

#[test]
fn filled_rectangles() {
    let mut frame = Frame::new(4, 2);
    frame.print_color(0, 0, WHITE, BLACK, "abcd");
    fill_rect(&mut frame, 1, 0, 2, 5, (9, 9, 9));
    assert_eq!(row_text(&frame, 0), "a  d");
    assert!(frame.to_ansi_string().contains("48;2;9;9;9m "));
    fill_rect(&mut frame, 0, 0, 0, 2, (1, 1, 1));
    assert_eq!(row_text(&frame, 0), "a  d");
}

#[test]
fn highlighted_spans_take_their_colors() {
    let spans = vec![
        Span { text: "(".to_string(), tok: Tok::Paren },
        Span { text: "12".to_string(), tok: Tok::Number },
    ];
    let mut frame = Frame::new(6, 1);
    print_highlighted(&mut frame, 1, 0, 2, &spans);
    assert_eq!(row_text(&frame, 0), " (1   ");
    let text = frame.to_ansi_string();
    assert!(text.contains("\x1b[38;2;126;136;150;48;2;0;0;0m("));
    assert!(text.contains("\x1b[38;2;82;190;236;48;2;0;0;0m1"));
    let mut whole = Frame::new(12, 1);
    print_highlighted(&mut whole, 0, 0, 12, &highlight("(+ 1 2)"));
    assert_eq!(row_text(&whole, 0), "(+ 1 2)     ");
}

#[test]
fn log_box_geometry() {
    let tall = Frame::new(10, 50);
    assert_eq!(log_box_y(&tall), 34);
    assert_eq!(top_panel_height(&tall), 35);
    assert_eq!(log_box_height(&tall), 16);
    let short = Frame::new(10, 20);
    assert_eq!(log_box_y(&short), 19);
    assert_eq!(top_panel_height(&short), 20);
    assert_eq!(log_box_height(&short), 1);
    let empty = Frame::new(0, 0);
    assert_eq!(log_box_y(&empty), -1);
    assert_eq!(top_panel_height(&empty), 1);
    assert_eq!(log_box_height(&empty), 1);
}

#[test]
fn event_log_box_shows_the_newest_rows() {
    let mut log = EventLog::new();
    for i in 0..6 {
        log.push(format!("line {}", i));
    }
    log.push_colored("a long colored line here".to_string(), (0, 255, 255));
    let mut frame = Frame::new(20, 40);
    render_event_log(&mut frame, &log, 0);
    // The box spans rows 34 to 39: four rows of text.
    assert_eq!(row_text(&frame, 34), "+- event log ------+");
    assert_eq!(row_text(&frame, 39), "+------------------+");
    // The last entry wraps at 16 columns into two rows.
    assert_eq!(row_text(&frame, 35), "|line 4            |");
    assert_eq!(row_text(&frame, 36), "|line 5            |");
    assert_eq!(row_text(&frame, 37), "|a long colored    |");
    assert_eq!(row_text(&frame, 38), "|line here         |");
    assert!(frame.to_ansi_string().contains("\x1b[38;2;0;255;255;48;2;0;0;0ma"));
    // Scrolled back by two rows.
    let mut back = Frame::new(20, 40);
    render_event_log(&mut back, &log, 2);
    assert_eq!(row_text(&back, 35), "|line 2            |");
    assert_eq!(row_text(&back, 38), "|line 5            |");
    // Too low a frame gets no box.
    let mut low = Frame::new(20, 2);
    render_event_log(&mut low, &log, 0);
    assert_eq!(row_text(&low, 1), "                    ");
}

#[test]
fn section_headers_fill_with_dashes() {
    let mut frame = Frame::new(16, 1);
    print_section_header(&mut frame, 1, 0, 12, "rules");
    assert_eq!(row_text(&frame, 0), " -- rules ---   ");
    assert!(frame.to_ansi_string().contains("\x1b[38;2;0;255;255;48;2;0;0;0m-"));
    // A title longer than the width gets no dashes after it.
    let mut narrow = Frame::new(16, 1);
    print_section_header(&mut narrow, 0, 0, 4, "abc");
    assert_eq!(row_text(&narrow, 0), "-- abc          ");
    // Widths count bytes: a two-byte letter takes one dash away.
    let mut wide = Frame::new(16, 1);
    print_section_header(&mut wide, 0, 0, 10, "é");
    assert_eq!(row_text(&wide, 0), "-- é ----       ");
}

#[test]
fn overlay_backdrop_blanks_to_black() {
    let mut frame = Frame::new(3, 2);
    frame.print_color(0, 0, (1, 2, 3), (4, 5, 6), "abc");
    render_overlay_backdrop(&mut frame);
    assert_eq!(row_text(&frame, 0), "   ");
    let text = frame.to_ansi_string();
    assert_eq!(text.matches("\x1b[38;2;0;0;0;48;2;0;0;0m ").count(), 6);
}
