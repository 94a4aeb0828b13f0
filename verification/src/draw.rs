//! Drawing on a frame: boxes, filled areas, clipped and highlighted text,
//! and where the event log's box sits.

use vstd::prelude::*;

use crate::colors::{black, cyan, white};
use crate::event_log::{entries_view, EventLog};
use crate::layout::{wrapped_entries, wrapped_log_lines};
use crate::frame::{Cell, Frame, Rgb};
use crate::highlight::{tok_rgb, Span};
use crate::map::MAP_HEIGHT;
use crate::text::{chars_of, string_from_chars};

verus! {

/// Height of the box around the map: the map and a border row above and
/// below.
pub const MAP_BOX_HEIGHT: i32 = MAP_HEIGHT + 2;

/// The shorter of a text's length and a width.
pub open spec fn clip_len(len: int, max_width: int) -> int {
    if len < max_width {
        len
    } else {
        max_width
    }
}

/// The cell at `(px, py)` after `text` is printed clipped to `max_width`
/// cells from `(x, y)` in the given colors on a frame `frame_h` rows high.
pub open spec fn clipped_cell(
    old: Cell,
    px: int,
    py: int,
    x: int,
    y: int,
    max_width: int,
    text: Seq<char>,
    fg: Rgb,
    frame_h: int,
) -> Cell {
    if 0 < max_width && 0 <= y < frame_h && py == y && x <= px < x + clip_len(text.len() as int, max_width) {
        Cell { glyph: text[px - x], fg, bg: (0u8, 0u8, 0u8) }
    } else {
        old
    }
}

/// Print the first `max_width` characters of `text` from `(x, y)`, in
/// `fg` on black; nothing when the width is not positive or the row is off
/// the frame.
pub fn print_clipped_color(frame: &mut Frame, x: i32, y: i32, max_width: i32, text: &str, fg: Rgb)
    requires
        old(frame).wf(),
        x + clip_len(text@.len() as int, max_width as int) <= i32::MAX + 1,
    ensures
        final(frame).wf(),
        final(frame).spec_width() == old(frame).spec_width(),
        final(frame).spec_height() == old(frame).spec_height(),
        final(frame).spec_mouse() == old(frame).spec_mouse(),
        forall|px: int, py: int|
            final(frame).in_frame(px, py) ==> #[trigger] final(frame).cell_at(px, py) == clipped_cell(
                old(frame).cell_at(px, py),
                px,
                py,
                x as int,
                y as int,
                max_width as int,
                text@,
                fg,
                old(frame).spec_height(),
            ),
{
    if max_width <= 0 || y < 0 || y >= frame.height() {
        return;
    }
    let cs = chars_of(text);
    let mut kept: Vec<char> = Vec::new();
    let mut i: usize = 0;
    while i < cs.len() && i < max_width as usize
        invariant
            cs@ == text@,
            0 < max_width,
            i <= cs@.len(),
            i <= max_width,
            kept@ == cs@.take(i as int),
        decreases cs@.len() - i,
    {
        kept.push(cs[i]);
        assert(kept@ =~= cs@.take(i + 1));
        i = i + 1;
    }
    assert(kept@ =~= text@.take(clip_len(text@.len() as int, max_width as int)));
    let clipped = string_from_chars(kept.as_slice());
    frame.print_color(x, y, fg, black(), clipped.as_str());
}

/// Print the first `max_width` characters of `text` from `(x, y)`, white on
/// black.
pub fn print_clipped(frame: &mut Frame, x: i32, y: i32, max_width: i32, text: &str)
    requires
        old(frame).wf(),
        x + clip_len(text@.len() as int, max_width as int) <= i32::MAX + 1,
    ensures
        final(frame).wf(),
        final(frame).spec_width() == old(frame).spec_width(),
        final(frame).spec_height() == old(frame).spec_height(),
        final(frame).spec_mouse() == old(frame).spec_mouse(),
        forall|px: int, py: int|
            final(frame).in_frame(px, py) ==> #[trigger] final(frame).cell_at(px, py) == clipped_cell(
                old(frame).cell_at(px, py),
                px,
                py,
                x as int,
                y as int,
                max_width as int,
                text@,
                (255u8, 255u8, 255u8),
                old(frame).spec_height(),
            ),
{
    print_clipped_color(frame, x, y, max_width, text, white());
}

/// Fill the rectangle with blanks on the given background.
pub fn fill_rect(frame: &mut Frame, x: i32, y: i32, width: i32, height: i32, color: Rgb)
    requires
        old(frame).wf(),
        width > 0 ==> x + width <= i32::MAX + 1,
        height > 0 ==> y + height <= i32::MAX + 1,
    ensures
        final(frame).wf(),
        final(frame).spec_width() == old(frame).spec_width(),
        final(frame).spec_height() == old(frame).spec_height(),
        final(frame).spec_mouse() == old(frame).spec_mouse(),
        forall|px: int, py: int|
            final(frame).in_frame(px, py) ==> #[trigger] final(frame).cell_at(px, py) == (if x <= px < x + width && y
                <= py < y + height {
                Cell { glyph: ' ', fg: (255u8, 255u8, 255u8), bg: color }
            } else {
                old(frame).cell_at(px, py)
            }),
{
    if width <= 0 || height <= 0 {
        return;
    }
    let fg = white();
    let ghost start = *frame;
    let mut dy: i32 = 0;
    while dy < height
        invariant
            frame.wf(),
            frame.spec_width() == start.spec_width(),
            frame.spec_height() == start.spec_height(),
            frame.spec_mouse() == start.spec_mouse(),
            0 < width,
            x + width <= i32::MAX + 1,
            y + height <= i32::MAX + 1,
            0 <= dy <= height,
            fg == (255u8, 255u8, 255u8),
            forall|px: int, py: int|
                frame.in_frame(px, py) ==> #[trigger] frame.cell_at(px, py) == (if x <= px < x + width && y <= py < y
                    + dy {
                    Cell { glyph: ' ', fg: (255u8, 255u8, 255u8), bg: color }
                } else {
                    start.cell_at(px, py)
                }),
        decreases height - dy,
    {
        let mut dx: i32 = 0;
        while dx < width
            invariant
                frame.wf(),
                frame.spec_width() == start.spec_width(),
                frame.spec_height() == start.spec_height(),
                frame.spec_mouse() == start.spec_mouse(),
                x + width <= i32::MAX + 1,
                y + height <= i32::MAX + 1,
                0 <= dy < height,
                0 <= dx <= width,
                fg == (255u8, 255u8, 255u8),
                forall|px: int, py: int|
                    frame.in_frame(px, py) ==> #[trigger] frame.cell_at(px, py) == (if x <= px < x + width && (y <= py
                        < y + dy || (py == y + dy && px < x + dx)) {
                        Cell { glyph: ' ', fg: (255u8, 255u8, 255u8), bg: color }
                    } else {
                        start.cell_at(px, py)
                    }),
            decreases width - dx,
        {
            let ghost before = *frame;
            frame.set(x + dx, y + dy, fg, color, ' ');
            proof {
                assert forall|px: int, py: int| frame.in_frame(px, py) implies #[trigger] frame.cell_at(px, py) == (if x
                    <= px < x + width && (y <= py < y + dy || (py == y + dy && px < x + dx + 1)) {
                    Cell { glyph: ' ', fg: (255u8, 255u8, 255u8), bg: color }
                } else {
                    start.cell_at(px, py)
                }) by {
                    assert(before.in_frame(px, py));
                }
            }
            dx = dx + 1;
        }
        proof {
            let ghost before = *frame;
            assert forall|px: int, py: int| frame.in_frame(px, py) implies #[trigger] frame.cell_at(px, py) == (if x
                <= px < x + width && y <= py < y + dy + 1 {
                Cell { glyph: ' ', fg: (255u8, 255u8, 255u8), bg: color }
            } else {
                start.cell_at(px, py)
            }) by {
                assert(frame.cell_at(px, py) == (if x <= px < x + width && (y <= py < y + dy || (py == y + dy && px < x
                    + dx)) {
                    Cell { glyph: ' ', fg: (255u8, 255u8, 255u8), bg: color }
                } else {
                    start.cell_at(px, py)
                }));
            }
        }
        dy = dy + 1;
    }
}

/// The cell at `(px, py)` after the box's borders are drawn, before its
/// title: corners `+`, left and right sides `|`, top and bottom `-`.
pub open spec fn border_cell(old: Cell, px: int, py: int, x: int, y: int, width: int, height: int) -> Cell {
    let side = px == x || px == x + width - 1;
    let cap = py == y || py == y + height - 1;
    if side && cap {
        Cell { glyph: '+', fg: (255u8, 255u8, 255u8), bg: (0u8, 0u8, 0u8) }
    } else if side && y <= py < y + height {
        Cell { glyph: '|', fg: (255u8, 255u8, 255u8), bg: (0u8, 0u8, 0u8) }
    } else if cap && x <= px < x + width {
        Cell { glyph: '-', fg: (255u8, 255u8, 255u8), bg: (0u8, 0u8, 0u8) }
    } else {
        old
    }
}

/// The cell at `(px, py)` after the box is drawn: its borders, and its
/// title along the top from two cells in, clipped four cells short of the
/// width. Boxes narrower or lower than two cells are not drawn.
pub open spec fn box_cell(
    old: Cell,
    px: int,
    py: int,
    x: int,
    y: int,
    width: int,
    height: int,
    title: Seq<char>,
    frame_h: int,
) -> Cell {
    if width < 2 || height < 2 {
        old
    } else {
        clipped_cell(
            border_cell(old, px, py, x, y, width, height),
            px,
            py,
            x + 2,
            y,
            width - 4,
            title,
            (255u8, 255u8, 255u8),
            frame_h,
        )
    }
}

/// Draw a box with a title in its top border, white on black.
pub fn draw_box(frame: &mut Frame, x: i32, y: i32, width: i32, height: i32, title: &str)
    requires
        old(frame).wf(),
        width >= 2 ==> x + width <= i32::MAX,
        height >= 2 ==> y + height <= i32::MAX,
    ensures
        final(frame).wf(),
        final(frame).spec_width() == old(frame).spec_width(),
        final(frame).spec_height() == old(frame).spec_height(),
        final(frame).spec_mouse() == old(frame).spec_mouse(),
        forall|px: int, py: int|
            final(frame).in_frame(px, py) ==> #[trigger] final(frame).cell_at(px, py) == box_cell(
                old(frame).cell_at(px, py),
                px,
                py,
                x as int,
                y as int,
                width as int,
                height as int,
                title@,
                old(frame).spec_height(),
            ),
{
    if width < 2 || height < 2 {
        return;
    }
    let fg = white();
    let bg = black();
    let ghost start = *frame;
    let mut dx: i32 = 0;
    while dx < width
        invariant
            frame.wf(),
            frame.spec_width() == start.spec_width(),
            frame.spec_height() == start.spec_height(),
            frame.spec_mouse() == start.spec_mouse(),
            2 <= width,
            2 <= height,
            x + width <= i32::MAX,
            y + height <= i32::MAX,
            0 <= dx <= width,
            fg == (255u8, 255u8, 255u8),
            bg == (0u8, 0u8, 0u8),
            forall|px: int, py: int|
                frame.in_frame(px, py) ==> #[trigger] frame.cell_at(px, py) == (if (py == y || py == y + height - 1) && x
                    <= px < x + dx {
                    Cell { glyph: '-', fg: (255u8, 255u8, 255u8), bg: (0u8, 0u8, 0u8) }
                } else {
                    start.cell_at(px, py)
                }),
        decreases width - dx,
    {
        let ghost b0 = *frame;
        frame.set(x + dx, y, fg, bg, '-');
        let ghost b1 = *frame;
        frame.set(x + dx, y + height - 1, fg, bg, '-');
        proof {
            assert forall|px: int, py: int| frame.in_frame(px, py) implies #[trigger] frame.cell_at(px, py) == (if (py
                == y || py == y + height - 1) && x <= px < x + dx + 1 {
                Cell { glyph: '-', fg: (255u8, 255u8, 255u8), bg: (0u8, 0u8, 0u8) }
            } else {
                start.cell_at(px, py)
            }) by {
                assert(b0.in_frame(px, py) && b1.in_frame(px, py));
            }
        }
        dx = dx + 1;
    }
    let ghost horizontal = *frame;
    let mut dy: i32 = 0;
    while dy < height
        invariant
            frame.wf(),
            frame.spec_width() == start.spec_width(),
            frame.spec_height() == start.spec_height(),
            frame.spec_mouse() == start.spec_mouse(),
            2 <= width,
            2 <= height,
            x + width <= i32::MAX,
            y + height <= i32::MAX,
            0 <= dy <= height,
            fg == (255u8, 255u8, 255u8),
            bg == (0u8, 0u8, 0u8),
            forall|px: int, py: int|
                frame.in_frame(px, py) ==> #[trigger] frame.cell_at(px, py) == (if (px == x || px == x + width - 1) && y
                    <= py < y + dy {
                    Cell { glyph: '|', fg: (255u8, 255u8, 255u8), bg: (0u8, 0u8, 0u8) }
                } else {
                    horizontal.cell_at(px, py)
                }),
            forall|px: int, py: int|
                horizontal.in_frame(px, py) ==> #[trigger] horizontal.cell_at(px, py) == (if (py == y || py == y + height
                    - 1) && x <= px < x + width {
                    Cell { glyph: '-', fg: (255u8, 255u8, 255u8), bg: (0u8, 0u8, 0u8) }
                } else {
                    start.cell_at(px, py)
                }),
            horizontal.spec_width() == start.spec_width(),
            horizontal.spec_height() == start.spec_height(),
        decreases height - dy,
    {
        let ghost b0 = *frame;
        frame.set(x, y + dy, fg, bg, '|');
        let ghost b1 = *frame;
        frame.set(x + width - 1, y + dy, fg, bg, '|');
        proof {
            assert forall|px: int, py: int| frame.in_frame(px, py) implies #[trigger] frame.cell_at(px, py) == (if (px
                == x || px == x + width - 1) && y <= py < y + dy + 1 {
                Cell { glyph: '|', fg: (255u8, 255u8, 255u8), bg: (0u8, 0u8, 0u8) }
            } else {
                horizontal.cell_at(px, py)
            }) by {
                assert(b0.in_frame(px, py) && b1.in_frame(px, py));
            }
        }
        dy = dy + 1;
    }
    let ghost vertical = *frame;
    frame.set(x, y, fg, bg, '+');
    let ghost c1 = *frame;
    frame.set(x + width - 1, y, fg, bg, '+');
    let ghost c2 = *frame;
    frame.set(x, y + height - 1, fg, bg, '+');
    let ghost c3 = *frame;
    frame.set(x + width - 1, y + height - 1, fg, bg, '+');
    let ghost bordered = *frame;
    proof {
        assert forall|px: int, py: int| bordered.in_frame(px, py) implies #[trigger] bordered.cell_at(px, py)
            == border_cell(start.cell_at(px, py), px, py, x as int, y as int, width as int, height as int) by {
            assert(vertical.in_frame(px, py) && c1.in_frame(px, py) && c2.in_frame(px, py) && c3.in_frame(px, py));
            assert(horizontal.in_frame(px, py));
        }
    }
    print_clipped(frame, x + 2, y, width - 4, title);
    proof {
        assert forall|px: int, py: int| frame.in_frame(px, py) implies #[trigger] frame.cell_at(px, py) == box_cell(
            start.cell_at(px, py),
            px,
            py,
            x as int,
            y as int,
            width as int,
            height as int,
            title@,
            start.spec_height(),
        ) by {
            assert(bordered.in_frame(px, py));
        }
    }
}

/// The `i`-th character of a span in the span's color on black.
pub open spec fn span_cell(span: Span, i: int) -> Cell {
    Cell { glyph: span.text@[i], fg: tok_rgb(span.tok), bg: (0u8, 0u8, 0u8) }
}

/// The characters of one span, each in the span's color on black.
pub open spec fn one_span_cells(span: Span) -> Seq<Cell> {
    Seq::new(span.text@.len(), |i: int| span_cell(span, i))
}

/// The characters of the spans in order, each in its span's color on black.
pub open spec fn span_cells(spans: Seq<Span>) -> Seq<Cell>
    decreases spans.len(),
{
    if spans.len() == 0 {
        seq![]
    } else {
        span_cells(spans.drop_last()) + one_span_cells(spans.last())
    }
}

/// Print highlighted spans from `(x, y)`, each character in its span's
/// color on black, up to `max_width` characters in all.
pub fn print_highlighted(frame: &mut Frame, x: i32, y: i32, max_width: i32, spans: &Vec<Span>)
    requires
        old(frame).wf(),
        i32::MIN <= x + max_width <= i32::MAX,
    ensures
        final(frame).wf(),
        final(frame).spec_width() == old(frame).spec_width(),
        final(frame).spec_height() == old(frame).spec_height(),
        final(frame).spec_mouse() == old(frame).spec_mouse(),
        forall|px: int, py: int|
            final(frame).in_frame(px, py) ==> #[trigger] final(frame).cell_at(px, py) == (if py == y && x <= px < x
                + clip_len(span_cells(spans@).len() as int, max_width as int) {
                span_cells(spans@)[px - x]
            } else {
                old(frame).cell_at(px, py)
            }),
{
    let ghost start = *frame;
    let ghost all = span_cells(spans@);
    let mut cx: i32 = x;
    let mut k: usize = 0;
    while k < spans.len()
        invariant
            frame.wf(),
            frame.spec_width() == start.spec_width(),
            frame.spec_height() == start.spec_height(),
            frame.spec_mouse() == start.spec_mouse(),
            i32::MIN <= x + max_width <= i32::MAX,
            k <= spans@.len(),
            cx == x + clip_len(span_cells(spans@.take(k as int)).len() as int, max_width as int) || (max_width <= 0
                && cx == x),
            forall|px: int, py: int|
                frame.in_frame(px, py) ==> #[trigger] frame.cell_at(px, py) == (if py == y && x <= px < cx {
                    span_cells(spans@.take(k as int))[px - x]
                } else {
                    start.cell_at(px, py)
                }),
        decreases spans@.len() - k,
    {
        let span = &spans[k];
        let fg = span.color();
        let cs = chars_of(span.text.as_str());
        let ghost before_cells = span_cells(spans@.take(k as int));
        let ghost next_cells = span_cells(spans@.take(k + 1));
        proof {
            let t = spans@.take(k + 1);
            assert(t.drop_last() =~= spans@.take(k as int));
            assert(t.last() == spans@[k as int]);
            assert(spans@[k as int] == *span);
            assert(cs@ == span.text@);
            assert(next_cells == before_cells + one_span_cells(*span));
            assert forall|px: int, py: int| frame.in_frame(px, py) implies #[trigger] frame.cell_at(px, py) == (if py
                == y && x <= px < cx {
                next_cells[px - x]
            } else {
                start.cell_at(px, py)
            }) by {
                if py == y && x <= px < cx {
                    assert(px - x < before_cells.len());
                    assert(next_cells[px - x] == before_cells[px - x]);
                }
            }
        }
        let mut j: usize = 0;
        while j < cs.len()
            invariant
                frame.wf(),
                frame.spec_width() == start.spec_width(),
                frame.spec_height() == start.spec_height(),
                frame.spec_mouse() == start.spec_mouse(),
                i32::MIN <= x + max_width <= i32::MAX,
                fg == tok_rgb(span.tok),
                next_cells == before_cells + one_span_cells(*span),
                cs@ == span.text@,
                j <= cs@.len(),
                cx == x + clip_len(before_cells.len() + j, max_width as int) || (max_width <= 0 && cx == x),
                forall|px: int, py: int|
                    frame.in_frame(px, py) ==> #[trigger] frame.cell_at(px, py) == (if py == y && x <= px < cx {
                        next_cells[px - x]
                    } else {
                        start.cell_at(px, py)
                    }),
            decreases cs@.len() - j,
        {
            let ch = cs[j];
            if cx < x + max_width {
                let ghost before = *frame;
                frame.set(cx, y, fg, black(), ch);
                proof {
                    assert(cx - x == before_cells.len() + j);
                    assert(one_span_cells(*span)[j as int] == Cell { glyph: ch, fg: tok_rgb(span.tok), bg: (0u8, 0u8, 0u8) });
                    assert((before_cells + one_span_cells(*span))[before_cells.len() + j] == one_span_cells(
                        *span,
                    )[j as int]);
                    assert(next_cells[cx - x] == Cell { glyph: ch, fg: tok_rgb(span.tok), bg: (0u8, 0u8, 0u8) });
                    assert forall|px: int, py: int| frame.in_frame(px, py) implies #[trigger] frame.cell_at(px, py) == (if py
                        == y && x <= px < cx + 1 {
                        next_cells[px - x]
                    } else {
                        start.cell_at(px, py)
                    }) by {
                        assert(before.in_frame(px, py));
                    }
                }
                cx = cx + 1;
            }
            j = j + 1;
        }
        proof {
            assert(next_cells.len() == before_cells.len() + cs@.len());
        }
        k = k + 1;
    }
    proof {
        assert(spans@.take(spans@.len() as int) =~= spans@);
    }
}

/// The row of the event log box's top border: one row above the bottom of
/// the map box on tall frames, the frame's last row on short ones.
pub fn log_box_y(frame: &Frame) -> (r: i32)
    requires
        frame.wf(),
    ensures
        r == (if frame.spec_height() > MAP_BOX_HEIGHT {
            MAP_BOX_HEIGHT - 1
        } else {
            frame.spec_height() - 1
        }),
{
    proof {
        frame.lemma_wf();
    }
    // A frame is never less than zero rows high, so taking one row off
    // cannot run below the smallest `i32`.
    if frame.height() > MAP_BOX_HEIGHT {
        MAP_BOX_HEIGHT - 1
    } else {
        frame.height() - 1
    }
}

/// Rows from the top of the frame down to the event log box, at least one.
pub fn top_panel_height(frame: &Frame) -> (r: i32)
    requires
        frame.wf(),
    ensures
        r == (if frame.spec_height() > MAP_BOX_HEIGHT {
            MAP_BOX_HEIGHT as int
        } else if frame.spec_height() >= 1 {
            frame.spec_height()
        } else {
            1
        }),
{
    let below = log_box_y(frame) + 1;
    if below < 1 {
        1
    } else {
        below
    }
}

/// Rows from the event log box's top border to the bottom of the frame.
pub fn log_box_height(frame: &Frame) -> (r: i32)
    requires
        frame.wf(),
    ensures
        r == (if frame.spec_height() > MAP_BOX_HEIGHT {
            frame.spec_height() - (MAP_BOX_HEIGHT - 1)
        } else {
            1
        }),
{
    proof {
        frame.lemma_wf();
    }
    let rows = frame.height() - log_box_y(frame);
    if rows < 0 {
        0
    } else {
        rows
    }
}


/// The row of the event log box's top border in a frame `h` rows high.
pub open spec fn log_top(h: int) -> int {
    if h > MAP_BOX_HEIGHT {
        MAP_BOX_HEIGHT - 1
    } else {
        h - 1
    }
}

/// The first wrapped row the event log shows: `scroll` rows before the
/// window that ends at the last row, never before the first row.
pub open spec fn log_window_start(total: int, visible: int, scroll: int) -> int {
    let max_start = if total > visible {
        total - visible
    } else {
        0
    };
    if max_start > scroll {
        max_start - scroll
    } else {
        0
    }
}

/// The width the event log's rows are wrapped and clipped at.
pub open spec fn log_text_width(w: int) -> int {
    if w - 4 < 1 {
        1
    } else {
        w - 4
    }
}

/// The cell at `(px, py)` after the event log is drawn on a frame `w` by
/// `h` whose log holds `lines`: the box along the bottom titled
/// " event log ", and inside it, one per row, the wrapped rows of the
/// window, each in its color or white. Nothing is drawn when the box would
/// be lower than three rows or narrower than four columns.
pub open spec fn log_cell(
    old: Cell,
    px: int,
    py: int,
    w: int,
    h: int,
    lines: Seq<(Seq<char>, Option<Rgb>)>,
    scroll: int,
) -> Cell {
    let top = log_top(h);
    let height = h - top;
    if height < 3 || w < 4 {
        old
    } else {
        let boxed = box_cell(old, px, py, 0, top, w, height, " event log "@, h);
        let rows = wrapped_entries(lines, log_text_width(w), lines.len() as int);
        let start = log_window_start(rows.len() as int, height - 2, scroll);
        let i = py - top - 1;
        if 0 <= i < height - 2 && start + i < rows.len() {
            let row = rows[start + i];
            let color = match row.1 {
                Some(c) => c,
                None => (255u8, 255u8, 255u8),
            };
            clipped_cell(boxed, px, py, 1, py, log_text_width(w), row.0, color, h)
        } else {
            boxed
        }
    }
}

/// Draw the event log box along the bottom of the frame with the newest
/// wrapped rows of the log, `scroll` rows back from the newest.
pub fn render_event_log(frame: &mut Frame, log: &EventLog, scroll: usize)
    requires
        old(frame).wf(),
    ensures
        final(frame).wf(),
        final(frame).spec_width() == old(frame).spec_width(),
        final(frame).spec_height() == old(frame).spec_height(),
        final(frame).spec_mouse() == old(frame).spec_mouse(),
        forall|px: int, py: int|
            final(frame).in_frame(px, py) ==> #[trigger] final(frame).cell_at(px, py) == log_cell(
                old(frame).cell_at(px, py),
                px,
                py,
                old(frame).spec_width(),
                old(frame).spec_height(),
                log.lines(),
                scroll as int,
            ),
{
    proof {
        frame.lemma_wf();
    }
    let ghost start_frame = *frame;
    let ghost w = frame.spec_width();
    let ghost h = frame.spec_height();
    let log_y = log_box_y(frame);
    let log_height = log_box_height(frame);
    let log_width = frame.width();
    if log_height < 3 || log_width < 4 {
        return;
    }
    assert(log_y + log_height == h);
    draw_box(frame, 0, log_y, log_width, log_height, " event log ");
    let ghost boxed = *frame;
    let visible = (log_height - 2) as usize;
    let text_width: i32 = if log_width - 4 < 1 {
        1
    } else {
        log_width - 4
    };
    let lines = wrapped_log_lines(log.entries(), text_width as usize);
    let ghost rows = wrapped_entries(log.lines(), text_width as int, log.lines().len() as int);
    proof {
        assert(entries_view(lines@) == rows);
    }
    let max_start: usize = if lines.len() > visible {
        lines.len() - visible
    } else {
        0
    };
    let first: usize = if max_start > scroll {
        max_start - scroll
    } else {
        0
    };
    let mut i: usize = 0;
    while i < visible && i < lines.len() - first
        invariant
            frame.wf(),
            frame.spec_width() == w,
            frame.spec_height() == h,
            frame.spec_mouse() == start_frame.spec_mouse(),
            w == log_width,
            h == start_frame.spec_height(),
            log_y == log_top(h),
            log_height == h - log_top(h),
            log_y + log_height == h,
            h <= i32::MAX,
            3 <= log_height,
            4 <= log_width,
            visible == log_height - 2,
            text_width == log_text_width(w),
            entries_view(lines@) == rows,
            first == log_window_start(rows.len() as int, visible as int, scroll as int),
            first <= lines@.len(),
            i <= visible,
            forall|px: int, py: int|
                frame.in_frame(px, py) ==> #[trigger] frame.cell_at(px, py) == {
                    let k = py - log_y - 1;
                    if 0 <= k < i && first + k < rows.len() {
                        let row = rows[first + k];
                        let color = match row.1 {
                            Some(c) => c,
                            None => (255u8, 255u8, 255u8),
                        };
                        clipped_cell(boxed.cell_at(px, py), px, py, 1, py, text_width as int, row.0, color, h)
                    } else {
                        boxed.cell_at(px, py)
                    }
                },
            boxed.spec_width() == w,
            boxed.spec_height() == h,
        decreases visible - i,
    {
        let y = log_y + 1 + i as i32;
        let line = &lines[first + i];
        let ghost before = *frame;
        proof {
            assert(entry_row(lines@, (first + i) as int) == rows[first + i]);
        }
        match line.color {
            Some(color) => print_clipped_color(frame, 1, y, text_width, line.text.as_str(), color),
            None => print_clipped(frame, 1, y, text_width, line.text.as_str()),
        }
        proof {
            assert forall|px: int, py: int| frame.in_frame(px, py) implies #[trigger] frame.cell_at(px, py) == {
                let k = py - log_y - 1;
                if 0 <= k < i + 1 && first + k < rows.len() {
                    let row = rows[first + k];
                    let color = match row.1 {
                        Some(c) => c,
                        None => (255u8, 255u8, 255u8),
                    };
                    clipped_cell(boxed.cell_at(px, py), px, py, 1, py, text_width as int, row.0, color, h)
                } else {
                    boxed.cell_at(px, py)
                }
            } by {
                assert(before.in_frame(px, py));
            }
        }
        i = i + 1;
    }
    proof {
        assert forall|px: int, py: int| frame.in_frame(px, py) implies #[trigger] frame.cell_at(px, py) == log_cell(
            start_frame.cell_at(px, py),
            px,
            py,
            w,
            h,
            log.lines(),
            scroll as int,
        ) by {
            assert(boxed.in_frame(px, py));
        }
    }
}

/// The row at index `k` of a list of log entries, as text and color.
pub open spec fn entry_row(v: Seq<crate::event_log::LogEntry>, k: int) -> (Seq<char>, Option<Rgb>) {
    entries_view(v)[k]
}


/// Blank the whole frame to black, under an overlay.
pub fn render_overlay_backdrop(frame: &mut Frame)
    requires
        old(frame).wf(),
    ensures
        final(frame).wf(),
        final(frame).spec_width() == old(frame).spec_width(),
        final(frame).spec_height() == old(frame).spec_height(),
        final(frame).spec_mouse() == old(frame).spec_mouse(),
        forall|px: int, py: int|
            final(frame).in_frame(px, py) ==> #[trigger] final(frame).cell_at(px, py) == (Cell {
                glyph: ' ',
                fg: (0u8, 0u8, 0u8),
                bg: (0u8, 0u8, 0u8),
            }),
{
    proof {
        frame.lemma_wf();
    }
    let bg = black();
    let ghost start = *frame;
    let height = frame.height();
    let width = frame.width();
    let mut y: i32 = 0;
    while y < height
        invariant
            frame.wf(),
            frame.spec_width() == width,
            frame.spec_height() == height,
            frame.spec_mouse() == start.spec_mouse(),
            start.spec_width() == width,
            start.spec_height() == height,
            0 <= width,
            0 <= y <= height,
            bg == (0u8, 0u8, 0u8),
            forall|px: int, py: int|
                frame.in_frame(px, py) ==> #[trigger] frame.cell_at(px, py) == (if py < y {
                    Cell { glyph: ' ', fg: (0u8, 0u8, 0u8), bg: (0u8, 0u8, 0u8) }
                } else {
                    start.cell_at(px, py)
                }),
        decreases height - y,
    {
        let mut x: i32 = 0;
        while x < width
            invariant
                frame.wf(),
                frame.spec_width() == width,
                frame.spec_height() == height,
                frame.spec_mouse() == start.spec_mouse(),
                start.spec_width() == width,
                start.spec_height() == height,
                0 <= y < height,
                0 <= x <= width,
                bg == (0u8, 0u8, 0u8),
                forall|px: int, py: int|
                    frame.in_frame(px, py) ==> #[trigger] frame.cell_at(px, py) == (if py < y || (py == y && px < x) {
                        Cell { glyph: ' ', fg: (0u8, 0u8, 0u8), bg: (0u8, 0u8, 0u8) }
                    } else {
                        start.cell_at(px, py)
                    }),
            decreases width - x,
        {
            let ghost before = *frame;
            frame.set(x, y, black(), bg, ' ');
            proof {
                assert forall|px: int, py: int| frame.in_frame(px, py) implies #[trigger] frame.cell_at(px, py) == (if py
                    < y || (py == y && px < x + 1) {
                    Cell { glyph: ' ', fg: (0u8, 0u8, 0u8), bg: (0u8, 0u8, 0u8) }
                } else {
                    start.cell_at(px, py)
                }) by {
                    assert(before.in_frame(px, py));
                }
            }
            x = x + 1;
        }
        y = y + 1;
    }
}

/// How many bytes UTF-8 takes for a character.
pub open spec fn utf8_width(c: char) -> int {
    if (c as u32) < 0x80 {
        1
    } else if (c as u32) < 0x800 {
        2
    } else if (c as u32) < 0x10000 {
        3
    } else {
        4
    }
}

/// How many bytes UTF-8 takes for a text.
pub open spec fn utf8_len(s: Seq<char>) -> int
    decreases s.len(),
{
    if s.len() == 0 {
        0
    } else {
        utf8_len(s.drop_last()) + utf8_width(s.last())
    }
}

/// The line of a section header: `-- `, the title, a space, then dashes up
/// to `max_width` bytes in all.
pub open spec fn section_header_line(title: Seq<char>, max_width: int) -> Seq<char> {
    let header = "-- "@ + title + " "@;
    let fill = max_width - utf8_len(header);
    header + Seq::new(if fill > 0 {
        fill as nat
    } else {
        0nat
    }, |i: int| '-')
}

/// Print a section header along row `y` from column `x`, in cyan on black.
pub fn print_section_header(frame: &mut Frame, x: i32, y: i32, max_width: i32, title: &str)
    requires
        old(frame).wf(),
        title@.len() + 4 + (if max_width > 0 {
            max_width as int
        } else {
            0
        }) <= i32::MAX,
        x + title@.len() + 4 + (if max_width > 0 {
            max_width as int
        } else {
            0
        }) <= i32::MAX,
    ensures
        final(frame).wf(),
        final(frame).spec_width() == old(frame).spec_width(),
        final(frame).spec_height() == old(frame).spec_height(),
        final(frame).spec_mouse() == old(frame).spec_mouse(),
        forall|px: int, py: int|
            final(frame).in_frame(px, py) ==> #[trigger] final(frame).cell_at(px, py) == (if py == y && x <= px < x
                + section_header_line(title@, max_width as int).len() {
                Cell { glyph: section_header_line(title@, max_width as int)[px - x], fg: (0u8, 255u8, 255u8), bg: (0u8, 0u8, 0u8) }
            } else {
                old(frame).cell_at(px, py)
            }),
{
    let mut line: Vec<char> = Vec::new();
    line.push('-');
    line.push('-');
    line.push(' ');
    let cs = chars_of(title);
    proof {
        reveal_strlit("-- ");
        assert(line@ =~= "-- "@ + cs@.take(0));
    }
    let mut i: usize = 0;
    while i < cs.len()
        invariant
            cs@ == title@,
            i <= cs@.len(),
            line@ == "-- "@ + cs@.take(i as int),
        decreases cs@.len() - i,
    {
        proof {
            reveal_strlit("-- ");
        }
        line.push(cs[i]);
        assert(line@ =~= "-- "@ + cs@.take(i + 1));
        i = i + 1;
    }
    line.push(' ');
    proof {
        reveal_strlit("-- ");
        reveal_strlit(" ");
        assert(line@ =~= "-- "@ + title@ + " "@);
    }
    let ghost header = line@;
    // The header's length in bytes.
    let mut bytes: i64 = 0;
    let mut k: usize = 0;
    while k < line.len()
        invariant
            header == line@,
            k <= line@.len(),
            line@.len() <= i32::MAX,
            bytes == utf8_len(line@.take(k as int)),
            0 <= bytes <= 4 * k,
        decreases line@.len() - k,
    {
        let c = line[k];
        let width: i64 = if (c as u32) < 0x80 {
            1
        } else if (c as u32) < 0x800 {
            2
        } else if (c as u32) < 0x10000 {
            3
        } else {
            4
        };
        assert(line@.take(k + 1).drop_last() =~= line@.take(k as int));
        bytes = bytes + width;
        k = k + 1;
    }
    assert(line@.take(line@.len() as int) =~= line@);
    let fill: i64 = max_width as i64 - bytes;
    let mut f: i64 = 0;
    while f < fill
        invariant
            line@ == header + Seq::new(f as nat, |i: int| '-'),
            0 <= f,
            f <= fill || fill < 0,
            fill < 0 ==> f == 0,
            fill <= i32::MAX,
        decreases fill - f,
    {
        line.push('-');
        assert(line@ =~= header + Seq::new((f + 1) as nat, |i: int| '-'));
        f = f + 1;
    }
    proof {
        assert(header == "-- "@ + title@ + " "@);
        assert(fill == max_width - utf8_len(header));
        assert(line@ =~= section_header_line(title@, max_width as int));
    }
    let text = string_from_chars(line.as_slice());
    frame.print_color(x, y, cyan(), black(), text.as_str());
}

} // verus!
