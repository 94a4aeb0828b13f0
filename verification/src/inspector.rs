//! The rule inspector: a panel over the game listing the rules the player
//! has met, the selected one expanded with its highlighted Glyph source.

use vstd::prelude::*;

use crate::colors::{black, cyan, dark_gray, gray, yellow};
use crate::draw::{
    box_cell, clip_len, clipped_cell, draw_box, fill_rect, print_clipped, print_clipped_color, print_highlighted,
    span_cells, one_span_cells,
};
use crate::frame::{Cell, Frame, Rgb};
use crate::highlight::{highlight, highlighted, pieces_of, span_piece, tok_rgb, Piece, Span};
use crate::paths::{decimal, decimal_string};
use crate::rules::{Rule, RuleCost, RulePhase, RuleRegistry};
use crate::text::{cat, str_eq};

verus! {

/// One thing the panel paints.
pub enum Paint {
    /// A text from `(x, y)`, clipped to `width` cells, in `fg` on black.
    Text { x: int, y: int, width: int, text: Seq<char>, fg: Rgb },
    /// Cells from `(x, y)`, clipped to `width` cells.
    Cells { x: int, y: int, width: int, cells: Seq<Cell> },
}

/// The cell at `(px, py)` of a frame `h` rows high after `op` is painted
/// over `c`.
pub open spec fn painted(c: Cell, px: int, py: int, op: Paint, h: int) -> Cell {
    match op {
        Paint::Text { x, y, width, text, fg } => clipped_cell(c, px, py, x, y, width, text, fg, h),
        Paint::Cells { x, y, width, cells } => if py == y && x <= px < x + clip_len(cells.len() as int, width) {
            cells[px - x]
        } else {
            c
        },
    }
}

/// The cell after each of `ops` is painted in turn.
pub open spec fn painted_all(c: Cell, px: int, py: int, ops: Seq<Paint>, h: int) -> Cell
    decreases ops.len(),
{
    if ops.len() == 0 {
        c
    } else {
        painted(painted_all(c, px, py, ops.drop_last(), h), px, py, ops.last(), h)
    }
}

/// The texts of a list of strings.
pub open spec fn texts(v: Seq<String>) -> Seq<Seq<char>> {
    Seq::new(v.len(), |i: int| v[i]@)
}

/// The rules whose ids the player knows, in registry order.
pub open spec fn known_rules(rules: Seq<Rule>, known: Seq<Seq<char>>) -> Seq<Rule>
    decreases rules.len(),
{
    if rules.len() == 0 {
        Seq::empty()
    } else if known.contains(rules.last().id@) {
        known_rules(rules.drop_last(), known).push(rules.last())
    } else {
        known_rules(rules.drop_last(), known)
    }
}

/// How a phase is written in the inspector.
pub open spec fn phase_name(p: RulePhase) -> Seq<char> {
    match p {
        RulePhase::EnemyAi => "EnemyAi"@,
        RulePhase::TileEffect => "TileEffect"@,
        RulePhase::Render => "Render"@,
    }
}

/// How a cost is written in the inspector.
pub open spec fn cost_name(c: RuleCost) -> Seq<char> {
    match c {
        RuleCost::Tick => "Tick"@,
        RuleCost::Free => "Free"@,
    }
}

/// The cells of highlighted pieces: each character in its piece's color on
/// black.
pub open spec fn piece_cells(p: Seq<Piece>) -> Seq<Cell>
    decreases p.len(),
{
    if p.len() == 0 {
        Seq::empty()
    } else {
        piece_cells(p.drop_last()) + piece_cell_seq(p.last())
    }
}

/// The `i`-th character of a piece in the piece's color on black.
pub open spec fn piece_cell(pc: Piece, i: int) -> Cell {
    Cell { glyph: pc.0[i], fg: tok_rgb(pc.1), bg: (0u8, 0u8, 0u8) }
}

/// The cells of one highlighted piece.
pub open spec fn piece_cell_seq(pc: Piece) -> Seq<Cell> {
    Seq::new(pc.0.len(), |i: int| piece_cell(pc, i))
}

/// The highlighted source lines of the expanded rule, indented three cells,
/// one row each from row `y`.
pub open spec fn source_paints(lines: Seq<&'static str>, x: int, width: int, y: int) -> Seq<Paint> {
    Seq::new(
        lines.len(),
        |j: int| Paint::Cells { x, y: y + j, width, cells: piece_cells(highlighted("   "@ + lines[j]@)) },
    )
}

/// The widest clip a line of text gets: to the end of the row.
pub open spec fn to_row_end(x: int) -> int {
    i32::MAX - x
}

/// The rows a shown rule takes: its header, its phase and cost, its source
/// when expanded, and a blank row.
pub open spec fn rule_rows(r: Rule, expanded: bool) -> int {
    3 + if expanded {
        r.source_lines@.len() as int
    } else {
        0
    }
}

/// What the shown rules from the `i`-th on paint, starting at row `y`: a
/// header (`v` for the selected rule, `>` for the others, `[NEW]` after the
/// name of a new rule; yellow when selected, else cyan when new, else
/// gray), the phase and cost in dark gray, and the selected rule's source.
pub open spec fn rule_paints(
    shown: Seq<Rule>,
    new_ids: Seq<Seq<char>>,
    sel: int,
    x: int,
    width: int,
    i: int,
    y: int,
) -> Seq<Paint>
    decreases shown.len() - i,
{
    if i < 0 || i >= shown.len() {
        Seq::empty()
    } else {
        let r = shown[i];
        let expanded = i == sel;
        let is_new = new_ids.contains(r.id@);
        let prefix = if expanded {
            "v "@
        } else {
            "> "@
        };
        let fg = if expanded {
            (255u8, 255u8, 0u8)
        } else if is_new {
            (0u8, 255u8, 255u8)
        } else {
            (190u8, 190u8, 190u8)
        };
        let header = prefix + r.name@ + if is_new {
            " [NEW]"@
        } else {
            Seq::<char>::empty()
        };
        let meta = "   "@ + phase_name(r.phase) + " - "@ + cost_name(r.cost);
        let src = if expanded {
            source_paints(r.source_lines@, x, width, y + 2)
        } else {
            Seq::empty()
        };
        seq![
            Paint::Text { x, y, width: to_row_end(x), text: header, fg },
            Paint::Text { x, y: y + 1, width: to_row_end(x), text: meta, fg: (169u8, 169u8, 169u8) },
        ] + src + rule_paints(shown, new_ids, sel, x, width, i + 1, y + rule_rows(r, expanded))
    }
}

/// The rows the shown rules from the `i`-th on take.
pub open spec fn rows_from(shown: Seq<Rule>, sel: int, i: int) -> int
    decreases shown.len() - i,
{
    if i < 0 || i >= shown.len() {
        0
    } else {
        rule_rows(shown[i], i == sel) + rows_from(shown, sel, i + 1)
    }
}

/// The footer: how to move and close, which rule of how many is selected,
/// and a note when some rules are new.
pub open spec fn nav_text(selected: int, count: int, has_new: bool) -> Seq<char> {
    "j/k select  i/esc close  "@ + decimal((selected + 1) as nat) + "/"@ + decimal(count as nat) + " rules"@ + if has_new {
        "  (new rules highlighted)"@
    } else {
        Seq::<char>::empty()
    }
}

/// The panel's frame within a frame `w` by `h`: a margin of two columns
/// and one row where there is room, one row left at the bottom.
pub open spec fn panel_rect(w: int, h: int) -> (int, int, int, int) {
    let x = if w > 4 {
        2int
    } else {
        0int
    };
    let y = if h > 3 {
        1int
    } else {
        0int
    };
    let width = if w - x * 2 > 1 {
        w - x * 2
    } else {
        1
    };
    let height = if h - y - 1 > 1 {
        h - y - 1
    } else {
        1
    };
    (x, y, width, height)
}

/// The selected rule: the selection, kept within the shown rules.
pub open spec fn clamped_selection(selection: int, count: int) -> int {
    let last = if count > 0 {
        count - 1
    } else {
        0
    };
    if selection < last {
        selection
    } else {
        last
    }
}

/// Everything the panel paints over its cleared, boxed area, in order.
pub open spec fn inspector_paints(
    rules: Seq<Rule>,
    known: Seq<Seq<char>>,
    new_ids: Seq<Seq<char>>,
    selection: int,
    w: int,
    h: int,
) -> Seq<Paint> {
    let (x, y, width, height) = panel_rect(w, h);
    let inner = if width - 4 > 1 {
        width - 4
    } else {
        1
    };
    let shown = known_rules(rules, known);
    let sel = clamped_selection(selection, shown.len() as int);
    let empty_note = if shown.len() == 0 {
        seq![
            Paint::Text {
                x: x + 2,
                y: y + 2,
                width: to_row_end(x + 2),
                text: "(no rules loaded)"@,
                fg: (190u8, 190u8, 190u8),
            },
        ]
    } else {
        Seq::empty()
    };
    empty_note + rule_paints(shown, new_ids, sel, x + 2, inner, 0, y + 2) + seq![
        Paint::Text {
            x: x + 2,
            y: y + height - 2,
            width: inner,
            text: nav_text(sel, shown.len() as int, new_ids.len() > 0),
            fg: (255u8, 255u8, 255u8),
        },
    ]
}

/// The cell under the panel: cleared to black inside the panel, then the
/// box with its ` rules ` title.
pub open spec fn panel_base(c: Cell, px: int, py: int, w: int, h: int) -> Cell {
    let (x, y, width, height) = panel_rect(w, h);
    let cleared = if x <= px < x + width && y <= py < y + height {
        Cell { glyph: ' ', fg: (255u8, 255u8, 255u8), bg: (0u8, 0u8, 0u8) }
    } else {
        c
    };
    box_cell(cleared, px, py, x, y, width, height, " rules "@, h)
}

proof fn lemma_piece_cells(spans: Seq<Span>)
    ensures
        span_cells(spans) == piece_cells(pieces_of(spans)),
    decreases spans.len(),
{
    if spans.len() > 0 {
        lemma_piece_cells(spans.drop_last());
        assert(pieces_of(spans.drop_last()) =~= pieces_of(spans).drop_last());
        assert(pieces_of(spans).last() == span_piece(spans.last()));
        let sp = spans.last();
        let pc = span_piece(sp);
        assert(pc.0 == sp.text@);
        assert(piece_cell_seq(pc).len() == pc.0.len());
        assert(one_span_cells(sp).len() == piece_cell_seq(pc).len());
        assert forall|j: int| 0 <= j < one_span_cells(sp).len() implies #[trigger] one_span_cells(sp)[j]
            == piece_cell_seq(pc)[j] by {
            assert(one_span_cells(sp)[j] == Cell { glyph: sp.text@[j], fg: tok_rgb(sp.tok), bg: (0u8, 0u8, 0u8) });
            assert(piece_cell_seq(pc)[j] == piece_cell(pc, j));
        }
        assert(one_span_cells(sp) =~= piece_cell_seq(pc));
    }
}

proof fn lemma_painted_push(c: Cell, px: int, py: int, ops: Seq<Paint>, op: Paint, h: int)
    ensures
        painted_all(c, px, py, ops.push(op), h) == painted(painted_all(c, px, py, ops, h), px, py, op, h),
{
    assert(ops.push(op).drop_last() =~= ops);
}

proof fn lemma_rows_bound(shown: Seq<Rule>, sel: int, i: int)
    requires
        0 <= i,
    ensures
        rows_from(shown, sel, i) >= 0,
        i <= shown.len() ==> rows_from(shown, sel, i) >= 3 * (shown.len() - i),
        i < shown.len() ==> rows_from(shown, sel, i) == rule_rows(shown[i], i == sel) + rows_from(shown, sel, i + 1),
    decreases shown.len() - i,
{
    if i < shown.len() {
        lemma_rows_bound(shown, sel, i + 1);
    }
}

/// The phase as the inspector writes it.
fn phase_text(p: RulePhase) -> (s: &'static str)
    ensures
        s@ == phase_name(p),
{
    match p {
        RulePhase::EnemyAi => "EnemyAi",
        RulePhase::TileEffect => "TileEffect",
        RulePhase::Render => "Render",
    }
}

/// The cost as the inspector writes it.
fn cost_text(c: RuleCost) -> (s: &'static str)
    ensures
        s@ == cost_name(c),
{
    match c {
        RuleCost::Tick => "Tick",
        RuleCost::Free => "Free",
    }
}

/// Whether `id` is one of `ids`.
fn listed(ids: &Vec<String>, id: &str) -> (b: bool)
    ensures
        b == texts(ids@).contains(id@),
{
    let mut i: usize = 0;
    while i < ids.len()
        invariant
            i <= ids@.len(),
            forall|j: int| 0 <= j < i ==> ids@[j]@ != id@,
        decreases ids.len() - i,
    {
        if str_eq(ids[i].as_str(), id) {
            assert(texts(ids@)[i as int] == id@);
            return true;
        }
        i = i + 1;
    }
    proof {
        if texts(ids@).contains(id@) {
            let j = choose|j: int| 0 <= j < texts(ids@).len() && texts(ids@)[j] == id@;
            assert(ids@[j]@ == id@);
        }
    }
    false
}

/// The known rules, in registry order.
fn shown_rules<'a>(rules: &'a [Rule], known: &Vec<String>) -> (r: Vec<&'a Rule>)
    ensures
        r@.len() == known_rules(rules@, texts(known@)).len(),
        forall|i: int| 0 <= i < r@.len() ==> *#[trigger] r@[i] == known_rules(rules@, texts(known@))[i],
{
    let mut r: Vec<&Rule> = Vec::new();
    let mut i: usize = 0;
    while i < rules.len()
        invariant
            i <= rules@.len(),
            r@.len() == known_rules(rules@.take(i as int), texts(known@)).len(),
            forall|k: int| 0 <= k < r@.len() ==> *#[trigger] r@[k] == known_rules(rules@.take(i as int), texts(known@))[k],
        decreases rules.len() - i,
    {
        assert(rules@.take(i + 1).drop_last() =~= rules@.take(i as int));
        if listed(known, rules[i].id) {
            r.push(&rules[i]);
        }
        i = i + 1;
    }
    assert(rules@.take(rules@.len() as int) =~= rules@);
    r
}

/// `f` is `f0` with the panel's base and then `done` painted over it.
pub open spec fn shows(f0: Frame, f: Frame, done: Seq<Paint>) -> bool {
    &&& f.wf()
    &&& f.spec_width() == f0.spec_width()
    &&& f.spec_height() == f0.spec_height()
    &&& f.spec_mouse() == f0.spec_mouse()
    &&& forall|px: int, py: int|
        f.in_frame(px, py) ==> #[trigger] f.cell_at(px, py) == painted_all(
            panel_base(f0.cell_at(px, py), px, py, f0.spec_width(), f0.spec_height()),
            px,
            py,
            done,
            f0.spec_height(),
        )
}

/// `f2` is `f1` with `op` painted over it.
pub open spec fn painted_over(f1: Frame, f2: Frame, op: Paint) -> bool {
    &&& f2.wf()
    &&& f2.spec_width() == f1.spec_width()
    &&& f2.spec_height() == f1.spec_height()
    &&& f2.spec_mouse() == f1.spec_mouse()
    &&& forall|px: int, py: int|
        f2.in_frame(px, py) ==> #[trigger] f2.cell_at(px, py) == painted(f1.cell_at(px, py), px, py, op, f1.spec_height())
}

proof fn lemma_step(f0: Frame, f1: Frame, f2: Frame, done: Seq<Paint>, op: Paint)
    requires
        shows(f0, f1, done),
        painted_over(f1, f2, op),
    ensures
        shows(f0, f2, done.push(op)),
{
    assert forall|px: int, py: int| f2.in_frame(px, py) implies #[trigger] f2.cell_at(px, py) == painted_all(
        panel_base(f0.cell_at(px, py), px, py, f0.spec_width(), f0.spec_height()),
        px,
        py,
        done.push(op),
        f0.spec_height(),
    ) by {
        assert(f1.in_frame(px, py));
        lemma_painted_push(
            panel_base(f0.cell_at(px, py), px, py, f0.spec_width(), f0.spec_height()),
            px,
            py,
            done,
            op,
            f0.spec_height(),
        );
    }
}

/// Paints a text clipped to `width` cells.
fn paint_text(frame: &mut Frame, x: i32, y: i32, width: i32, text: &str, fg: Rgb)
    requires
        old(frame).wf(),
        0 <= x,
        width == i32::MAX - x || (0 <= width && x + width <= i32::MAX),
    ensures
        painted_over(*old(frame), *final(frame), Paint::Text { x: x as int, y: y as int, width: width as int, text: text@, fg }),
{
    print_clipped_color(frame, x, y, width, text, fg);
}

/// Paints the highlighted line `src`, indented three cells, at row `y`.
fn paint_source(frame: &mut Frame, x: i32, y: i32, width: i32, src: &str)
    requires
        old(frame).wf(),
        0 <= x,
        0 <= width,
        x + width <= i32::MAX,
    ensures
        painted_over(
            *old(frame),
            *final(frame),
            Paint::Cells { x: x as int, y: y as int, width: width as int, cells: piece_cells(highlighted("   "@ + src@)) },
        ),
{
    let line = cat("   ", src);
    let spans = highlight(line.as_str());
    proof {
        lemma_piece_cells(spans@);
    }
    print_highlighted(frame, x, y, width, &spans);
}

/// The header of a shown rule.
fn header_text(expanded: bool, is_new: bool, name: &str) -> (s: String)
    ensures
        s@ == (if expanded {
            "v "@
        } else {
            "> "@
        }) + name@ + if is_new {
            " [NEW]"@
        } else {
            Seq::<char>::empty()
        },
{
    let a = if expanded {
        cat("v ", name)
    } else {
        cat("> ", name)
    };
    if is_new {
        cat(a.as_str(), " [NEW]")
    } else {
        assert(a@ + Seq::<char>::empty() =~= a@);
        a
    }
}

/// The phase and cost line of a rule.
fn meta_text(r: &Rule) -> (s: String)
    ensures
        s@ == "   "@ + phase_name(r.phase) + " - "@ + cost_name(r.cost),
{
    let a = cat("   ", phase_text(r.phase));
    let b = cat(a.as_str(), " - ");
    cat(b.as_str(), cost_text(r.cost))
}

/// The footer line.
fn nav_line(selected: usize, count: usize, has_new: bool) -> (s: String)
    requires
        selected < u32::MAX,
        count <= u32::MAX,
    ensures
        s@ == nav_text(selected as int, count as int, has_new),
{
    let a = cat("j/k select  i/esc close  ", decimal_string((selected + 1) as u32).as_str());
    let b = cat(a.as_str(), "/");
    let c = cat(b.as_str(), decimal_string(count as u32).as_str());
    let d = cat(c.as_str(), " rules");
    if has_new {
        cat(d.as_str(), "  (new rules highlighted)")
    } else {
        assert(d@ + Seq::<char>::empty() =~= d@);
        d
    }
}

/// Draws the rule inspector over the frame: the panel cleared and boxed
/// with the title ` rules `, then the rules of the registry whose ids are
/// `known`, each with its header and its phase and cost, the one at
/// `selection` (kept within the list) expanded with its highlighted Glyph
/// source, new rules (`new_ids`) marked, and a footer with the keys and the
/// position in the list (see `inspector_paints`).
pub fn render_inspector(
    frame: &mut Frame,
    registry: &RuleRegistry,
    known: &Vec<String>,
    new_ids: &Vec<String>,
    selection: usize,
)
    requires
        old(frame).wf(),
        ({
            let shown = known_rules(registry.entries(), texts(known@));
            rows_from(shown, clamped_selection(selection as int, shown.len() as int), 0) <= 1_000_000
        }),
    ensures
        shows(
            *old(frame),
            *final(frame),
            inspector_paints(
                registry.entries(),
                texts(known@),
                texts(new_ids@),
                selection as int,
                old(frame).spec_width(),
                old(frame).spec_height(),
            ),
        ),
{
    let ghost f0 = *frame;
    proof {
        frame.lemma_wf();
    }
    let w = frame.width();
    let h = frame.height();
    let x: i32 = if w > 4 {
        2
    } else {
        0
    };
    let y: i32 = if h > 3 {
        1
    } else {
        0
    };
    let width: i32 = if w - x * 2 > 1 {
        w - x * 2
    } else {
        1
    };
    let height: i32 = if h - y > 2 {
        h - y - 1
    } else {
        1
    };
    fill_rect(frame, x, y, width, height, black());
    let ghost f1 = *frame;
    draw_box(frame, x, y, width, height, " rules ");
    proof {
        reveal_strlit(" rules ");
        assert forall|px: int, py: int| frame.in_frame(px, py) implies #[trigger] frame.cell_at(px, py) == painted_all(
            panel_base(f0.cell_at(px, py), px, py, f0.spec_width(), f0.spec_height()),
            px,
            py,
            Seq::empty(),
            f0.spec_height(),
        ) by {
            assert(f1.in_frame(px, py));
        }
    }
    let inner: i32 = if width - 4 > 1 {
        width - 4
    } else {
        1
    };
    let rules = registry.rules();
    let shown = shown_rules(rules, known);
    let ghost sv = known_rules(registry.entries(), texts(known@));
    let n = shown.len();
    let last = if n > 0 {
        n - 1
    } else {
        0
    };
    let sel = if selection < last {
        selection
    } else {
        last
    };
    proof {
        lemma_rows_bound(sv, sel as int, 0);
    }
    let ghost all = inspector_paints(
        registry.entries(),
        texts(known@),
        texts(new_ids@),
        selection as int,
        f0.spec_width(),
        f0.spec_height(),
    );
    let ghost rule_ops = rule_paints(sv, texts(new_ids@), sel as int, (x + 2) as int, inner as int, 0, (y + 2) as int);
    let ghost mut done: Seq<Paint> = Seq::empty();
    if n == 0 {
        let ghost fa = *frame;
        paint_text(frame, x + 2, y + 2, i32::MAX - (x + 2), "(no rules loaded)", gray());
        proof {
            lemma_step(f0, fa, *frame, done, Paint::Text {
                x: (x + 2) as int,
                y: (y + 2) as int,
                width: to_row_end((x + 2) as int),
                text: "(no rules loaded)"@,
                fg: (190u8, 190u8, 190u8),
            });
            done = done.push(
                Paint::Text {
                    x: (x + 2) as int,
                    y: (y + 2) as int,
                    width: to_row_end((x + 2) as int),
                    text: "(no rules loaded)"@,
                    fg: (190u8, 190u8, 190u8),
                },
            );
        }
    }
    let ghost note = done;
    let mut line_y: i32 = y + 2;
    let mut i: usize = 0;
    while i < n
        invariant
            n == shown@.len(),
            n == sv.len(),
            forall|k: int| 0 <= k < n ==> *#[trigger] shown@[k] == sv[k],
            i <= n,
            0 <= x <= 2,
            1 <= inner,
            inner <= i32::MAX - 4,
            sel < n || n == 0,
            shows(f0, *frame, done),
            done + rule_paints(sv, texts(new_ids@), sel as int, (x + 2) as int, inner as int, i as int, line_y as int)
                == note + rule_ops,
            line_y + rows_from(sv, sel as int, i as int) == y + 2 + rows_from(sv, sel as int, 0),
            rows_from(sv, sel as int, 0) <= 1_000_000,
            0 <= y <= 1,
            2 <= line_y,
        decreases n - i,
    {
        proof {
            lemma_rows_bound(sv, sel as int, i as int);
            lemma_rows_bound(sv, sel as int, (i + 1) as int);
        }
        let r = shown[i];
        let ghost d0 = done;
        assert(*r == sv[i as int]);
        let expanded = i == sel;
        let is_new = listed(new_ids, r.id);
        let fg = if expanded {
            yellow()
        } else if is_new {
            cyan()
        } else {
            gray()
        };
        let header = header_text(expanded, is_new, r.name);
        let ghost op1 = Paint::Text {
            x: (x + 2) as int,
            y: line_y as int,
            width: to_row_end((x + 2) as int),
            text: header@,
            fg,
        };
        let ghost fa = *frame;
        paint_text(frame, x + 2, line_y, i32::MAX - (x + 2), header.as_str(), fg);
        proof {
            lemma_step(f0, fa, *frame, done, op1);
            done = done.push(op1);
        }
        let meta = meta_text(r);
        let ghost op2 = Paint::Text {
            x: (x + 2) as int,
            y: line_y + 1,
            width: to_row_end((x + 2) as int),
            text: meta@,
            fg: (169u8, 169u8, 169u8),
        };
        let ghost fb = *frame;
        paint_text(frame, x + 2, line_y + 1, i32::MAX - (x + 2), meta.as_str(), dark_gray());
        proof {
            lemma_step(f0, fb, *frame, done, op2);
            done = done.push(op2);
        }
        let ghost head = done;
        let ghost src_ops = if expanded {
            source_paints(r.source_lines@, (x + 2) as int, inner as int, line_y + 2)
        } else {
            Seq::empty()
        };
        if expanded {
            let m = r.source_lines.len();
            let mut j: usize = 0;
            while j < m
                invariant
                    j <= m,
                    m == r.source_lines@.len(),
                    src_ops == source_paints(r.source_lines@, (x + 2) as int, inner as int, line_y + 2),
                    0 <= x <= 2,
                    1 <= inner,
                    inner <= i32::MAX - 4,
                    0 <= line_y,
                    line_y + 2 + m <= i32::MAX,
                    shows(f0, *frame, done),
                    done == head + src_ops.take(j as int),
                decreases m - j,
            {
                let ghost fc = *frame;
                let row: i32 = line_y + 2 + j as i32;
                paint_source(frame, x + 2, row, inner, r.source_lines[j]);
                proof {
                    let op = src_ops[j as int];
                    assert(op == Paint::Cells {
                        x: (x + 2) as int,
                        y: row as int,
                        width: inner as int,
                        cells: piece_cells(highlighted("   "@ + r.source_lines@[j as int]@)),
                    });
                    lemma_step(f0, fc, *frame, done, op);
                    done = done.push(op);
                    assert(done =~= head + src_ops.take(j + 1));
                }
                j = j + 1;
            }
            assert(src_ops.take(m as int) =~= src_ops);
        }
        proof {
            let rest = rule_paints(
                sv,
                texts(new_ids@),
                sel as int,
                (x + 2) as int,
                inner as int,
                i + 1,
                line_y + rule_rows(sv[i as int], expanded),
            );
            assert(rule_paints(sv, texts(new_ids@), sel as int, (x + 2) as int, inner as int, i as int, line_y as int)
                == seq![op1, op2] + src_ops + rest);
            assert(done =~= d0 + seq![op1, op2] + src_ops);
            assert(d0 + (seq![op1, op2] + src_ops + rest) =~= done + rest);
        }
        line_y = if expanded {
            line_y + 3 + r.source_lines.len() as i32
        } else {
            line_y + 3
        };
        i = i + 1;
    }
    let nav = nav_line(sel, n, new_ids.len() > 0);
    let ghost op3 = Paint::Text {
        x: (x + 2) as int,
        y: (y + height - 2) as int,
        width: inner as int,
        text: nav@,
        fg: (255u8, 255u8, 255u8),
    };
    let ghost fd = *frame;
    print_clipped(frame, x + 2, y + height - 2, inner, nav.as_str());
    proof {
        lemma_step(f0, fd, *frame, done, op3);
        assert(done.push(op3) =~= all);
    }
}

} // verus!
