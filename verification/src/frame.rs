//! An off-screen grid of character cells, each with a foreground and a
//! background color, that the interface draws into before the whole grid is
//! put on the terminal.

use vstd::prelude::*;

use crate::colors::{black, white};
use crate::paths::{decimal, decimal_string};
use crate::text::{chars_of, string_from_chars};

verus! {

/// An 8-bit red, green and blue color.
pub type Rgb = (u8, u8, u8);

/// One character cell: its glyph and its foreground and background colors.
#[derive(Clone, Copy, Debug, PartialEq, Eq)]
pub struct Cell {
    pub glyph: char,
    pub fg: Rgb,
    pub bg: Rgb,
}

/// An empty cell: a space, white on black.
pub open spec fn blank_cell() -> Cell {
    Cell { glyph: ' ', fg: (255u8, 255u8, 255u8), bg: (0u8, 0u8, 0u8) }
}

impl Default for Cell {
    fn default() -> (c: Cell)
        ensures
            c == blank_cell(),
    {
        Cell { glyph: ' ', fg: white(), bg: black() }
    }
}

/// A grid of cells in row-major order, and where the mouse was last seen.
pub struct Frame {
    width: i32,
    height: i32,
    cells: Vec<Cell>,
    mouse_pos: (i32, i32),
}

// ---------------------------------------------------------------------------
// The frame as text with terminal color codes

/// The decimal red, green and blue of a color, separated by semicolons.
pub open spec fn color_code(c: Rgb) -> Seq<char> {
    decimal(c.0 as nat) + ";"@ + decimal(c.1 as nat) + ";"@ + decimal(c.2 as nat)
}

/// A cell as a 24-bit foreground and background color code and its glyph.
pub open spec fn cell_ansi(c: Cell) -> Seq<char> {
    "\x1b[38;2;"@ + color_code(c.fg) + ";48;2;"@ + color_code(c.bg) + "m"@ + seq![c.glyph]
}

/// The first `n` cells of row `y`.
pub open spec fn row_ansi(cells: Seq<Cell>, w: int, y: int, n: int) -> Seq<char>
    decreases n,
{
    if n <= 0 {
        seq![]
    } else {
        row_ansi(cells, w, y, n - 1) + cell_ansi(cells[y * w + n - 1])
    }
}

/// The first `n` rows, each but the last row of the frame followed by a
/// line break.
pub open spec fn rows_ansi(cells: Seq<Cell>, w: int, h: int, n: int) -> Seq<char>
    decreases n,
{
    if n <= 0 {
        seq![]
    } else {
        rows_ansi(cells, w, h, n - 1) + row_ansi(cells, w, n - 1, w) + if n - 1 < h - 1 {
            "\r\n"@
        } else {
            seq![]
        }
    }
}

/// The whole frame: cursor home, every row, then a color reset.
pub open spec fn ansi_image(cells: Seq<Cell>, w: int, h: int) -> Seq<char> {
    "\x1b[H"@ + rows_ansi(cells, w, h, h) + "\x1b[0m"@
}

/// Append the characters of `s`.
pub(crate) fn push_text(out: &mut Vec<char>, s: &str)
    ensures
        final(out)@ == old(out)@ + s@,
{
    let cs = chars_of(s);
    let ghost start = out@;
    let mut i: usize = 0;
    while i < cs.len()
        invariant
            cs@ == s@,
            i <= cs@.len(),
            out@ == start + cs@.take(i as int),
        decreases cs@.len() - i,
    {
        out.push(cs[i]);
        assert(cs@.take(i + 1) =~= cs@.take(i as int).push(cs@[i as int]));
        i = i + 1;
    }
    assert(cs@.take(cs@.len() as int) =~= cs@);
}

/// Append a color's code.
fn push_color(out: &mut Vec<char>, c: Rgb)
    ensures
        final(out)@ == old(out)@ + color_code(c),
{
    let r = decimal_string(c.0 as u32);
    push_text(out, r.as_str());
    push_text(out, ";");
    let g = decimal_string(c.1 as u32);
    push_text(out, g.as_str());
    push_text(out, ";");
    let b = decimal_string(c.2 as u32);
    push_text(out, b.as_str());
}

impl Frame {
    /// The grid covers the frame exactly.
    pub closed spec fn wf(&self) -> bool {
        &&& 0 <= self.width
        &&& 0 <= self.height
        &&& self.width * self.height <= i32::MAX
        &&& self.cells@.len() == self.width * self.height
    }

    pub closed spec fn spec_width(&self) -> int {
        self.width as int
    }

    pub closed spec fn spec_height(&self) -> int {
        self.height as int
    }

    /// The cells in row-major order.
    pub closed spec fn cell_seq(&self) -> Seq<Cell> {
        self.cells@
    }

    pub closed spec fn spec_mouse(&self) -> (i32, i32) {
        self.mouse_pos
    }

    /// Whether `(x, y)` is a cell of the frame.
    pub open spec fn in_frame(&self, x: int, y: int) -> bool {
        0 <= x < self.spec_width() && 0 <= y < self.spec_height()
    }

    /// The cell at `(x, y)`.
    pub open spec fn cell_at(&self, x: int, y: int) -> Cell {
        self.cell_seq()[y * self.spec_width() + x]
    }

    pub proof fn lemma_wf(&self)
        requires
            self.wf(),
        ensures
            0 <= self.spec_width() <= i32::MAX,
            0 <= self.spec_height() <= i32::MAX,
            self.spec_width() * self.spec_height() <= i32::MAX,
            self.cell_seq().len() == self.spec_width() * self.spec_height(),
    {
    }

    /// The row-major index of a cell of the frame is in range.
    proof fn lemma_index(&self, x: int, y: int)
        requires
            self.wf(),
            self.in_frame(x, y),
        ensures
            0 <= y * self.spec_width() + x < self.cell_seq().len(),
    {
        let w = self.spec_width();
        let h = self.spec_height();
        assert(0 <= y * w + x < w * h) by (nonlinear_arith)
            requires
                0 <= x < w,
                0 <= y < h,
        ;
    }

    /// Two cells of the frame share an index only if they are the same.
    proof fn lemma_index_injective(&self, x: int, y: int, x2: int, y2: int)
        requires
            self.wf(),
            self.in_frame(x, y),
            self.in_frame(x2, y2),
            x != x2 || y != y2,
        ensures
            y * self.spec_width() + x != y2 * self.spec_width() + x2,
    {
        let w = self.spec_width();
        if y == y2 {
        } else if y < y2 {
            assert(y * w + x < y2 * w + x2) by (nonlinear_arith)
                requires
                    0 <= x < w,
                    0 <= x2,
                    y < y2,
            ;
        } else {
            assert(y2 * w + x2 < y * w + x) by (nonlinear_arith)
                requires
                    0 <= x2 < w,
                    0 <= x,
                    y2 < y,
            ;
        }
    }

    /// A frame of blank cells.
    pub fn new(width: i32, height: i32) -> (f: Frame)
        requires
            0 <= width,
            0 <= height,
            width * height <= i32::MAX,
        ensures
            f.wf(),
            f.spec_width() == width,
            f.spec_height() == height,
            forall|x: int, y: int| f.in_frame(x, y) ==> #[trigger] f.cell_at(x, y) == blank_cell(),
            f.spec_mouse() == (0i32, 0i32),
    {
        assert(0 <= width * height) by (nonlinear_arith)
            requires
                0 <= width,
                0 <= height,
        ;
        let n = (width * height) as usize;
        let cells = vec![Cell::default(); n];
        let f = Frame { width, height, cells, mouse_pos: (0, 0) };
        assert forall|x: int, y: int| f.in_frame(x, y) implies #[trigger] f.cell_at(x, y) == blank_cell() by {
            f.lemma_index(x, y);
        }
        f
    }

    /// Blank every cell.
    pub fn clear(&mut self)
        requires
            old(self).wf(),
        ensures
            final(self).wf(),
            final(self).spec_width() == old(self).spec_width(),
            final(self).spec_height() == old(self).spec_height(),
            final(self).spec_mouse() == old(self).spec_mouse(),
            forall|x: int, y: int| final(self).in_frame(x, y) ==> #[trigger] final(self).cell_at(x, y) == blank_cell(),
    {
        let blank = Cell::default();
        let n = self.cells.len();
        let ghost w0 = self.width;
        let ghost h0 = self.height;
        let ghost m0 = self.mouse_pos;
        let mut i: usize = 0;
        while i < n
            invariant
                self.width == w0,
                self.height == h0,
                self.mouse_pos == m0,
                n == self.cells@.len(),
                0 <= self.width,
                0 <= self.height,
                self.width * self.height <= i32::MAX,
                self.cells@.len() == self.width * self.height,
                blank == blank_cell(),
                i <= n,
                forall|k: int| 0 <= k < i ==> #[trigger] self.cells@[k] == blank_cell(),
            decreases n - i,
        {
            self.cells.set(i, blank);
            i = i + 1;
        }
        assert forall|x: int, y: int| self.in_frame(x, y) implies #[trigger] self.cell_at(x, y) == blank_cell() by {
            self.lemma_index(x, y);
        }
    }

    /// Give the frame the new size (at least one by one), with blank cells;
    /// a frame that has that size already is left as it is.
    pub fn resize(&mut self, width: i32, height: i32)
        requires
            old(self).wf(),
            (if width < 1 {
                1
            } else {
                width as int
            }) * (if height < 1 {
                1
            } else {
                height as int
            }) <= i32::MAX,
        ensures
            final(self).wf(),
            final(self).spec_width() == (if width < 1 {
                1
            } else {
                width as int
            }),
            final(self).spec_height() == (if height < 1 {
                1
            } else {
                height as int
            }),
            final(self).spec_mouse() == old(self).spec_mouse(),
            old(self).spec_width() == final(self).spec_width() && old(self).spec_height() == final(self).spec_height()
                ==> final(self).cell_seq() == old(self).cell_seq(),
            !(old(self).spec_width() == final(self).spec_width() && old(self).spec_height() == final(self).spec_height())
                ==> forall|x: int, y: int| final(self).in_frame(x, y) ==> #[trigger] final(self).cell_at(x, y)
                == blank_cell(),
    {
        let width = if width < 1 {
            1
        } else {
            width
        };
        let height = if height < 1 {
            1
        } else {
            height
        };
        if self.width == width && self.height == height {
            return;
        }
        assert(0 <= width * height) by (nonlinear_arith)
            requires
                0 <= width,
                0 <= height,
        ;
        self.width = width;
        self.height = height;
        self.cells = vec![Cell::default(); (width * height) as usize];
        assert forall|x: int, y: int| self.in_frame(x, y) implies #[trigger] self.cell_at(x, y) == blank_cell() by {
            self.lemma_index(x, y);
        }
    }

    pub fn width(&self) -> (w: i32)
        ensures
            w == self.spec_width(),
    {
        self.width
    }

    pub fn height(&self) -> (h: i32)
        ensures
            h == self.spec_height(),
    {
        self.height
    }

    pub fn set_mouse_pos(&mut self, x: i32, y: i32)
        ensures
            final(self).spec_mouse() == (x, y),
            final(self).wf() == old(self).wf(),
            final(self).spec_width() == old(self).spec_width(),
            final(self).spec_height() == old(self).spec_height(),
            final(self).cell_seq() == old(self).cell_seq(),
    {
        self.mouse_pos = (x, y);
    }

    pub fn mouse_pos(&self) -> (p: (i32, i32))
        ensures
            p == self.spec_mouse(),
    {
        self.mouse_pos
    }

    /// The cell at `(x, y)`.
    pub fn cell(&self, x: i32, y: i32) -> (c: Cell)
        requires
            self.wf(),
            self.in_frame(x as int, y as int),
        ensures
            c == self.cell_at(x as int, y as int),
    {
        proof {
            self.lemma_index(x as int, y as int);
        }
        self.cells[(y * self.width + x) as usize]
    }

    /// Write one cell; positions outside the frame are ignored.
    pub fn set(&mut self, x: i32, y: i32, fg: Rgb, bg: Rgb, glyph: char)
        requires
            old(self).wf(),
        ensures
            final(self).wf(),
            final(self).spec_width() == old(self).spec_width(),
            final(self).spec_height() == old(self).spec_height(),
            final(self).spec_mouse() == old(self).spec_mouse(),
            forall|px: int, py: int|
                final(self).in_frame(px, py) ==> #[trigger] final(self).cell_at(px, py) == (if px == x && py == y {
                    Cell { glyph, fg, bg }
                } else {
                    old(self).cell_at(px, py)
                }),
    {
        if x < 0 || x >= self.width || y < 0 || y >= self.height {
            return;
        }
        proof {
            self.lemma_index(x as int, y as int);
        }
        let index = (y * self.width + x) as usize;
        let ghost before = *self;
        self.cells.set(index, Cell { glyph, fg, bg });
        proof {
            assert forall|px: int, py: int| self.in_frame(px, py) implies #[trigger] self.cell_at(px, py) == (if px == x
                && py == y {
                Cell { glyph, fg, bg }
            } else {
                before.cell_at(px, py)
            }) by {
                self.lemma_index(px, py);
                if px != x || py != y {
                    self.lemma_index_injective(px, py, x as int, y as int);
                }
            }
        }
    }

    /// Write the characters of `text` along row `y` from column `x`, all in
    /// the given colors; cells outside the frame are skipped.
    pub fn print_color(&mut self, x: i32, y: i32, fg: Rgb, bg: Rgb, text: &str)
        requires
            old(self).wf(),
            text@.len() <= i32::MAX,
            x + text@.len() <= i32::MAX + 1,
        ensures
            final(self).wf(),
            final(self).spec_width() == old(self).spec_width(),
            final(self).spec_height() == old(self).spec_height(),
            final(self).spec_mouse() == old(self).spec_mouse(),
            forall|px: int, py: int|
                final(self).in_frame(px, py) ==> #[trigger] final(self).cell_at(px, py) == (if py == y && x <= px < x
                    + text@.len() {
                    Cell { glyph: text@[px - x], fg, bg }
                } else {
                    old(self).cell_at(px, py)
                }),
    {
        let cs = chars_of(text);
        let ghost start = *self;
        let mut i: usize = 0;
        while i < cs.len()
            invariant
                cs@ == text@,
                cs@.len() <= i32::MAX,
                x + cs@.len() <= i32::MAX + 1,
                i <= cs@.len(),
                self.wf(),
                self.spec_width() == start.spec_width(),
                self.spec_height() == start.spec_height(),
                self.spec_mouse() == start.spec_mouse(),
                forall|px: int, py: int|
                    self.in_frame(px, py) ==> #[trigger] self.cell_at(px, py) == (if py == y && x <= px < x + i {
                        Cell { glyph: text@[px - x], fg, bg }
                    } else {
                        start.cell_at(px, py)
                    }),
            decreases cs@.len() - i,
        {
            let ghost before = *self;
            self.set(x + i as i32, y, fg, bg, cs[i]);
            proof {
                assert forall|px: int, py: int| self.in_frame(px, py) implies #[trigger] self.cell_at(px, py) == (if py
                    == y && x <= px < x + i + 1 {
                    Cell { glyph: text@[px - x], fg, bg }
                } else {
                    start.cell_at(px, py)
                }) by {
                    assert(before.in_frame(px, py));
                }
            }
            i = i + 1;
        }
    }

    /// The frame as text for a terminal: the cursor sent home, then each cell
    /// as its 24-bit colors and glyph, rows separated by line breaks, and the
    /// colors reset at the end.
    pub fn to_ansi_string(&self) -> (s: String)
        requires
            self.wf(),
        ensures
            s@ == ansi_image(self.cell_seq(), self.spec_width(), self.spec_height()),
    {
        let ghost cells = self.cells@;
        let ghost w = self.width as int;
        let ghost h = self.height as int;
        let mut out: Vec<char> = Vec::new();
        push_text(&mut out, "\x1b[H");
        let mut y: i32 = 0;
        while y < self.height
            invariant
                self.wf(),
                cells == self.cells@,
                w == self.width,
                h == self.height,
                0 <= y <= h,
                out@ == "\x1b[H"@ + rows_ansi(cells, w, h, y as int),
            decreases h - y,
        {
            let ghost row_start = out@;
            let mut x: i32 = 0;
            while x < self.width
                invariant
                    self.wf(),
                    cells == self.cells@,
                    w == self.width,
                    h == self.height,
                    0 <= y < h,
                    0 <= x <= w,
                    out@ == row_start + row_ansi(cells, w, y as int, x as int),
                decreases w - x,
            {
                proof {
                    self.lemma_index(x as int, y as int);
                }
                let cell = self.cells[(y * self.width + x) as usize];
                push_text(&mut out, "\x1b[38;2;");
                push_color(&mut out, cell.fg);
                push_text(&mut out, ";48;2;");
                push_color(&mut out, cell.bg);
                push_text(&mut out, "m");
                out.push(cell.glyph);
                proof {
                    assert(out@ =~= row_start + row_ansi(cells, w, y as int, x + 1));
                }
                x = x + 1;
            }
            if y < self.height - 1 {
                push_text(&mut out, "\r\n");
            }
            proof {
                assert(out@ =~= "\x1b[H"@ + rows_ansi(cells, w, h, y + 1));
            }
            y = y + 1;
        }
        push_text(&mut out, "\x1b[0m");
        string_from_chars(out.as_slice())
    }
}

} // verus!
