//! Text layout for the panels: splitting into lines, word wrapping,
//! clipping, and where the console cursor lands in wrapped text.

use vstd::prelude::*;

use crate::console::{contains_text, has_infix};
use crate::event_log::{entries_view, LogEntry};
use crate::text::{chars_of, is_whitespace, str_eq, string_from_chars, unicode_whitespace};

verus! {

// ---------------------------------------------------------------------------
// Lines

/// The line that starts at `i`, without its `\n` and without one `\r` right
/// before it.
pub open spec fn line_at(s: Seq<char>, i: int) -> Seq<char> {
    let e = line_end(s, i);
    if e > i && s[e - 1] == '\r' {
        s.subrange(i, e - 1)
    } else {
        s.subrange(i, e)
    }
}

/// The position of the first `\n` at or after `i`, or the end.
pub open spec fn line_end(s: Seq<char>, i: int) -> int
    decreases s.len() - i,
{
    if 0 <= i < s.len() && s[i] != '\n' {
        line_end(s, i + 1)
    } else {
        i
    }
}

/// The lines of `s` from position `i` on, as `str::lines` splits them: at
/// each `\n`, with a final `\n` ending the last line rather than starting an
/// empty one.
pub open spec fn lines_from(s: Seq<char>, i: int) -> Seq<Seq<char>>
    decreases s.len() - i,
{
    if 0 <= i < s.len() {
        let e = line_end(s, i);
        if i <= e < s.len() {
            seq![line_at(s, i)] + lines_from(s, e + 1)
        } else {
            seq![line_at(s, i)]
        }
    } else {
        seq![]
    }
}

pub open spec fn text_lines(s: Seq<char>) -> Seq<Seq<char>> {
    lines_from(s, 0)
}

pub proof fn lemma_line_end(s: Seq<char>, i: int)
    requires
        0 <= i <= s.len(),
    ensures
        i <= line_end(s, i) <= s.len(),
        forall|k: int| i <= k < line_end(s, i) ==> #[trigger] s[k] != '\n',
        line_end(s, i) < s.len() ==> s[line_end(s, i)] == '\n',
    decreases s.len() - i,
{
    if i < s.len() && s[i] != '\n' {
        lemma_line_end(s, i + 1);
    }
}

fn find_line_end(cs: &Vec<char>, i: usize) -> (e: usize)
    requires
        i <= cs@.len(),
    ensures
        e == line_end(cs@, i as int),
        i <= e <= cs@.len(),
{
    let mut e = i;
    while e < cs.len() && cs[e] != '\n'
        invariant
            i <= e <= cs@.len(),
            line_end(cs@, e as int) == line_end(cs@, i as int),
        decreases cs.len() - e,
    {
        e = e + 1;
    }
    e
}

/// The lines of a text, split as `str::lines` does.
pub fn split_lines(cs: &Vec<char>) -> (lines: Vec<Vec<char>>)
    ensures
        lines@.map_values(|l: Vec<char>| l@) == text_lines(cs@),
{
    let ghost s = cs@;
    let mut lines: Vec<Vec<char>> = Vec::new();
    let mut i: usize = 0;
    while i < cs.len()
        invariant
            i <= cs@.len(),
            s == cs@,
            lines@.map_values(|l: Vec<char>| l@) + lines_from(s, i as int) == text_lines(s),
        decreases cs.len() - i,
    {
        let e = find_line_end(cs, i);
        let stop = if e > i && cs[e - 1] == '\r' {
            e - 1
        } else {
            e
        };
        let mut line: Vec<char> = Vec::new();
        let mut k = i;
        while k < stop
            invariant
                i <= k <= stop,
                stop <= cs@.len(),
                line@ == s.subrange(i as int, k as int),
                s == cs@,
            decreases stop - k,
        {
            line.push(cs[k]);
            k = k + 1;
            assert(line@ =~= s.subrange(i as int, k as int));
        }
        let ghost before = lines@;
        lines.push(line);
        proof {
            assert(lines@.map_values(|l: Vec<char>| l@) =~= before.map_values(|l: Vec<char>| l@).push(
                line_at(s, i as int),
            ));
            lemma_line_end(s, i as int);
            let nx: int = if e < s.len() { e + 1 } else { e as int };
            assert(lines_from(s, i as int) =~= seq![line_at(s, i as int)] + lines_from(s, nx));
            assert(lines@.map_values(|l: Vec<char>| l@) + lines_from(s, nx) =~= before.map_values(
                |l: Vec<char>| l@,
            ) + lines_from(s, i as int));
        }
        i = if e < cs.len() {
            e + 1
        } else {
            e
        };
    }
    assert(lines@.map_values(|l: Vec<char>| l@) =~= lines@.map_values(|l: Vec<char>| l@) + lines_from(
        s,
        i as int,
    ));
    lines
}

// ---------------------------------------------------------------------------
// Trimming

/// Without leading whitespace.
pub open spec fn trim_front(s: Seq<char>) -> Seq<char>
    decreases s.len(),
{
    if s.len() > 0 && unicode_whitespace(s[0]) {
        trim_front(s.subrange(1, s.len() as int))
    } else {
        s
    }
}

/// Without trailing whitespace.
pub open spec fn trim_back(s: Seq<char>) -> Seq<char>
    decreases s.len(),
{
    if s.len() > 0 && unicode_whitespace(s.last()) {
        trim_back(s.drop_last())
    } else {
        s
    }
}

pub proof fn lemma_trim_front_len(s: Seq<char>)
    ensures
        trim_front(s).len() <= s.len(),
        s.len() > 0 && unicode_whitespace(s[0]) ==> trim_front(s).len() < s.len(),
    decreases s.len(),
{
    if s.len() > 0 && unicode_whitespace(s[0]) {
        lemma_trim_front_len(s.subrange(1, s.len() as int));
    }
}

fn trim_front_exec(s: &Vec<char>, from: usize) -> (r: Vec<char>)
    requires
        from <= s@.len(),
    ensures
        r@ == trim_front(s@.subrange(from as int, s@.len() as int)),
{
    let mut a = from;
    while a < s.len() && is_whitespace(s[a])
        invariant
            from <= a <= s@.len(),
            trim_front(s@.subrange(a as int, s@.len() as int)) == trim_front(s@.subrange(
                from as int,
                s@.len() as int,
            )),
        decreases s.len() - a,
    {
        assert(s@.subrange(a as int, s@.len() as int).subrange(1, s@.len() - a) =~= s@.subrange(
            a + 1,
            s@.len() as int,
        ));
        a = a + 1;
    }
    let mut r: Vec<char> = Vec::new();
    let mut k = a;
    while k < s.len()
        invariant
            a <= k <= s@.len(),
            r@ == s@.subrange(a as int, k as int),
        decreases s.len() - k,
    {
        r.push(s[k]);
        k = k + 1;
        assert(r@ =~= s@.subrange(a as int, k as int));
    }
    r
}

fn trim_back_prefix(s: &Vec<char>, to: usize) -> (r: Vec<char>)
    requires
        to <= s@.len(),
    ensures
        r@ == trim_back(s@.subrange(0, to as int)),
{
    let mut b = to;
    while b > 0 && is_whitespace(s[b - 1])
        invariant
            b <= to,
            to <= s@.len(),
            trim_back(s@.subrange(0, b as int)) == trim_back(s@.subrange(0, to as int)),
        decreases b,
    {
        assert(s@.subrange(0, b as int).drop_last() =~= s@.subrange(0, b - 1));
        b = b - 1;
    }
    let mut r: Vec<char> = Vec::new();
    let mut k: usize = 0;
    while k < b
        invariant
            k <= b,
            b <= s@.len(),
            r@ == s@.subrange(0, k as int),
        decreases b - k,
    {
        r.push(s[k]);
        k = k + 1;
        assert(r@ =~= s@.subrange(0, k as int));
    }
    r
}

// ---------------------------------------------------------------------------
// Word wrapping

/// The last whitespace among the first `w` characters, as a position, or
/// `-1` when there is none.
pub open spec fn last_space_before(s: Seq<char>, w: int) -> int
    decreases w,
{
    if w <= 0 {
        -1
    } else if w <= s.len() && unicode_whitespace(s[w - 1]) {
        w - 1
    } else {
        last_space_before(s, w - 1)
    }
}

pub proof fn lemma_last_space(s: Seq<char>, w: int)
    requires
        0 <= w <= s.len(),
    ensures
        -1 <= last_space_before(s, w) < w,
        last_space_before(s, w) >= 0 ==> unicode_whitespace(s[last_space_before(s, w)]),
    decreases w,
{
    if w > 0 && !unicode_whitespace(s[w - 1]) {
        lemma_last_space(s, w - 1);
    }
}

/// Where a line longer than `w` is cut: at its last whitespace among the
/// first `w` characters, else after `w` characters.
pub open spec fn wrap_cut(s: Seq<char>, w: int) -> int {
    if last_space_before(s, w) >= 0 {
        last_space_before(s, w)
    } else {
        w
    }
}

/// The rows of one non-empty line wrapped at width `w`: while the rest is
/// longer than `w`, cut it, keep the part before the cut without trailing
/// whitespace, and go on with the part after it without leading whitespace.
pub open spec fn wrap_rest(s: Seq<char>, w: int) -> Seq<Seq<char>>
    decreases s.len(),
{
    if w <= 0 || s.len() <= w {
        seq![s]
    } else {
        let cut = wrap_cut(s, w);
        let rest = trim_front(s.subrange(cut, s.len() as int));
        proof {
            lemma_wrap_rest_shrinks(s, w);
        }
        seq![trim_back(s.subrange(0, cut))] + wrap_rest(rest, w)
    }
}

pub proof fn lemma_wrap_rest_shrinks(s: Seq<char>, w: int)
    requires
        0 < w < s.len(),
    ensures
        0 <= wrap_cut(s, w) <= w,
        trim_front(s.subrange(wrap_cut(s, w), s.len() as int)).len() < s.len(),
{
    lemma_last_space(s, w);
    let cut = wrap_cut(s, w);
    let tail = s.subrange(cut, s.len() as int);
    lemma_trim_front_len(tail);
    if cut == 0 {
        assert(tail =~= s);
        assert(unicode_whitespace(tail[0]));
    }
}

/// The rows of a text wrapped at `w` columns: each line wrapped on its own,
/// an empty line kept as an empty row; nothing at all for width zero.
pub open spec fn wrapped(s: Seq<char>, w: int) -> Seq<Seq<char>> {
    if w == 0 {
        seq![]
    } else {
        wrap_lines(text_lines(s), w, text_lines(s).len() as int)
    }
}

pub open spec fn wrap_lines(lines: Seq<Seq<char>>, w: int, n: int) -> Seq<Seq<char>>
    decreases n,
{
    if n <= 0 {
        seq![]
    } else {
        wrap_lines(lines, w, n - 1) + if lines[n - 1].len() == 0 {
            seq![Seq::<char>::empty()]
        } else {
            wrap_rest(lines[n - 1], w)
        }
    }
}

pub open spec fn strings_view(v: Seq<String>) -> Seq<Seq<char>> {
    v.map_values(|s: String| s@)
}

fn push_string(out: &mut Vec<String>, cs: &Vec<char>)
    ensures
        strings_view(final(out)@) == strings_view(old(out)@).push(cs@),
{
    let s = string_from_chars(cs.as_slice());
    out.push(s);
    assert(strings_view(out@) =~= strings_view(old(out)@).push(cs@));
}

/// Wraps one non-empty line, appending its rows.
fn wrap_line_into(out: &mut Vec<String>, line: Vec<char>, w: usize)
    requires
        w > 0,
    ensures
        strings_view(final(out)@) == strings_view(old(out)@) + wrap_rest(line@, w as int),
{
    let ghost base = strings_view(out@);
    let ghost goal = wrap_rest(line@, w as int);
    let mut rem = line;
    while rem.len() > w
        invariant
            w > 0,
            strings_view(out@) + wrap_rest(rem@, w as int) == base + goal,
        decreases rem@.len(),
    {
        let ghost r = rem@;
        let mut last_space: usize = 0;
        let mut found = false;
        let mut k: usize = 0;
        while k < w
            invariant
                k <= w,
                w < rem@.len(),
                r == rem@,
                found ==> last_space < k && unicode_whitespace(r[last_space as int]),
                forall|q: int| (if found { last_space as int } else { -1 }) < q < k ==> !unicode_whitespace(#[trigger] r[q]),
            decreases w - k,
        {
            if is_whitespace(rem[k]) {
                last_space = k;
                found = true;
            }
            k = k + 1;
        }
        proof {
            lemma_last_space_is(r, w as int, if found { last_space as int } else { -1 });
        }
        let cut = if found {
            last_space
        } else {
            w
        };
        let head = trim_back_prefix(&rem, cut);
        let tail = trim_front_exec(&rem, cut);
        proof {
            lemma_wrap_rest_shrinks(r, w as int);
        }
        let ghost before = strings_view(out@);
        push_string(out, &head);
        proof {
            assert(wrap_rest(r, w as int) == seq![head@] + wrap_rest(tail@, w as int));
            assert(strings_view(out@) + wrap_rest(tail@, w as int) =~= before + wrap_rest(r, w as int));
        }
        rem = tail;
    }
    let ghost before = strings_view(out@);
    push_string(out, &rem);
    assert(strings_view(out@) =~= before + wrap_rest(rem@, w as int));
}

proof fn lemma_last_space_is(s: Seq<char>, w: int, j: int)
    requires
        0 <= w <= s.len(),
        -1 <= j < w,
        j >= 0 ==> unicode_whitespace(s[j]),
        forall|q: int| j < q < w ==> !unicode_whitespace(#[trigger] s[q]),
    ensures
        last_space_before(s, w) == j,
    decreases w,
{
    if w > 0 && w - 1 != j {
        assert(!unicode_whitespace(s[w - 1]));
        lemma_last_space_is(s, w - 1, j);
    }
}

/// A text wrapped at `max_width` columns, preferring to break at whitespace.
pub fn wrap_text(text: &str, max_width: usize) -> (rows: Vec<String>)
    ensures
        strings_view(rows@) == wrapped(text@, max_width as int),
{
    let mut rows: Vec<String> = Vec::new();
    if max_width == 0 {
        assert(strings_view(rows@) =~= Seq::<Seq<char>>::empty());
        return rows;
    }
    let cs = chars_of(text);
    let lines = split_lines(&cs);
    let ghost ls = text_lines(text@);
    let mut i: usize = 0;
    assert(strings_view(rows@) =~= Seq::<Seq<char>>::empty());
    while i < lines.len()
        invariant
            i <= lines@.len(),
            max_width > 0,
            lines@.map_values(|l: Vec<char>| l@) == ls,
            ls == text_lines(text@),
            strings_view(rows@) == wrap_lines(ls, max_width as int, i as int),
        decreases lines.len() - i,
    {
        let line = lines[i].clone();
        assert(line@ == ls[i as int]);
        if line.len() == 0 {
            let empty: Vec<char> = Vec::new();
            push_string(&mut rows, &empty);
        } else {
            wrap_line_into(&mut rows, line, max_width);
        }
        i = i + 1;
    }
    rows
}

/// Each line of a text cut to at most `max_width` characters.
pub open spec fn clipped(s: Seq<char>, w: int) -> Seq<Seq<char>> {
    text_lines(s).map_values(|l: Seq<char>| if l.len() <= w { l } else { l.subrange(0, w) })
}

pub fn clipped_lines(text: &str, max_width: usize) -> (rows: Vec<String>)
    ensures
        strings_view(rows@) == clipped(text@, max_width as int),
{
    let cs = chars_of(text);
    let lines = split_lines(&cs);
    let ghost ls = text_lines(text@);
    let mut rows: Vec<String> = Vec::new();
    let mut i: usize = 0;
    while i < lines.len()
        invariant
            i <= lines@.len(),
            lines@.map_values(|l: Vec<char>| l@) == ls,
            ls == text_lines(text@),
            strings_view(rows@) == clipped(text@, max_width as int).subrange(0, i as int),
        decreases lines.len() - i,
    {
        let line = &lines[i];
        let n = if line.len() <= max_width {
            line.len()
        } else {
            max_width
        };
        let mut row: Vec<char> = Vec::new();
        let mut k: usize = 0;
        while k < n
            invariant
                k <= n,
                n <= line@.len(),
                row@ == line@.subrange(0, k as int),
            decreases n - k,
        {
            row.push(line[k]);
            k = k + 1;
            assert(row@ =~= line@.subrange(0, k as int));
        }
        let ghost before = strings_view(rows@);
        push_string(&mut rows, &row);
        proof {
            assert(line@ == ls[i as int]);
            assert(row@ =~= (if line@.len() <= max_width { line@ } else { line@.subrange(0, max_width as int) }));
            assert(strings_view(rows@) =~= clipped(text@, max_width as int).subrange(0, i + 1));
        }
        i = i + 1;
    }
    assert(clipped(text@, max_width as int).subrange(0, i as int) =~= clipped(text@, max_width as int));
    rows
}

/// Where the console cursor shows in the console text wrapped at
/// `max_width`: the row and column of the end of the text before the cursor
/// (in characters).
pub open spec fn cursor_spot(s: Seq<char>, cursor: int, w: int) -> (int, int) {
    let prefix = s.subrange(0, if cursor <= s.len() { cursor } else { s.len() as int });
    let rows = wrapped(prefix, w);
    (if rows.len() > 0 { rows.len() - 1 } else { 0 }, if rows.len() > 0 { rows.last().len() as int } else { 0 })
}

pub fn cursor_visual_pos(text: &str, cursor: usize, max_width: usize) -> (pos: (usize, usize))
    ensures
        pos.0 == cursor_spot(text@, cursor as int, max_width as int).0,
        pos.1 == cursor_spot(text@, cursor as int, max_width as int).1,
{
    let cs = chars_of(text);
    let end = if cursor <= cs.len() {
        cursor
    } else {
        cs.len()
    };
    let prefix = string_from_chars(vstd::slice::slice_subrange(cs.as_slice(), 0, end));
    let rows = wrap_text(prefix.as_str(), max_width);
    let line = if rows.len() > 0 {
        rows.len() - 1
    } else {
        0
    };
    let col = if rows.len() > 0 {
        let last = chars_of(rows[rows.len() - 1].as_str());
        proof {
            assert(strings_view(rows@)[rows@.len() - 1] == rows@[rows@.len() - 1]@);
        }
        last.len()
    } else {
        0
    };
    (line, col)
}

/// Whether console output is a Glyph syntax-error report, which is shown
/// clipped rather than reflowed.
pub fn is_diagnostic_output(text: &str) -> (b: bool)
    ensures
        b == (has_infix(text@, "Error: syntax error"@) && has_infix(text@, "[glyph:"@)),
{
    let cs = chars_of(text);
    contains_text(&cs, "Error: syntax error") && contains_text(&cs, "[glyph:")
}

/// How a bound key is shown: `>` and `<` as the keys that type them.
pub fn display_key(key: &str) -> (s: &str)
    ensures
        s@ == if key@ == ">"@ {
            "shift+."@
        } else if key@ == "<"@ {
            "shift+,"@
        } else {
            key@
        },
{
    if str_eq(key, ">") {
        "shift+."
    } else if str_eq(key, "<") {
        "shift+,"
    } else {
        key
    }
}


/// The rows of log entries wrapped at `w`, each row with its entry's color.
pub open spec fn wrapped_entries(e: Seq<(Seq<char>, Option<(u8, u8, u8)>)>, w: int, n: int) -> Seq<(Seq<char>, Option<(u8, u8, u8)>)>
    decreases n,
{
    if n <= 0 {
        seq![]
    } else {
        wrapped_entries(e, w, n - 1) + wrapped(e[n - 1].0, w).map_values(|r: Seq<char>| (r, e[n - 1].1))
    }
}

/// Log entries wrapped at `max_width` columns, keeping each entry's color
/// on all of its rows.
pub fn wrapped_log_lines(entries: &[LogEntry], max_width: usize) -> (rows: Vec<LogEntry>)
    ensures
        entries_view(rows@) == wrapped_entries(entries_view(entries@), max_width as int, entries@.len() as int),
{
    let ghost ev = entries_view(entries@);
    let mut rows: Vec<LogEntry> = Vec::new();
    let mut i: usize = 0;
    assert(entries_view(rows@) =~= Seq::<(Seq<char>, Option<(u8, u8, u8)>)>::empty());
    while i < entries.len()
        invariant
            i <= entries@.len(),
            ev == entries_view(entries@),
            entries_view(rows@) == wrapped_entries(ev, max_width as int, i as int),
        decreases entries.len() - i,
    {
        let entry = &entries[i];
        let parts = wrap_text(entry.text.as_str(), max_width);
        let ghost before = entries_view(rows@);
        let ghost pv = strings_view(parts@);
        assert(ev[i as int] == (entry.text@, entry.color));
        let mut k: usize = 0;
        while k < parts.len()
            invariant
                k <= parts@.len(),
                pv == strings_view(parts@),
                entries_view(rows@) == before + pv.subrange(0, k as int).map_values(|r: Seq<char>| (r, entry.color)),
            decreases parts.len() - k,
        {
            let text = parts[k].clone();
            let row = LogEntry { text, color: entry.color };
            let ghost prev = rows@;
            rows.push(row);
            proof {
                assert(entries_view(rows@) =~= entries_view(prev).push((pv[k as int], entry.color)));
                assert(pv.subrange(0, k + 1).map_values(|r: Seq<char>| (r, entry.color)) =~= pv.subrange(
                    0,
                    k as int,
                ).map_values(|r: Seq<char>| (r, entry.color)).push((pv[k as int], entry.color)));
            }
            k = k + 1;
        }
        proof {
            assert(pv.subrange(0, pv.len() as int) =~= pv);
        }
        i = i + 1;
    }
    rows
}

} // verus!
