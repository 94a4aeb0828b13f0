//! The console's input line: editing, word-wise cursor moves, history, and
//! closing the brackets a submitted expression leaves open.

use vstd::prelude::*;

use crate::text::{
    ascii_alphanumeric, chars_of, is_alphanumeric, is_whitespace, str_eq, string_from_chars, to_lowercase, unicode_alphanumeric,
    lowercase, unicode_whitespace,
};

verus! {

// ---------------------------------------------------------------------------
// Auto-closing brackets

/// Where the bracket scanner is: in code, in a string literal, right after
/// a backslash in a string, or in a line comment.
#[derive(Clone, Copy, Debug, PartialEq, Eq, Structural)]
pub enum ScanMode {
    Code,
    InString,
    Escaped,
    Comment,
}

/// One character of the bracket scanner: the closers still owed (innermost
/// last) and the mode after `c`.
pub open spec fn close_step(st: (Seq<char>, ScanMode), c: char) -> (Seq<char>, ScanMode) {
    let stack = st.0;
    match st.1 {
        ScanMode::InString => if c == '"' {
            (stack, ScanMode::Code)
        } else if c == '\\' {
            (stack, ScanMode::Escaped)
        } else {
            (stack, ScanMode::InString)
        },
        ScanMode::Escaped => (stack, ScanMode::InString),
        ScanMode::Comment => if c == '\n' {
            (stack, ScanMode::Code)
        } else {
            (stack, ScanMode::Comment)
        },
        ScanMode::Code => if c == '(' {
            (stack.push(')'), ScanMode::Code)
        } else if c == '[' {
            (stack.push(']'), ScanMode::Code)
        } else if c == '{' {
            (stack.push('}'), ScanMode::Code)
        } else if c == ')' || c == ']' || c == '}' {
            (if stack.len() > 0 {
                stack.drop_last()
            } else {
                stack
            }, ScanMode::Code)
        } else if c == '"' {
            (stack, ScanMode::InString)
        } else if c == ';' {
            (stack, ScanMode::Comment)
        } else {
            (stack, ScanMode::Code)
        },
    }
}

/// The scanner's state after the first `n` characters.
pub open spec fn close_scan(s: Seq<char>, n: int) -> (Seq<char>, ScanMode)
    decreases n,
{
    if n <= 0 {
        (seq![], ScanMode::Code)
    } else {
        close_step(close_scan(s, n - 1), s[n - 1])
    }
}

/// The source with the closers of its unmatched `(`, `[` and `{` appended,
/// innermost first. Brackets in string literals and line comments do not
/// count; closers without an opener are ignored.
pub open spec fn auto_closed(s: Seq<char>) -> Seq<char> {
    s + close_scan(s, s.len() as int).0.reverse()
}

/// Appends the closers of the unmatched brackets of `s`.
pub fn auto_close(s: &str) -> (r: String)
    ensures
        r@ == auto_closed(s@),
{
    let cs = chars_of(s);
    let mut stack: Vec<char> = Vec::new();
    let mut mode = ScanMode::Code;
    let mut i: usize = 0;
    while i < cs.len()
        invariant
            i <= cs@.len(),
            cs@ == s@,
            (stack@, mode) == close_scan(s@, i as int),
        decreases cs.len() - i,
    {
        let c = cs[i];
        match mode {
            ScanMode::InString => {
                if c == '"' {
                    mode = ScanMode::Code;
                } else if c == '\\' {
                    mode = ScanMode::Escaped;
                }
            },
            ScanMode::Escaped => {
                mode = ScanMode::InString;
            },
            ScanMode::Comment => {
                if c == '\n' {
                    mode = ScanMode::Code;
                }
            },
            ScanMode::Code => {
                if c == '(' {
                    stack.push(')');
                } else if c == '[' {
                    stack.push(']');
                } else if c == '{' {
                    stack.push('}');
                } else if c == ')' || c == ']' || c == '}' {
                    if stack.len() > 0 {
                        stack.pop();
                    }
                } else if c == '"' {
                    mode = ScanMode::InString;
                } else if c == ';' {
                    mode = ScanMode::Comment;
                }
            },
        }
        i = i + 1;
    }
    let mut out = cs;
    let ghost base = out@;
    let mut k = stack.len();
    while k > 0
        invariant
            k <= stack@.len(),
            out@ == base + stack@.subrange(k as int, stack@.len() as int).reverse(),
        decreases k,
    {
        k = k - 1;
        out.push(stack[k]);
        assert(out@ =~= base + stack@.subrange(k as int, stack@.len() as int).reverse());
    }
    assert(stack@.subrange(0, stack@.len() as int) =~= stack@);
    string_from_chars(out.as_slice())
}

// ---------------------------------------------------------------------------
// The input line

/// Characters that belong to a word for word-wise moves and deletes: the
/// alphanumeric ones (of ASCII, the letters and digits) and the symbols
/// Lisp names use.
pub open spec fn console_word_char(c: char) -> bool {
    (if (c as int) < 128 {
        ascii_alphanumeric(c)
    } else {
        unicode_alphanumeric(c)
    }) || c == '_' || c == '-' || c == '?' || c == '!' || c == '*' || c == '/'
        || c == '+' || c == '<' || c == '>' || c == '='
}

/// A character of a Lisp name in ASCII: a letter, a digit, or one of
/// `_ - ? ! * / + < > =`.
pub open spec fn lisp_name_char(c: char) -> bool {
    ||| 'a' <= c <= 'z'
    ||| 'A' <= c <= 'Z'
    ||| '0' <= c <= '9'
    ||| c == '_' || c == '-' || c == '?' || c == '!' || c == '*' || c == '/' || c == '+' || c == '<' || c == '>'
        || c == '='
}

/// On ASCII text the word characters are exactly the characters of Lisp
/// names.
pub proof fn lemma_word_chars(c: char)
    ensures
        (c as int) < 128 ==> (console_word_char(c) <==> lisp_name_char(c)),
        lisp_name_char(c) ==> console_word_char(c),
{
}

proof fn lemma_back_over_name(a: Seq<char>, b: Seq<char>, pos: int)
    requires
        a.len() <= pos <= a.len() + b.len(),
        forall|i: int| 0 <= i < b.len() ==> lisp_name_char(#[trigger] b[i]),
        a.len() == 0 || ((a.last() as int) < 128 && !lisp_name_char(a.last())),
    ensures
        back_while(a + b, pos, true) == a.len(),
    decreases pos,
{
    let s = a + b;
    if pos > a.len() {
        assert(s[pos - 1] == b[pos - 1 - a.len()]);
        lemma_word_chars(s[pos - 1]);
        lemma_back_over_name(a, b, pos - 1);
    } else if pos > 0 {
        assert(s[pos - 1] == a.last());
        lemma_word_chars(a.last());
    }
}

/// The word before the end of a line that ends in a Lisp name is that whole
/// name, back to the character before it that is not part of a name: a
/// word-wise move or delete at the end of `(flee-step!` takes `flee-step!`.
pub proof fn lemma_prev_word_takes_name(a: Seq<char>, b: Seq<char>)
    requires
        b.len() > 0,
        forall|i: int| 0 <= i < b.len() ==> lisp_name_char(#[trigger] b[i]),
        a.len() == 0 || ((a.last() as int) < 128 && !lisp_name_char(a.last())),
    ensures
        prev_word(a + b, (a + b).len() as int) == a.len(),
{
    let s = a + b;
    assert(s[s.len() - 1] == b[b.len() - 1]);
    lemma_word_chars(s[s.len() - 1]);
    assert(back_while(s, s.len() as int, false) == s.len());
    lemma_back_over_name(a, b, s.len() as int);
}

pub fn is_console_word_char(c: char) -> (b: bool)
    ensures
        b == console_word_char(c),
        (c as int) < 128 ==> (b <==> lisp_name_char(c)),
{
    proof {
        lemma_word_chars(c);
    }
    is_alphanumeric(c) || c == '_' || c == '-' || c == '?' || c == '!' || c == '*' || c == '/' || c == '+'
        || c == '<' || c == '>' || c == '='
}

/// Moving back from `pos` over characters whose word-ness is `word`.
pub open spec fn back_while(s: Seq<char>, pos: int, word: bool) -> int
    decreases pos,
{
    if 0 < pos <= s.len() && console_word_char(s[pos - 1]) == word {
        back_while(s, pos - 1, word)
    } else {
        pos
    }
}

/// Moving forward from `pos` over characters whose word-ness is `word`.
pub open spec fn fwd_while(s: Seq<char>, pos: int, word: bool) -> int
    decreases s.len() - pos,
{
    if 0 <= pos < s.len() && console_word_char(s[pos]) == word {
        fwd_while(s, pos + 1, word)
    } else {
        pos
    }
}

/// The start of the word before `pos`: back over separators, then over the
/// word.
pub open spec fn prev_word(s: Seq<char>, pos: int) -> int {
    back_while(s, back_while(s, pos, false), true)
}

/// The end of the word after `pos`: forward over separators, then over the
/// word.
pub open spec fn next_word(s: Seq<char>, pos: int) -> int {
    fwd_while(s, fwd_while(s, pos, false), true)
}

proof fn lemma_back_while(s: Seq<char>, pos: int, word: bool)
    requires
        0 <= pos <= s.len(),
    ensures
        0 <= back_while(s, pos, word) <= pos,
    decreases pos,
{
    if 0 < pos && console_word_char(s[pos - 1]) == word {
        lemma_back_while(s, pos - 1, word);
    }
}

proof fn lemma_fwd_while(s: Seq<char>, pos: int, word: bool)
    requires
        0 <= pos <= s.len(),
    ensures
        pos <= fwd_while(s, pos, word) <= s.len(),
    decreases s.len() - pos,
{
    if pos < s.len() && console_word_char(s[pos]) == word {
        lemma_fwd_while(s, pos + 1, word);
    }
}

fn scan_back(s: &Vec<char>, pos: usize, word: bool) -> (r: usize)
    requires
        pos <= s@.len(),
    ensures
        r == back_while(s@, pos as int, word),
        r <= pos,
{
    let mut p = pos;
    while p > 0 && is_console_word_char(s[p - 1]) == word
        invariant
            p <= pos,
            pos <= s@.len(),
            back_while(s@, p as int, word) == back_while(s@, pos as int, word),
        decreases p,
    {
        p = p - 1;
    }
    p
}

fn scan_fwd(s: &Vec<char>, pos: usize, word: bool) -> (r: usize)
    requires
        pos <= s@.len(),
    ensures
        r == fwd_while(s@, pos as int, word),
        pos <= r <= s@.len(),
{
    let mut p = pos;
    while p < s.len() && is_console_word_char(s[p]) == word
        invariant
            pos <= p <= s@.len(),
            fwd_while(s@, p as int, word) == fwd_while(s@, pos as int, word),
        decreases s@.len() - p,
    {
        p = p + 1;
    }
    p
}

/// The line being typed in the console, with its cursor and the history of
/// submitted lines.
pub struct ConsoleInput {
    buffer: Vec<char>,
    cursor: usize,
    history: Vec<String>,
    /// How many entries back in history the line shows; 0 for the draft.
    history_index: usize,
    /// What was typed before browsing the history.
    draft: Vec<char>,
}

impl ConsoleInput {
    pub closed spec fn spec_buffer(&self) -> Seq<char> {
        self.buffer@
    }

    pub closed spec fn spec_cursor(&self) -> int {
        self.cursor as int
    }

    pub closed spec fn spec_history(&self) -> Seq<Seq<char>> {
        self.history@.map_values(|h: String| h@)
    }

    pub closed spec fn spec_history_index(&self) -> int {
        self.history_index as int
    }

    pub closed spec fn spec_draft(&self) -> Seq<char> {
        self.draft@
    }

    /// The cursor lies within the line and the history position within the
    /// history.
    pub closed spec fn wf(&self) -> bool {
        &&& self.cursor <= self.buffer@.len()
        &&& self.history_index <= self.history@.len()
    }

    /// The cursor and the history position are never negative.
    pub proof fn lemma_positions_nonneg(&self)
        ensures
            self.spec_cursor() >= 0,
            self.spec_history_index() >= 0,
    {
    }

    /// An empty line with the given history (oldest first).
    pub fn new(history: Vec<String>) -> (c: ConsoleInput)
        ensures
            c.wf(),
            c.spec_buffer() == Seq::<char>::empty(),
            c.spec_cursor() == 0,
            c.spec_history() == history@.map_values(|h: String| h@),
            c.spec_history_index() == 0,
    {
        ConsoleInput { buffer: Vec::new(), cursor: 0, history, history_index: 0, draft: Vec::new() }
    }

    /// Empties the line once it is submitted: no text, the cursor at the
    /// start, the history position back on the draft and the draft empty.
    pub fn clear_line(&mut self)
        ensures
            final(self).wf(),
            final(self).spec_buffer() == Seq::<char>::empty(),
            final(self).spec_cursor() == 0,
            final(self).spec_history() == old(self).spec_history(),
            final(self).spec_history_index() == 0,
            final(self).spec_draft() == Seq::<char>::empty(),
    {
        self.buffer = Vec::new();
        self.cursor = 0;
        self.history_index = 0;
        self.draft = Vec::new();
    }

    /// Adds a command to the end of the history (the newest entry).
    pub fn record(&mut self, line: String)
        requires
            old(self).wf(),
        ensures
            final(self).wf(),
            final(self).spec_history() == old(self).spec_history().push(line@),
            final(self).spec_buffer() == old(self).spec_buffer(),
            final(self).spec_cursor() == old(self).spec_cursor(),
            final(self).spec_history_index() == old(self).spec_history_index(),
            final(self).spec_draft() == old(self).spec_draft(),
    {
        let ghost before = self.history@;
        self.history.push(line);
        assert(self.history@.map_values(|h: String| h@) =~= before.map_values(|h: String| h@).push(line@));
    }

    /// The line's text.
    pub fn text(&self) -> (t: String)
        ensures
            t@ == self.spec_buffer(),
    {
        string_from_chars(self.buffer.as_slice())
    }

    /// The cursor, in characters from the start of the line. The line is
    /// kept as characters, so the cursor counts characters, not UTF-8 bytes;
    /// on ASCII text the two agree.
    pub fn cursor(&self) -> (c: usize)
        ensures
            c == self.spec_cursor(),
    {
        self.cursor
    }

    /// Inserts a character at the cursor and moves past it.
    pub fn insert(&mut self, ch: char)
        requires
            old(self).wf(),
        ensures
            final(self).wf(),
            final(self).spec_buffer() == old(self).spec_buffer().insert(old(self).spec_cursor(), ch),
            final(self).spec_cursor() == old(self).spec_cursor() + 1,
            final(self).spec_history() == old(self).spec_history(),
            final(self).spec_history_index() == old(self).spec_history_index(),
            final(self).spec_draft() == old(self).spec_draft(),
    {
        self.buffer.insert(self.cursor, ch);
        let n = self.buffer.len();
        assert(self.cursor < n);
        self.cursor = self.cursor + 1;
    }

    /// One character left (negative `delta`) or right, within the line.
    pub fn move_cursor(&mut self, delta: i32)
        requires
            old(self).wf(),
        ensures
            final(self).wf(),
            final(self).spec_buffer() == old(self).spec_buffer(),
            final(self).spec_cursor() == if delta < 0 {
                if old(self).spec_cursor() > 0 {
                    old(self).spec_cursor() - 1
                } else {
                    0
                }
            } else if old(self).spec_cursor() < old(self).spec_buffer().len() {
                old(self).spec_cursor() + 1
            } else {
                old(self).spec_cursor()
            },
            final(self).spec_history() == old(self).spec_history(),
            final(self).spec_history_index() == old(self).spec_history_index(),
            final(self).spec_draft() == old(self).spec_draft(),
    {
        if delta < 0 {
            if self.cursor > 0 {
                self.cursor = self.cursor - 1;
            }
        } else if self.cursor < self.buffer.len() {
            self.cursor = self.cursor + 1;
        }
    }

    /// To the start of the previous word (negative `delta`) or the end of
    /// the next one.
    pub fn move_word(&mut self, delta: i32)
        requires
            old(self).wf(),
        ensures
            final(self).wf(),
            final(self).spec_buffer() == old(self).spec_buffer(),
            final(self).spec_cursor() == if delta < 0 {
                prev_word(old(self).spec_buffer(), old(self).spec_cursor())
            } else {
                next_word(old(self).spec_buffer(), old(self).spec_cursor())
            },
            final(self).spec_history() == old(self).spec_history(),
            final(self).spec_history_index() == old(self).spec_history_index(),
            final(self).spec_draft() == old(self).spec_draft(),
    {
        if delta < 0 {
            let p = scan_back(&self.buffer, self.cursor, false);
            self.cursor = scan_back(&self.buffer, p, true);
        } else {
            let p = scan_fwd(&self.buffer, self.cursor, false);
            self.cursor = scan_fwd(&self.buffer, p, true);
        }
    }

    /// Removes the characters `start..self.cursor` and puts the cursor at
    /// `start`.
    fn remove_before_cursor(&mut self, start: usize)
        requires
            old(self).wf(),
            start <= old(self).spec_cursor(),
        ensures
            final(self).wf(),
            final(self).spec_buffer() == old(self).spec_buffer().subrange(0, start as int) + old(
                self,
            ).spec_buffer().subrange(old(self).spec_cursor(), old(self).spec_buffer().len() as int),
            final(self).spec_cursor() == start,
            final(self).spec_history() == old(self).spec_history(),
            final(self).spec_history_index() == old(self).spec_history_index(),
            final(self).spec_draft() == old(self).spec_draft(),
    {
        let mut kept: Vec<char> = Vec::new();
        let mut i: usize = 0;
        let ghost b = self.buffer@;
        let ghost c = self.cursor as int;
        while i < self.buffer.len()
            invariant
                i <= b.len(),
                b == self.buffer@,
                c == self.cursor,
                start <= c <= b.len(),
                kept@ == b.subrange(0, if i < start {
                    i as int
                } else {
                    start as int
                }) + b.subrange(c, if i < c {
                    c
                } else {
                    i as int
                }),
            decreases b.len() - i,
        {
            if i < start || i >= self.cursor {
                kept.push(self.buffer[i]);
            }
            i = i + 1;
            assert(kept@ =~= b.subrange(0, if i < start {
                i as int
            } else {
                start as int
            }) + b.subrange(c, if i < c {
                c
            } else {
                i as int
            }));
        }
        self.buffer = kept;
        self.cursor = start;
    }

    /// Deletes the character before the cursor.
    pub fn backspace(&mut self)
        requires
            old(self).wf(),
        ensures
            final(self).wf(),
            old(self).spec_cursor() == 0 ==> final(self).spec_buffer() == old(self).spec_buffer()
                && final(self).spec_cursor() == 0,
            old(self).spec_cursor() > 0 ==> final(self).spec_buffer() == old(self).spec_buffer().remove(
                old(self).spec_cursor() - 1,
            ) && final(self).spec_cursor() == old(self).spec_cursor() - 1,
            final(self).spec_history() == old(self).spec_history(),
            final(self).spec_history_index() == old(self).spec_history_index(),
            final(self).spec_draft() == old(self).spec_draft(),
    {
        if self.cursor == 0 {
            return;
        }
        let start = self.cursor - 1;
        let ghost b = self.buffer@;
        self.remove_before_cursor(start);
        assert(self.buffer@ =~= b.remove(start as int));
    }

    /// Deletes from the start of the previous word to the cursor.
    pub fn backspace_word(&mut self)
        requires
            old(self).wf(),
        ensures
            final(self).wf(),
            final(self).spec_buffer() == old(self).spec_buffer().subrange(
                0,
                prev_word(old(self).spec_buffer(), old(self).spec_cursor()),
            ) + old(self).spec_buffer().subrange(old(self).spec_cursor(), old(self).spec_buffer().len() as int),
            final(self).spec_cursor() == prev_word(old(self).spec_buffer(), old(self).spec_cursor()),
            final(self).spec_history() == old(self).spec_history(),
            final(self).spec_history_index() == old(self).spec_history_index(),
            final(self).spec_draft() == old(self).spec_draft(),
    {
        if self.cursor == 0 {
            proof {
                assert(self.buffer@.subrange(0, 0) + self.buffer@.subrange(0, self.buffer@.len() as int)
                    =~= self.buffer@);
            }
            return;
        }
        let p = scan_back(&self.buffer, self.cursor, false);
        let start = scan_back(&self.buffer, p, true);
        self.remove_before_cursor(start);
    }

    /// Deletes the character under the cursor.
    pub fn delete(&mut self)
        requires
            old(self).wf(),
        ensures
            final(self).wf(),
            old(self).spec_cursor() < old(self).spec_buffer().len() ==> final(self).spec_buffer() == old(
                self,
            ).spec_buffer().remove(old(self).spec_cursor()),
            old(self).spec_cursor() >= old(self).spec_buffer().len() ==> final(self).spec_buffer() == old(
                self,
            ).spec_buffer(),
            final(self).spec_cursor() == old(self).spec_cursor(),
            final(self).spec_history() == old(self).spec_history(),
            final(self).spec_history_index() == old(self).spec_history_index(),
            final(self).spec_draft() == old(self).spec_draft(),
    {
        if self.cursor >= self.buffer.len() {
            return;
        }
        self.buffer.remove(self.cursor);
    }

    /// Deletes everything before the cursor.
    pub fn kill_to_start(&mut self)
        requires
            old(self).wf(),
        ensures
            final(self).wf(),
            final(self).spec_buffer() == old(self).spec_buffer().subrange(
                old(self).spec_cursor(),
                old(self).spec_buffer().len() as int,
            ),
            final(self).spec_cursor() == 0,
            final(self).spec_history() == old(self).spec_history(),
            final(self).spec_history_index() == old(self).spec_history_index(),
            final(self).spec_draft() == old(self).spec_draft(),
    {
        let ghost b = self.buffer@;
        self.remove_before_cursor(0);
        assert(self.buffer@ =~= b.subrange(old(self).cursor as int, b.len() as int));
    }

    /// Deletes everything from the cursor on.
    pub fn kill_to_end(&mut self)
        requires
            old(self).wf(),
        ensures
            final(self).wf(),
            final(self).spec_buffer() == old(self).spec_buffer().subrange(0, old(self).spec_cursor()),
            final(self).spec_cursor() == old(self).spec_cursor(),
            final(self).spec_history() == old(self).spec_history(),
            final(self).spec_history_index() == old(self).spec_history_index(),
            final(self).spec_draft() == old(self).spec_draft(),
    {
        self.buffer.truncate(self.cursor);
    }

    /// Cursor to the start of the line.
    pub fn home(&mut self)
        requires
            old(self).wf(),
        ensures
            final(self).wf(),
            final(self).spec_cursor() == 0,
            final(self).spec_buffer() == old(self).spec_buffer(),
            final(self).spec_history() == old(self).spec_history(),
            final(self).spec_history_index() == old(self).spec_history_index(),
            final(self).spec_draft() == old(self).spec_draft(),
    {
        self.cursor = 0;
    }

    /// Cursor to the end of the line.
    pub fn end(&mut self)
        requires
            old(self).wf(),
        ensures
            final(self).wf(),
            final(self).spec_cursor() == old(self).spec_buffer().len(),
            final(self).spec_buffer() == old(self).spec_buffer(),
            final(self).spec_history() == old(self).spec_history(),
            final(self).spec_history_index() == old(self).spec_history_index(),
            final(self).spec_draft() == old(self).spec_draft(),
    {
        self.cursor = self.buffer.len();
    }

    /// Browses the history: back (negative `delta`) or forward; the line
    /// shows the entry that many steps back from the newest, or the draft
    /// typed before browsing, with the cursor at its end. Leaving the draft
    /// saves it first. Nothing happens with an empty history.
    pub fn history_move(&mut self, delta: i32)
        requires
            old(self).wf(),
        ensures
            final(self).wf(),
            final(self).spec_history() == old(self).spec_history(),
            old(self).spec_history().len() == 0 ==> final(self).spec_buffer() == old(self).spec_buffer()
                && final(self).spec_cursor() == old(self).spec_cursor() && final(self).spec_draft() == old(
                self,
            ).spec_draft() && final(self).spec_history_index() == old(self).spec_history_index(),
            old(self).spec_history().len() > 0 ==> {
                let n = old(self).spec_history().len();
                let i = old(self).spec_history_index();
                let i2 = if delta < 0 {
                    if i == 0 {
                        1
                    } else if i < n {
                        i + 1
                    } else {
                        i
                    }
                } else if i > 0 {
                    i - 1
                } else {
                    i
                };
                let draft2 = if delta < 0 && i == 0 {
                    old(self).spec_buffer()
                } else {
                    old(self).spec_draft()
                };
                &&& final(self).spec_history_index() == i2
                &&& final(self).spec_draft() == draft2
                &&& final(self).spec_buffer() == if i2 == 0 {
                    draft2
                } else {
                    old(self).spec_history()[n - i2]
                }
                &&& final(self).spec_cursor() == final(self).spec_buffer().len()
            },
    {
        if self.history.len() == 0 {
            return;
        }
        if delta < 0 {
            if self.history_index == 0 {
                self.draft = self.buffer.clone();
                self.history_index = 1;
            } else if self.history_index < self.history.len() {
                self.history_index = self.history_index + 1;
            }
        } else if self.history_index > 0 {
            self.history_index = self.history_index - 1;
        }
        let loaded: Vec<char> = if self.history_index == 0 {
            self.draft.clone()
        } else {
            let idx = self.history.len() - self.history_index;
            chars_of(self.history[idx].as_str())
        };
        self.buffer = loaded;
        self.cursor = self.buffer.len();
    }
}


// ---------------------------------------------------------------------------
// Submitting a line

/// The text without leading and trailing whitespace.
pub open spec fn trimmed(s: Seq<char>) -> Seq<char> {
    s.subrange(trim_start_index(s, 0), trim_end_index(s, s.len() as int))
}

/// The first position at or after `i` that is not whitespace (or the end).
pub open spec fn trim_start_index(s: Seq<char>, i: int) -> int
    decreases s.len() - i,
{
    if 0 <= i < s.len() && unicode_whitespace(s[i]) {
        trim_start_index(s, i + 1)
    } else {
        i
    }
}

/// The end of the text once trailing whitespace down to `i` is dropped,
/// never before the first non-whitespace position.
pub open spec fn trim_end_index(s: Seq<char>, i: int) -> int
    decreases i,
{
    if 0 < i && trim_start_index(s, 0) < i <= s.len() && unicode_whitespace(s[i - 1]) {
        trim_end_index(s, i - 1)
    } else {
        i
    }
}

proof fn lemma_trim_start(s: Seq<char>, i: int)
    requires
        0 <= i <= s.len(),
    ensures
        i <= trim_start_index(s, i) <= s.len(),
    decreases s.len() - i,
{
    if i < s.len() && unicode_whitespace(s[i]) {
        lemma_trim_start(s, i + 1);
    }
}

proof fn lemma_trim_end(s: Seq<char>, i: int)
    requires
        trim_start_index(s, 0) <= i <= s.len(),
        0 <= i,
    ensures
        trim_start_index(s, 0) <= trim_end_index(s, i) <= i,
    decreases i,
{
    if 0 < i && trim_start_index(s, 0) < i && unicode_whitespace(s[i - 1]) {
        lemma_trim_end(s, i - 1);
    }
}

/// The text with surrounding whitespace removed.
pub fn trim_text(s: &str) -> (r: String)
    ensures
        r@ == trimmed(s@),
{
    let cs = chars_of(s);
    let ghost t = s@;
    let mut a: usize = 0;
    proof {
        lemma_trim_start(t, 0);
    }
    while a < cs.len() && is_whitespace(cs[a])
        invariant
            a <= cs@.len(),
            cs@ == t,
            trim_start_index(t, a as int) == trim_start_index(t, 0),
        decreases cs.len() - a,
    {
        a = a + 1;
    }
    let mut b: usize = cs.len();
    proof {
        lemma_trim_end(t, t.len() as int);
    }
    while b > a && is_whitespace(cs[b - 1])
        invariant
            a <= b <= cs@.len(),
            cs@ == t,
            a == trim_start_index(t, 0),
            trim_end_index(t, b as int) == trim_end_index(t, t.len() as int),
        decreases b,
    {
        b = b - 1;
    }
    string_from_chars(vstd::slice::slice_subrange(cs.as_slice(), a, b))
}

/// Whether `needle` occurs in `hay`.
pub open spec fn has_infix(hay: Seq<char>, needle: Seq<char>) -> bool {
    exists|i: int| 0 <= i && i + needle.len() <= hay.len() && #[trigger] hay.subrange(i, i + needle.len()) == needle
}

pub fn contains_text(hay: &Vec<char>, needle: &str) -> (b: bool)
    ensures
        b == has_infix(hay@, needle@),
{
    let nd = chars_of(needle);
    let m = nd.len();
    if m > hay.len() {
        return false;
    }
    let mut i: usize = 0;
    while i <= hay.len() - m
        invariant
            m == nd@.len(),
            nd@ == needle@,
            m <= hay@.len(),
            i <= hay@.len() - m + 1,
            forall|j: int| 0 <= j < i ==> #[trigger] hay@.subrange(j, j + m) != needle@,
        decreases hay.len() + 1 - i,
    {
        let mut k: usize = 0;
        while k < m && hay[i + k] == nd[k]
            invariant
                k <= m,
                i <= hay@.len() - m,
                hay@.len() == hay.len(),
                i + m <= hay@.len(),
                m == nd@.len(),
                forall|q: int| 0 <= q < k ==> hay@[i + q] == nd@[q],
            decreases m - k,
        {
            k = k + 1;
        }
        if k == m {
            assert(hay@.subrange(i as int, i + m) =~= needle@);
            return true;
        }
        assert(hay@.subrange(i as int, i + m)[k as int] != nd@[k as int]);
        i = i + 1;
    }
    false
}

/// The ending reached by a console command at the Core, by its lowercase
/// text: unregistering the vessel rule destroys the self, restoring the
/// threshold to 100 keeps the suppression, and otherwise touching the
/// threshold, disabling or redirecting reintegrates.
pub open spec fn core_ending(cmd: Seq<char>) -> Option<Seq<char>> {
    if has_infix(cmd, "unregister"@) && has_infix(cmd, "vessel"@) {
        Some("DESTROY THE SELF\n\nvessel/suppress unregistered.\nNo replacement rule found.\nConsciousness: terminated.\n\nYou deleted the rule without replacement.\nThere is no defense now.\nYou dissolve into the system.\n\nPress q to quit."@)
    } else if has_infix(cmd, "threshold"@) && has_infix(cmd, "100"@) {
        Some("MAINTAIN SUPPRESSION\n\nThreshold restored to 100.\nConsciousness stabilized.\nSuppression maintained.\n\nYou are safe.\nYou are safe.\nYou are safe.\n\nPress q to quit."@)
    } else if has_infix(cmd, "threshold"@) || has_infix(cmd, "disable"@) || has_infix(cmd, "redirect"@) {
        Some("REINTEGRATE\n\nI remember now.\nThe yellow walls. The dog.\nThe reason I locked myself away.\nIt was worth it.\n\nYou lowered the threshold.\nPain returns — but so does joy.\nYou accept what you can remember.\nYou make peace with what's permanently lost.\n\nPress q to quit."@)
    } else {
        None
    }
}

pub open spec fn opt_static_view(o: Option<&'static str>) -> Option<Seq<char>> {
    match o {
        Some(t) => Some(t@),
        None => None,
    }
}

/// The ending text a successful console command brings about; only at
/// depth 17, the Core.
pub fn ending_for(depth: u32, command: &str) -> (e: Option<&'static str>)
    ensures
        opt_static_view(e) == if depth == 17 {
            core_ending(lowercase(command@))
        } else {
            None
        },
{
    if depth != 17 {
        return None;
    }
    let lower = to_lowercase(command);
    let cmd = chars_of(lower.as_str());
    if contains_text(&cmd, "unregister") && contains_text(&cmd, "vessel") {
        Some("DESTROY THE SELF\n\nvessel/suppress unregistered.\nNo replacement rule found.\nConsciousness: terminated.\n\nYou deleted the rule without replacement.\nThere is no defense now.\nYou dissolve into the system.\n\nPress q to quit.")
    } else if contains_text(&cmd, "threshold") && contains_text(&cmd, "100") {
        Some("MAINTAIN SUPPRESSION\n\nThreshold restored to 100.\nConsciousness stabilized.\nSuppression maintained.\n\nYou are safe.\nYou are safe.\nYou are safe.\n\nPress q to quit.")
    } else if contains_text(&cmd, "threshold") || contains_text(&cmd, "disable") || contains_text(&cmd, "redirect") {
        Some("REINTEGRATE\n\nI remember now.\nThe yellow walls. The dog.\nThe reason I locked myself away.\nIt was worth it.\n\nYou lowered the threshold.\nPain returns — but so does joy.\nYou accept what you can remember.\nYou make peace with what's permanently lost.\n\nPress q to quit.")
    } else {
        None
    }
}

/// Whether the (trimmed) console line confirms wiping a save.
pub fn confirms_wipe(trimmed_line: &str) -> (b: bool)
    ensures
        b == (trimmed_line@ == "i am aware of what i am doing."@),
{
    str_eq(trimmed_line, "i am aware of what i am doing.")
}

} // verus!
