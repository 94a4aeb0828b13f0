//! Syntax highlighting of Glyph source: a line is cut into spans, each with
//! the category the console paints it in.

use vstd::prelude::*;

use crate::text::{
    ascii_alphanumeric, ascii_digit, chars_of, is_ascii_alphanumeric, is_ascii_digit,
    is_whitespace, str_eq, string_from_chars, to_lowercase, lowercase, unicode_whitespace,
};

verus! {

/// The category of a span.
#[derive(Clone, Copy, Debug, PartialEq, Eq, Structural)]
pub enum Tok {
    Paren,
    ReaderMacro,
    Keyword,
    String,
    Escape,
    Number,
    Comment,
    Special,
    Builtin,
    Command,
    Operator,
    Definition,
    Binding,
    Constant,
    Quote,
    Property,
    Call,
    Symbol,
}

/// A piece of source text with its category.
#[derive(Clone, Debug)]
pub struct Span {
    pub text: String,
    pub tok: Tok,
}

/// The color of each category, as 8-bit red, green and blue.
pub open spec fn tok_rgb(t: Tok) -> (u8, u8, u8) {
    match t {
        Tok::Paren => (126, 136, 150),
        Tok::ReaderMacro => (85, 210, 220),
        Tok::Keyword => (238, 112, 210),
        Tok::String => (122, 206, 116),
        Tok::Escape => (248, 188, 83),
        Tok::Number => (82, 190, 236),
        Tok::Comment => (86, 94, 105),
        Tok::Special => (177, 146, 255),
        Tok::Builtin => (118, 177, 255),
        Tok::Command => (255, 136, 96),
        Tok::Operator => (242, 210, 92),
        Tok::Definition => (255, 224, 94),
        Tok::Binding => (132, 218, 198),
        Tok::Constant => (255, 154, 94),
        Tok::Quote => (158, 166, 178),
        Tok::Property => (170, 210, 106),
        Tok::Call => (158, 202, 255),
        Tok::Symbol => (255, 255, 255),
    }
}

impl Span {
    /// The color the console paints this span with.
    pub fn color(&self) -> (c: (u8, u8, u8))
        ensures
            c == tok_rgb(self.tok),
    {
        match self.tok {
            Tok::Paren => (126, 136, 150),
            Tok::ReaderMacro => (85, 210, 220),
            Tok::Keyword => (238, 112, 210),
            Tok::String => (122, 206, 116),
            Tok::Escape => (248, 188, 83),
            Tok::Number => (82, 190, 236),
            Tok::Comment => (86, 94, 105),
            Tok::Special => (177, 146, 255),
            Tok::Builtin => (118, 177, 255),
            Tok::Command => (255, 136, 96),
            Tok::Operator => (242, 210, 92),
            Tok::Definition => (255, 224, 94),
            Tok::Binding => (132, 218, 198),
            Tok::Constant => (255, 154, 94),
            Tok::Quote => (158, 166, 178),
            Tok::Property => (170, 210, 106),
            Tok::Call => (158, 202, 255),
            Tok::Symbol => crate::colors::white(),
        }
    }
}

/// The mathematical content of a span: its characters and its category.
pub type Piece = (Seq<char>, Tok);

pub open spec fn span_piece(sp: Span) -> Piece {
    (sp.text@, sp.tok)
}

pub open spec fn pieces_of(spans: Seq<Span>) -> Seq<Piece> {
    spans.map_values(|sp: Span| span_piece(sp))
}

/// The characters of the pieces, one after the other.
pub open spec fn joined(p: Seq<Piece>) -> Seq<char>
    decreases p.len(),
{
    if p.len() == 0 {
        seq![]
    } else {
        joined(p.drop_last()) + p.last().0
    }
}

// ---------------------------------------------------------------------------
// Character classes and runs

/// The classes of characters that a token can run over.
pub enum CharRun {
    Whitespace,
    Symbol,
    KeywordTail,
    PropertyTail,
    Digit,
    AlphaNum,
}

/// Characters a symbol is made of.
pub open spec fn sym_char(c: char) -> bool {
    ascii_alphanumeric(c) || c == '?' || c == '!' || c == '+' || c == '-' || c == '*' || c == '/'
        || c == '=' || c == '<' || c == '>' || c == '_' || c == '%' || c == '&'
}

pub open spec fn bracket_char(c: char) -> bool {
    c == '(' || c == ')' || c == '[' || c == ']' || c == '{' || c == '}'
}

pub open spec fn in_run(c: char, r: CharRun) -> bool {
    match r {
        CharRun::Whitespace => unicode_whitespace(c),
        CharRun::Symbol => sym_char(c),
        CharRun::KeywordTail => sym_char(c) || c == '/',
        CharRun::PropertyTail => sym_char(c) || c == '-' || c == '>',
        CharRun::Digit => ascii_digit(c),
        CharRun::AlphaNum => ascii_alphanumeric(c),
    }
}

/// The first position at or after `k` whose character is not in class `r`,
/// or the end of `s`.
pub open spec fn run_end(s: Seq<char>, k: int, r: CharRun) -> int
    decreases s.len() - k,
{
    if 0 <= k < s.len() && in_run(s[k], r) {
        run_end(s, k + 1, r)
    } else {
        k
    }
}

pub proof fn lemma_run_end_bounds(s: Seq<char>, k: int, r: CharRun)
    requires
        0 <= k <= s.len(),
    ensures
        k <= run_end(s, k, r) <= s.len(),
        forall|m: int| k <= m < run_end(s, k, r) ==> in_run(#[trigger] s[m], r),
        run_end(s, k, r) == s.len() || !in_run(s[run_end(s, k, r)], r),
        k < s.len() && in_run(s[k], r) ==> k < run_end(s, k, r),
    decreases s.len() - k,
{
    if k < s.len() && in_run(s[k], r) {
        lemma_run_end_bounds(s, k + 1, r);
    }
}

pub proof fn lemma_run_end_at(s: Seq<char>, k: int, j: int, r: CharRun)
    requires
        0 <= k <= j <= s.len(),
        forall|m: int| k <= m < j ==> in_run(#[trigger] s[m], r),
        j == s.len() || !in_run(s[j], r),
    ensures
        run_end(s, k, r) == j,
    decreases j - k,
{
    if k < j {
        lemma_run_end_at(s, k + 1, j, r);
    }
}

// ---------------------------------------------------------------------------
// The lexer, stated

/// A one-piece sequence when `a < b`, else nothing.
pub open spec fn piece_if(s: Seq<char>, a: int, b: int, tok: Tok) -> Seq<Piece> {
    if a < b {
        seq![(s.subrange(a, b), tok)]
    } else {
        seq![]
    }
}

/// Where the body of a number starting at `k` ends: a `0x`, `0o` or `0b`
/// prefix followed by letters and digits, or digits with an optional
/// fraction and exponent.
pub open spec fn number_end(s: Seq<char>, k: int) -> int {
    if k + 1 < s.len() && s[k] == '0' && (s[k + 1] == 'x' || s[k + 1] == 'X' || s[k + 1] == 'o'
        || s[k + 1] == 'O' || s[k + 1] == 'b' || s[k + 1] == 'B') {
        run_end(s, k + 2, CharRun::AlphaNum)
    } else {
        let a = run_end(s, k, CharRun::Digit);
        let b = if a < s.len() && s[a] == '.' {
            run_end(s, a + 1, CharRun::Digit)
        } else {
            a
        };
        if b < s.len() && (s[b] == 'e' || s[b] == 'E') {
            let c = if b + 1 < s.len() && (s[b + 1] == '+' || s[b + 1] == '-') {
                b + 2
            } else {
                b + 1
            };
            run_end(s, c, CharRun::Digit)
        } else {
            b
        }
    }
}

/// The pieces of a string literal whose current segment starts at `seg`,
/// scanned from `k`, and the position after it.
pub open spec fn string_scan(s: Seq<char>, seg: int, k: int) -> (Seq<Piece>, int)
    decreases s.len() - k,
{
    if k < s.len() {
        if s[k] == '\\' && k + 1 < s.len() {
            let rest = string_scan(s, k + 2, k + 2);
            (
                piece_if(s, seg, k, Tok::String) + seq![(s.subrange(k, k + 2), Tok::Escape)]
                    + rest.0,
                rest.1,
            )
        } else if s[k] == '"' {
            (piece_if(s, seg, k + 1, Tok::String), k + 1)
        } else {
            string_scan(s, seg, k + 1)
        }
    } else {
        (piece_if(s, seg, k, Tok::String), k)
    }
}

/// The property accesses (`.name`) that follow a symbol ending at `k`.
pub open spec fn prop_scan(s: Seq<char>, k: int) -> (Seq<Piece>, int)
    decreases s.len() - k,
{
    if 0 <= k && k + 1 < s.len() && s[k] == '.' && in_run(s[k + 1], CharRun::PropertyTail) {
        let e = run_end(s, k + 1, CharRun::PropertyTail);
        proof {
            lemma_run_end_bounds(s, k + 1, CharRun::PropertyTail);
        }
        let rest = prop_scan(s, e);
        (seq![(s.subrange(k, e), Tok::Property)] + rest.0, rest.1)
    } else {
        (seq![], k)
    }
}

/// The pieces one step of the lexer emits at position `i`, and where the
/// next step starts.
pub open spec fn scan_step(s: Seq<char>, i: int) -> (Seq<Piece>, int) {
    let c = s[i];
    if unicode_whitespace(c) {
        let e = run_end(s, i, CharRun::Whitespace);
        (seq![(s.subrange(i, e), Tok::Symbol)], e)
    } else if c == ';' {
        (seq![(s.subrange(i, s.len() as int), Tok::Comment)], s.len() as int)
    } else if c == '"' {
        string_scan(s, i, i + 1)
    } else if c == ':' {
        let e = run_end(s, i + 1, CharRun::KeywordTail);
        (seq![(s.subrange(i, e), Tok::Keyword)], e)
    } else if c == '#' && i + 1 < s.len() && (s[i + 1] == '[' || s[i + 1] == '{') {
        (seq![(s.subrange(i, i + 2), Tok::ReaderMacro)], i + 2)
    } else if bracket_char(c) {
        (seq![(s.subrange(i, i + 1), Tok::Paren)], i + 1)
    } else if c == '\'' {
        (seq![(s.subrange(i, i + 1), Tok::Quote)], i + 1)
    } else if c == '-' && i + 1 < s.len() && ascii_digit(s[i + 1]) {
        let e = number_end(s, i + 1);
        (seq![(s.subrange(i, e), Tok::Number)], e)
    } else if ascii_digit(c) {
        let e = number_end(s, i);
        (seq![(s.subrange(i, e), Tok::Number)], e)
    } else if sym_char(c) {
        let e = run_end(s, i, CharRun::Symbol);
        let text = s.subrange(i, e);
        let props = prop_scan(s, e);
        (seq![(text, symbol_class(lowercase(text)))] + props.0, props.1)
    } else if c == '.' {
        (seq![(s.subrange(i, i + 1), Tok::Operator)], i + 1)
    } else {
        (seq![(s.subrange(i, i + 1), Tok::Symbol)], i + 1)
    }
}

/// The pieces the lexer emits from position `i` on, before context
/// annotation.
pub open spec fn lex_from(s: Seq<char>, i: int) -> Seq<Piece>
    decreases s.len() - i,
{
    if 0 <= i < s.len() {
        let st = scan_step(s, i);
        proof {
            lemma_scan_step_bounds(s, i);
        }
        st.0 + lex_from(s, st.1)
    } else {
        seq![]
    }
}

pub open spec fn lex(s: Seq<char>) -> Seq<Piece> {
    lex_from(s, 0)
}

// ---------------------------------------------------------------------------
// Word classes

pub open spec fn is_constant_word(w: Seq<char>) -> bool {
    w == "nil"@ || w == "true"@ || w == "false"@ || w == "_"@
}

pub open spec fn is_special_form(w: Seq<char>) -> bool {
    w == "quote"@ || w == "if"@ || w == "do"@ || w == "let"@ || w == "fn"@ || w == "const"@
        || w == "defmacro"@ || w == "set!"@ || w == "try"@ || w == "catch"@ || w == "and"@
        || w == "or"@ || w == "match"@ || w == "bind-key"@ || w == "recur"@ || w == "defrule"@
}

pub open spec fn is_operator(w: Seq<char>) -> bool {
    w == "+"@ || w == "-"@ || w == "*"@ || w == "/"@ || w == "%"@ || w == "="@ || w == "=="@
        || w == "!="@ || w == "<"@ || w == ">"@ || w == "<="@ || w == ">="@ || w == "."@
}

pub open spec fn is_builtin(w: Seq<char>) -> bool {
    w == "apply"@ || w == "assoc"@ || w == "bool?"@ || w == "concat"@ || w == "conj"@
        || w == "cons"@ || w == "contains?"@ || w == "dissoc"@ || w == "drop"@ || w == "empty?"@
        || w == "eval"@ || w == "every"@ || w == "filter"@ || w == "first"@ || w == "float?"@
        || w == "fn?"@ || w == "get"@ || w == "int?"@ || w == "keyword?"@ || w == "keys"@
        || w == "lambda"@ || w == "len"@ || w == "list"@ || w == "list?"@ || w == "map"@
        || w == "map?"@ || w == "nil?"@ || w == "not"@ || w == "nth"@ || w == "print"@
        || w == "print!"@ || w == "println"@ || w == "println!"@ || w == "range"@
        || w == "range-internal"@ || w == "reduce"@ || w == "rest"@ || w == "reverse"@
        || w == "reverse-acc"@ || w == "second"@ || w == "set"@ || w == "set?"@ || w == "slurp"@
        || w == "some"@ || w == "str"@ || w == "string?"@ || w == "symbol?"@ || w == "take"@
        || w == "type"@ || w == "vals"@ || w == "vec"@ || w == "vec?"@
}

pub open spec fn is_game_command(w: Seq<char>) -> bool {
    w == "adjacent?"@ || w == "ascend!"@ || w == "attack!"@ || w == "block!"@ || w == "damage!"@
        || w == "descend!"@ || w == "do-attack"@ || w == "fire?"@ || w == "flee-step!"@
        || w == "heal"@ || w == "help"@ || w == "hp"@ || w == "inspect-fragment"@ || w == "load!"@
        || w == "log"@ || w == "manhattan"@ || w == "move!"@ || w == "open-registry"@
        || w == "player-facing"@ || w == "query-registry"@ || w == "quit!"@
        || w == "quit-terminal"@ || w == "random-step!"@ || w == "raycast-cone"@
        || w == "roll-odds?"@ || w == "save!"@ || w == "set-level"@ || w == "shove!"@
        || w == "step-toward!"@ || w == "toggle-console!"@ || w == "toggle-inspector!"@
        || w == "toggle-keybindings!"@ || w == "use-vapor-canteen!"@ || w == "wait!"@
        || w == "wipe!"@
}

/// The special forms of Glyph: the words the language evaluates itself
/// rather than as calls.
pub open spec fn glyph_special_forms() -> Seq<Seq<char>> {
    seq![
        "quote"@,
        "if"@,
        "do"@,
        "let"@,
        "fn"@,
        "const"@,
        "defmacro"@,
        "set!"@,
        "try"@,
        "catch"@,
        "and"@,
        "or"@,
        "match"@,
        "bind-key"@,
        "recur"@,
        "defrule"@,
    ]
}

/// A symbol is highlighted as a special form exactly when its lowercase
/// form is one of Glyph's special forms.
pub proof fn lemma_special_forms(lower: Seq<char>)
    ensures
        symbol_class(lower) == Tok::Special <==> glyph_special_forms().contains(lower),
{
    reveal_strlit("quote");
    reveal_strlit("if");
    reveal_strlit("do");
    reveal_strlit("let");
    reveal_strlit("fn");
    reveal_strlit("const");
    reveal_strlit("defmacro");
    reveal_strlit("set!");
    reveal_strlit("try");
    reveal_strlit("catch");
    reveal_strlit("and");
    reveal_strlit("or");
    reveal_strlit("match");
    reveal_strlit("bind-key");
    reveal_strlit("recur");
    reveal_strlit("defrule");
    reveal_strlit("nil");
    reveal_strlit("true");
    reveal_strlit("false");
    reveal_strlit("_");
    let forms = glyph_special_forms();
    if symbol_class(lower) == Tok::Special {
        assert(is_special_form(lower));
        if lower == "quote"@ {
            assert(forms[0] == lower);
        } else if lower == "if"@ {
            assert(forms[1] == lower);
        } else if lower == "do"@ {
            assert(forms[2] == lower);
        } else if lower == "let"@ {
            assert(forms[3] == lower);
        } else if lower == "fn"@ {
            assert(forms[4] == lower);
        } else if lower == "const"@ {
            assert(forms[5] == lower);
        } else if lower == "defmacro"@ {
            assert(forms[6] == lower);
        } else if lower == "set!"@ {
            assert(forms[7] == lower);
        } else if lower == "try"@ {
            assert(forms[8] == lower);
        } else if lower == "catch"@ {
            assert(forms[9] == lower);
        } else if lower == "and"@ {
            assert(forms[10] == lower);
        } else if lower == "or"@ {
            assert(forms[11] == lower);
        } else if lower == "match"@ {
            assert(forms[12] == lower);
        } else if lower == "bind-key"@ {
            assert(forms[13] == lower);
        } else if lower == "recur"@ {
            assert(forms[14] == lower);
        } else if lower == "defrule"@ {
            assert(forms[15] == lower);
        }
        assert(forms.contains(lower));
    }
    if forms.contains(lower) {
        let i = choose|i: int| 0 <= i < forms.len() && forms[i] == lower;
        assert(lower.len() > 0 && lower[0] != '*');
        if i == 0 {
            assert(lower == "quote"@);
            assert(!is_constant_word(lower));
            assert(is_special_form(lower));
        } else if i == 1 {
            assert(lower == "if"@);
            assert(!is_constant_word(lower));
            assert(is_special_form(lower));
        } else if i == 2 {
            assert(lower == "do"@);
            assert(!is_constant_word(lower));
            assert(is_special_form(lower));
        } else if i == 3 {
            assert(lower == "let"@);
            assert(!is_constant_word(lower));
            assert(is_special_form(lower));
        } else if i == 4 {
            assert(lower == "fn"@);
            assert(!is_constant_word(lower));
            assert(is_special_form(lower));
        } else if i == 5 {
            assert(lower == "const"@);
            assert(!is_constant_word(lower));
            assert(is_special_form(lower));
        } else if i == 6 {
            assert(lower == "defmacro"@);
            assert(!is_constant_word(lower));
            assert(is_special_form(lower));
        } else if i == 7 {
            assert(lower == "set!"@);
            assert(!is_constant_word(lower));
            assert(is_special_form(lower));
        } else if i == 8 {
            assert(lower == "try"@);
            assert(!is_constant_word(lower));
            assert(is_special_form(lower));
        } else if i == 9 {
            assert(lower == "catch"@);
            assert(!is_constant_word(lower));
            assert(is_special_form(lower));
        } else if i == 10 {
            assert(lower == "and"@);
            assert(!is_constant_word(lower));
            assert(is_special_form(lower));
        } else if i == 11 {
            assert(lower == "or"@);
            assert(!is_constant_word(lower));
            assert(is_special_form(lower));
        } else if i == 12 {
            assert(lower == "match"@);
            assert(!is_constant_word(lower));
            assert(is_special_form(lower));
        } else if i == 13 {
            assert(lower == "bind-key"@);
            assert(!is_constant_word(lower));
            assert(is_special_form(lower));
        } else if i == 14 {
            assert(lower == "recur"@);
            assert(!is_constant_word(lower));
            assert(is_special_form(lower));
        } else if i == 15 {
            assert(lower == "defrule"@);
            assert(!is_constant_word(lower));
            assert(is_special_form(lower));
        }
    }
}

/// The category of a symbol, by its lowercase form.
pub open spec fn symbol_class(lower: Seq<char>) -> Tok {
    if is_constant_word(lower) {
        Tok::Constant
    } else if lower.len() > 2 && lower[0] == '*' && lower.last() == '*' {
        Tok::Binding
    } else if is_special_form(lower) {
        Tok::Special
    } else if is_operator(lower) {
        Tok::Operator
    } else if is_game_command(lower) {
        Tok::Command
    } else if is_builtin(lower) {
        Tok::Builtin
    } else {
        Tok::Symbol
    }
}

// ---------------------------------------------------------------------------
// Bounds of the scanner

pub proof fn lemma_number_end_bounds(s: Seq<char>, k: int)
    requires
        0 <= k < s.len(),
        ascii_digit(s[k]),
    ensures
        k < number_end(s, k) <= s.len(),
{
    if k + 1 < s.len() && s[k] == '0' && (s[k + 1] == 'x' || s[k + 1] == 'X' || s[k + 1] == 'o'
        || s[k + 1] == 'O' || s[k + 1] == 'b' || s[k + 1] == 'B') {
        lemma_run_end_bounds(s, k + 2, CharRun::AlphaNum);
    } else {
        lemma_run_end_bounds(s, k, CharRun::Digit);
        let a = run_end(s, k, CharRun::Digit);
        if a < s.len() && s[a] == '.' {
            lemma_run_end_bounds(s, a + 1, CharRun::Digit);
        }
        let b = if a < s.len() && s[a] == '.' {
            run_end(s, a + 1, CharRun::Digit)
        } else {
            a
        };
        if b < s.len() && (s[b] == 'e' || s[b] == 'E') {
            let c = if b + 1 < s.len() && (s[b + 1] == '+' || s[b + 1] == '-') {
                b + 2
            } else {
                b + 1
            };
            lemma_run_end_bounds(s, c, CharRun::Digit);
        }
    }
}

pub proof fn lemma_string_scan_bounds(s: Seq<char>, seg: int, k: int)
    requires
        0 <= seg <= k <= s.len(),
    ensures
        k <= string_scan(s, seg, k).1 <= s.len(),
    decreases s.len() - k,
{
    if k < s.len() {
        if s[k] == '\\' && k + 1 < s.len() {
            lemma_string_scan_bounds(s, k + 2, k + 2);
        } else if s[k] == '"' {
        } else {
            lemma_string_scan_bounds(s, seg, k + 1);
        }
    }
}

pub proof fn lemma_prop_scan_bounds(s: Seq<char>, k: int)
    requires
        0 <= k <= s.len(),
    ensures
        k <= prop_scan(s, k).1 <= s.len(),
    decreases s.len() - k,
{
    if k + 1 < s.len() && s[k] == '.' && in_run(s[k + 1], CharRun::PropertyTail) {
        lemma_run_end_bounds(s, k + 1, CharRun::PropertyTail);
        lemma_prop_scan_bounds(s, run_end(s, k + 1, CharRun::PropertyTail));
    }
}

pub proof fn lemma_scan_step_bounds(s: Seq<char>, i: int)
    requires
        0 <= i < s.len(),
    ensures
        i < scan_step(s, i).1 <= s.len(),
{
    let c = s[i];
    if unicode_whitespace(c) {
        lemma_run_end_bounds(s, i, CharRun::Whitespace);
    } else if c == ';' {
    } else if c == '"' {
        lemma_string_scan_bounds(s, i, i + 1);
    } else if c == ':' {
        lemma_run_end_bounds(s, i + 1, CharRun::KeywordTail);
    } else if c == '#' && i + 1 < s.len() && (s[i + 1] == '[' || s[i + 1] == '{') {
    } else if bracket_char(c) {
    } else if c == '\'' {
    } else if c == '-' && i + 1 < s.len() && ascii_digit(s[i + 1]) {
        lemma_number_end_bounds(s, i + 1);
    } else if ascii_digit(c) {
        lemma_number_end_bounds(s, i);
    } else if sym_char(c) {
        lemma_run_end_bounds(s, i, CharRun::Symbol);
        lemma_prop_scan_bounds(s, run_end(s, i, CharRun::Symbol));
    }
}

// ---------------------------------------------------------------------------
// The lexer, executed

fn char_in_run(c: char, r: &CharRun) -> (b: bool)
    ensures
        b == in_run(c, *r),
{
    match r {
        CharRun::Whitespace => is_whitespace(c),
        CharRun::Symbol => is_sym_char(c),
        CharRun::KeywordTail => is_sym_char(c) || c == '/',
        CharRun::PropertyTail => is_sym_char(c) || c == '-' || c == '>',
        CharRun::Digit => is_ascii_digit(c),
        CharRun::AlphaNum => is_ascii_alphanumeric(c),
    }
}

fn is_sym_char(c: char) -> (b: bool)
    ensures
        b == sym_char(c),
{
    is_ascii_alphanumeric(c) || c == '?' || c == '!' || c == '+' || c == '-' || c == '*' || c
        == '/' || c == '=' || c == '<' || c == '>' || c == '_' || c == '%' || c == '&'
}

fn scan_run(chars: &Vec<char>, k: usize, r: CharRun) -> (e: usize)
    requires
        k <= chars.len(),
    ensures
        e == run_end(chars@, k as int, r),
        k <= e <= chars.len(),
{
    let mut e = k;
    while e < chars.len() && char_in_run(chars[e], &r)
        invariant
            k <= e <= chars.len(),
            forall|m: int| k <= m < e ==> in_run(#[trigger] chars@[m], r),
        decreases chars.len() - e,
    {
        e = e + 1;
    }
    proof {
        lemma_run_end_at(chars@, k as int, e as int, r);
    }
    e
}

fn number_body_end(chars: &Vec<char>, k: usize) -> (e: usize)
    requires
        k < chars.len(),
        ascii_digit(chars@[k as int]),
    ensures
        e == number_end(chars@, k as int),
{
    if k + 1 < chars.len() && chars[k] == '0' {
        let n = chars[k + 1];
        if n == 'x' || n == 'X' || n == 'o' || n == 'O' || n == 'b' || n == 'B' {
            return scan_run(chars, k + 2, CharRun::AlphaNum);
        }
    }
    let mut e = scan_run(chars, k, CharRun::Digit);
    if e < chars.len() && chars[e] == '.' {
        e = scan_run(chars, e + 1, CharRun::Digit);
    }
    if e < chars.len() && (chars[e] == 'e' || chars[e] == 'E') {
        let mut c = e + 1;
        if c < chars.len() && (chars[c] == '+' || chars[c] == '-') {
            c = c + 1;
        }
        e = scan_run(chars, c, CharRun::Digit);
    }
    e
}

proof fn lemma_pieces_push(spans: Seq<Span>, sp: Span)
    ensures
        pieces_of(spans.push(sp)) == pieces_of(spans).push(span_piece(sp)),
{
    assert(pieces_of(spans.push(sp)) =~= pieces_of(spans).push(span_piece(sp)));
}

/// Appends the characters `start..end` as one span, unless that range is
/// empty.
fn push_span(spans: &mut Vec<Span>, chars: &Vec<char>, start: usize, end: usize, tok: Tok)
    requires
        start <= end <= chars.len(),
    ensures
        pieces_of(final(spans)@) == pieces_of(old(spans)@) + piece_if(
            chars@,
            start as int,
            end as int,
            tok,
        ),
{
    if start < end {
        let text = string_from_chars(vstd::slice::slice_subrange(chars.as_slice(), start, end));
        let sp = Span { text, tok };
        proof {
            lemma_pieces_push(spans@, sp);
        }
        spans.push(sp);
        assert(pieces_of(spans@) =~= pieces_of(old(spans)@) + piece_if(
            chars@,
            start as int,
            end as int,
            tok,
        ));
    } else {
        assert(pieces_of(spans@) =~= pieces_of(old(spans)@) + piece_if(
            chars@,
            start as int,
            end as int,
            tok,
        ));
    }
}

/// Scans a string literal whose opening quote is at `start`.
fn scan_string(spans: &mut Vec<Span>, chars: &Vec<char>, start: usize) -> (end: usize)
    requires
        start < chars.len(),
    ensures
        pieces_of(final(spans)@) == pieces_of(old(spans)@) + string_scan(
            chars@,
            start as int,
            start + 1,
        ).0,
        end == string_scan(chars@, start as int, start + 1).1,
{
    let ghost s = chars@;
    let ghost base = pieces_of(spans@);
    let ghost goal = string_scan(s, start as int, start + 1);
    let mut seg = start;
    let mut k = start + 1;
    while k < chars.len()
        invariant
            seg <= k <= chars.len(),
            s == chars@,
            goal == string_scan(s, start as int, start + 1),
            base == pieces_of(old(spans)@),
            pieces_of(spans@) + string_scan(s, seg as int, k as int).0 == base + goal.0,
            string_scan(s, seg as int, k as int).1 == goal.1,
        decreases chars.len() - k,
    {
        if chars[k] == '\\' && k + 1 < chars.len() {
            let ghost before = pieces_of(spans@);
            let ghost rest = string_scan(s, k + 2, k + 2);
            push_span(spans, chars, seg, k, Tok::String);
            push_span(spans, chars, k, k + 2, Tok::Escape);
            assert(pieces_of(spans@) + rest.0 =~= before + string_scan(s, seg as int, k as int).0);
            k = k + 2;
            seg = k;
        } else if chars[k] == '"' {
            push_span(spans, chars, seg, k + 1, Tok::String);
            return k + 1;
        } else {
            k = k + 1;
        }
    }
    push_span(spans, chars, seg, k, Tok::String);
    k
}

/// Scans the `.name` property accesses that follow a symbol ending at `k`.
fn scan_properties(spans: &mut Vec<Span>, chars: &Vec<char>, k: usize) -> (end: usize)
    requires
        k <= chars.len(),
    ensures
        pieces_of(final(spans)@) == pieces_of(old(spans)@) + prop_scan(chars@, k as int).0,
        end == prop_scan(chars@, k as int).1,
{
    let ghost s = chars@;
    let ghost base = pieces_of(spans@);
    let ghost goal = prop_scan(s, k as int);
    let mut i = k;
    while i < chars.len() && chars[i] == '.' && i + 1 < chars.len() && char_in_run(
        chars[i + 1],
        &CharRun::PropertyTail,
    )
        invariant
            k <= i <= chars.len(),
            s == chars@,
            goal == prop_scan(s, k as int),
            base == pieces_of(old(spans)@),
            pieces_of(spans@) + prop_scan(s, i as int).0 == base + goal.0,
            prop_scan(s, i as int).1 == goal.1,
        decreases chars.len() - i,
    {
        let ghost before = pieces_of(spans@);
        let e = scan_run(chars, i + 1, CharRun::PropertyTail);
        let ghost rest = prop_scan(s, e as int);
        push_span(spans, chars, i, e, Tok::Property);
        assert(pieces_of(spans@) + rest.0 =~= before + prop_scan(s, i as int).0);
        i = e;
    }
    assert(pieces_of(spans@) =~= pieces_of(spans@) + prop_scan(s, i as int).0);
    i
}

/// Cuts the source into pieces, before context annotation.
fn lex_spans(chars: &Vec<char>) -> (spans: Vec<Span>)
    ensures
        pieces_of(spans@) == lex(chars@),
{
    let ghost s = chars@;
    let mut spans: Vec<Span> = Vec::new();
    let mut i: usize = 0;
    assert(pieces_of(spans@) =~= seq![]);
    while i < chars.len()
        invariant
            i <= chars.len(),
            s == chars@,
            pieces_of(spans@) + lex_from(s, i as int) == lex(s),
        decreases chars.len() - i,
    {
        let ghost i0 = i as int;
        let ghost before = pieces_of(spans@);
        let ghost step = scan_step(s, i0);
        proof {
            lemma_scan_step_bounds(s, i0);
        }
        let c = chars[i];
        if is_whitespace(c) {
            let e = scan_run(chars, i, CharRun::Whitespace);
            push_span(&mut spans, chars, i, e, Tok::Symbol);
            i = e;
        } else if c == ';' {
            push_span(&mut spans, chars, i, chars.len(), Tok::Comment);
            i = chars.len();
        } else if c == '"' {
            i = scan_string(&mut spans, chars, i);
        } else if c == ':' {
            let e = scan_run(chars, i + 1, CharRun::KeywordTail);
            push_span(&mut spans, chars, i, e, Tok::Keyword);
            i = e;
        } else if c == '#' && i + 1 < chars.len() && (chars[i + 1] == '[' || chars[i + 1] == '{') {
            push_span(&mut spans, chars, i, i + 2, Tok::ReaderMacro);
            i = i + 2;
        } else if c == '(' || c == ')' || c == '[' || c == ']' || c == '{' || c == '}' {
            push_span(&mut spans, chars, i, i + 1, Tok::Paren);
            i = i + 1;
        } else if c == '\'' {
            push_span(&mut spans, chars, i, i + 1, Tok::Quote);
            i = i + 1;
        } else if c == '-' && i + 1 < chars.len() && is_ascii_digit(chars[i + 1]) {
            let e = number_body_end(chars, i + 1);
            proof {
                lemma_number_end_bounds(s, i0 + 1);
            }
            push_span(&mut spans, chars, i, e, Tok::Number);
            i = e;
        } else if is_ascii_digit(c) {
            let e = number_body_end(chars, i);
            proof {
                lemma_number_end_bounds(s, i0);
            }
            push_span(&mut spans, chars, i, e, Tok::Number);
            i = e;
        } else if is_sym_char(c) {
            let e = scan_run(chars, i, CharRun::Symbol);
            proof {
                lemma_run_end_bounds(s, i0, CharRun::Symbol);
            }
            let text = string_from_chars(vstd::slice::slice_subrange(chars.as_slice(), i, e));
            let tok = classify_symbol(text.as_str());
            let sp = Span { text, tok };
            proof {
                lemma_pieces_push(spans@, sp);
            }
            spans.push(sp);
            i = scan_properties(&mut spans, chars, e);
        } else if c == '.' {
            push_span(&mut spans, chars, i, i + 1, Tok::Operator);
            i = i + 1;
        } else {
            push_span(&mut spans, chars, i, i + 1, Tok::Symbol);
            i = i + 1;
        }
        assert(pieces_of(spans@) =~= before + step.0);
        assert(i as int == step.1);
        assert(lex_from(s, i0) == step.0 + lex_from(s, step.1));
        assert(pieces_of(spans@) + lex_from(s, i as int) =~= before + lex_from(s, i0));
    }
    assert(pieces_of(spans@) =~= pieces_of(spans@) + lex_from(s, i as int));
    spans
}

/// Classifies a symbol by its lowercase form.
fn classify_symbol(text: &str) -> (tok: Tok)
    ensures
        tok == symbol_class(lowercase(text@)),
{
    let lower = to_lowercase(text);
    let w = lower.as_str();
    if constant_word(w) {
        return Tok::Constant;
    }
    let lc = chars_of(w);
    if lc.len() > 2 && lc[0] == '*' && lc[lc.len() - 1] == '*' {
        return Tok::Binding;
    }
    if special_form(w) {
        Tok::Special
    } else if operator_word(w) {
        Tok::Operator
    } else if game_command(w) {
        Tok::Command
    } else if builtin_word(w) {
        Tok::Builtin
    } else {
        Tok::Symbol
    }
}


fn constant_word(w: &str) -> (b: bool)
    ensures
        b == is_constant_word(w@),
{
    str_eq(w, "nil")
        || str_eq(w, "true")
        || str_eq(w, "false")
        || str_eq(w, "_")
}

fn special_form(w: &str) -> (b: bool)
    ensures
        b == is_special_form(w@),
{
    str_eq(w, "quote")
        || str_eq(w, "if")
        || str_eq(w, "do")
        || str_eq(w, "let")
        || str_eq(w, "fn")
        || str_eq(w, "const")
        || str_eq(w, "defmacro")
        || str_eq(w, "set!")
        || str_eq(w, "try")
        || str_eq(w, "catch")
        || str_eq(w, "and")
        || str_eq(w, "or")
        || str_eq(w, "match")
        || str_eq(w, "bind-key")
        || str_eq(w, "recur")
        || str_eq(w, "defrule")
}

fn operator_word(w: &str) -> (b: bool)
    ensures
        b == is_operator(w@),
{
    str_eq(w, "+")
        || str_eq(w, "-")
        || str_eq(w, "*")
        || str_eq(w, "/")
        || str_eq(w, "%")
        || str_eq(w, "=")
        || str_eq(w, "==")
        || str_eq(w, "!=")
        || str_eq(w, "<")
        || str_eq(w, ">")
        || str_eq(w, "<=")
        || str_eq(w, ">=")
        || str_eq(w, ".")
}

fn game_command(w: &str) -> (b: bool)
    ensures
        b == is_game_command(w@),
{
    str_eq(w, "adjacent?")
        || str_eq(w, "ascend!")
        || str_eq(w, "attack!")
        || str_eq(w, "block!")
        || str_eq(w, "damage!")
        || str_eq(w, "descend!")
        || str_eq(w, "do-attack")
        || str_eq(w, "fire?")
        || str_eq(w, "flee-step!")
        || str_eq(w, "heal")
        || str_eq(w, "help")
        || str_eq(w, "hp")
        || str_eq(w, "inspect-fragment")
        || str_eq(w, "load!")
        || str_eq(w, "log")
        || str_eq(w, "manhattan")
        || str_eq(w, "move!")
        || str_eq(w, "open-registry")
        || str_eq(w, "player-facing")
        || str_eq(w, "query-registry")
        || str_eq(w, "quit!")
        || str_eq(w, "quit-terminal")
        || str_eq(w, "random-step!")
        || str_eq(w, "raycast-cone")
        || str_eq(w, "roll-odds?")
        || str_eq(w, "save!")
        || str_eq(w, "set-level")
        || str_eq(w, "shove!")
        || str_eq(w, "step-toward!")
        || str_eq(w, "toggle-console!")
        || str_eq(w, "toggle-inspector!")
        || str_eq(w, "toggle-keybindings!")
        || str_eq(w, "use-vapor-canteen!")
        || str_eq(w, "wait!")
        || str_eq(w, "wipe!")
}

fn builtin_word(w: &str) -> (b: bool)
    ensures
        b == is_builtin(w@),
{
    str_eq(w, "apply")
        || str_eq(w, "assoc")
        || str_eq(w, "bool?")
        || str_eq(w, "concat")
        || str_eq(w, "conj")
        || str_eq(w, "cons")
        || str_eq(w, "contains?")
        || str_eq(w, "dissoc")
        || str_eq(w, "drop")
        || str_eq(w, "empty?")
        || str_eq(w, "eval")
        || str_eq(w, "every")
        || str_eq(w, "filter")
        || str_eq(w, "first")
        || str_eq(w, "float?")
        || str_eq(w, "fn?")
        || str_eq(w, "get")
        || str_eq(w, "int?")
        || str_eq(w, "keyword?")
        || str_eq(w, "keys")
        || str_eq(w, "lambda")
        || str_eq(w, "len")
        || str_eq(w, "list")
        || str_eq(w, "list?")
        || str_eq(w, "map")
        || str_eq(w, "map?")
        || str_eq(w, "nil?")
        || str_eq(w, "not")
        || str_eq(w, "nth")
        || str_eq(w, "print")
        || str_eq(w, "print!")
        || str_eq(w, "println")
        || str_eq(w, "println!")
        || str_eq(w, "range")
        || str_eq(w, "range-internal")
        || str_eq(w, "reduce")
        || str_eq(w, "rest")
        || str_eq(w, "reverse")
        || str_eq(w, "reverse-acc")
        || str_eq(w, "second")
        || str_eq(w, "set")
        || str_eq(w, "set?")
        || str_eq(w, "slurp")
        || str_eq(w, "some")
        || str_eq(w, "str")
        || str_eq(w, "string?")
        || str_eq(w, "symbol?")
        || str_eq(w, "take")
        || str_eq(w, "type")
        || str_eq(w, "vals")
        || str_eq(w, "vec")
        || str_eq(w, "vec?")
}


// ---------------------------------------------------------------------------
// Context annotation, stated

/// What the annotation pass remembers between spans.
pub struct AnnotState {
    /// Lowercase text of the previous significant span.
    pub prev: Option<Seq<char>>,
    /// Whether a parameter vector is expected next.
    pub pending: bool,
    /// Bracket depth of the parameter vector being read, if any.
    pub param_depth: Option<int>,
    /// Current square-bracket depth.
    pub depth: int,
}

pub open spec fn annot_init() -> AnnotState {
    AnnotState { prev: None, pending: false, param_depth: None, depth: 0 }
}

pub open spec fn all_whitespace(t: Seq<char>) -> bool {
    forall|k: int| 0 <= k < t.len() ==> unicode_whitespace(#[trigger] t[k])
}

/// Categories the annotation pass may refine.
pub open spec fn symbol_like(t: Tok) -> bool {
    t == Tok::Symbol || t == Tok::Call || t == Tok::Builtin || t == Tok::Command || t
        == Tok::Operator || t == Tok::Binding
}

/// The refined category of a symbol-like span with lowercase text `key`,
/// and whether a parameter vector is expected afterwards.
pub open spec fn retag(
    prev: Option<Seq<char>>,
    pending: bool,
    in_params: bool,
    key: Seq<char>,
    tok: Tok,
) -> (Tok, bool) {
    if key == "_"@ {
        (Tok::Constant, pending)
    } else if in_params {
        (if key == "&"@ {
            Tok::Special
        } else {
            Tok::Binding
        }, pending)
    } else if prev == Some("const"@) || prev == Some("defmacro"@) || prev == Some("defrule"@) {
        (Tok::Definition, if prev == Some("defmacro"@) {
            true
        } else {
            pending
        })
    } else if prev == Some("fn"@) {
        (Tok::Binding, false)
    } else if prev == Some("let"@) || prev == Some("set!"@) || prev == Some("catch"@) {
        (Tok::Binding, pending)
    } else if prev == Some("("@) && tok == Tok::Symbol {
        (Tok::Call, pending)
    } else {
        (tok, pending)
    }
}

/// One step of the annotation pass over piece `p`: the state after it and
/// the piece's final category.
pub open spec fn annotate_step(st: AnnotState, p: Piece) -> (AnnotState, Tok) {
    let text = p.0;
    let tok = p.1;
    if all_whitespace(text) {
        (st, tok)
    } else {
        let key = lowercase(text);
        if text == "["@ || text == "#["@ {
            let opens_params = st.pending && text == "["@;
            (
                AnnotState {
                    prev: Some(key),
                    pending: if opens_params {
                        false
                    } else {
                        st.pending
                    },
                    param_depth: if opens_params {
                        Some(st.depth + 1)
                    } else {
                        st.param_depth
                    },
                    depth: st.depth + 1,
                },
                tok,
            )
        } else if text == "]"@ {
            (
                AnnotState {
                    prev: Some(key),
                    pending: st.pending,
                    param_depth: if st.param_depth == Some(st.depth) {
                        None
                    } else {
                        st.param_depth
                    },
                    depth: if st.depth > 0 {
                        st.depth - 1
                    } else {
                        0
                    },
                },
                tok,
            )
        } else {
            let r = if symbol_like(tok) {
                retag(st.prev, st.pending, st.param_depth is Some, key, tok)
            } else {
                (tok, st.pending)
            };
            (
                AnnotState {
                    prev: Some(key),
                    pending: if key == "fn"@ {
                        true
                    } else {
                        r.1
                    },
                    param_depth: st.param_depth,
                    depth: st.depth,
                },
                r.0,
            )
        }
    }
}

/// The annotation state after the first `n` pieces.
pub open spec fn annotate_state(p: Seq<Piece>, n: int) -> AnnotState
    decreases n,
{
    if n <= 0 {
        annot_init()
    } else {
        annotate_step(annotate_state(p, n - 1), p[n - 1]).0
    }
}

pub open spec fn annotated_tok(p: Seq<Piece>, i: int) -> Tok {
    annotate_step(annotate_state(p, i), p[i]).1
}

/// The pieces with their categories refined by context.
pub open spec fn annotate_all(p: Seq<Piece>) -> Seq<Piece> {
    Seq::new(p.len(), |i: int| (p[i].0, annotated_tok(p, i)))
}

/// What `highlight` returns for the characters `s`.
pub open spec fn highlighted(s: Seq<char>) -> Seq<Piece> {
    annotate_all(lex(s))
}

// ---------------------------------------------------------------------------
// Context annotation, executed

pub open spec fn opt_text(o: Option<String>) -> Option<Seq<char>> {
    match o {
        Some(t) => Some(t@),
        None => None,
    }
}

pub open spec fn opt_depth(o: Option<usize>) -> Option<int> {
    match o {
        Some(d) => Some(d as int),
        None => None,
    }
}

fn whitespace_text(text: &str) -> (b: bool)
    ensures
        b == all_whitespace(text@),
{
    let cs = chars_of(text);
    let mut k: usize = 0;
    while k < cs.len()
        invariant
            k <= cs.len(),
            cs@ == text@,
            forall|m: int| 0 <= m < k ==> unicode_whitespace(#[trigger] cs@[m]),
        decreases cs.len() - k,
    {
        if !is_whitespace(cs[k]) {
            return false;
        }
        k = k + 1;
    }
    true
}

fn prev_is(prev: &Option<String>, w: &str) -> (b: bool)
    ensures
        b == (opt_text(*prev) == Some(w@)),
{
    match prev {
        Some(p) => str_eq(p.as_str(), w),
        None => false,
    }
}

fn symbol_like_tok(t: Tok) -> (b: bool)
    ensures
        b == symbol_like(t),
{
    match t {
        Tok::Symbol | Tok::Call | Tok::Builtin | Tok::Command | Tok::Operator | Tok::Binding => true,
        _ => false,
    }
}

fn retag_exec(prev: &Option<String>, pending: bool, in_params: bool, key: &str, tok: Tok) -> (r: (
    Tok,
    bool,
))
    ensures
        r == retag(opt_text(*prev), pending, in_params, key@, tok),
{
    if str_eq(key, "_") {
        (Tok::Constant, pending)
    } else if in_params {
        if str_eq(key, "&") {
            (Tok::Special, pending)
        } else {
            (Tok::Binding, pending)
        }
    } else if prev_is(prev, "const") || prev_is(prev, "defmacro") || prev_is(prev, "defrule") {
        (Tok::Definition, if prev_is(prev, "defmacro") {
            true
        } else {
            pending
        })
    } else if prev_is(prev, "fn") {
        (Tok::Binding, false)
    } else if prev_is(prev, "let") || prev_is(prev, "set!") || prev_is(prev, "catch") {
        (Tok::Binding, pending)
    } else if prev_is(prev, "(") && tok == Tok::Symbol {
        (Tok::Call, pending)
    } else {
        (tok, pending)
    }
}

/// Refines the categories of the pieces by what comes before them:
/// definitions, bindings, parameter vectors and calls.
fn annotate_context(raw: &Vec<Span>) -> (out: Vec<Span>)
    ensures
        pieces_of(out@) == annotate_all(pieces_of(raw@)),
{
    let ghost items = pieces_of(raw@);
    let mut out: Vec<Span> = Vec::new();
    let mut prev: Option<String> = None;
    let mut pending = false;
    let mut param_depth: Option<usize> = None;
    let mut depth: usize = 0;
    let mut i: usize = 0;
    while i < raw.len()
        invariant
            i <= raw.len(),
            items == pieces_of(raw@),
            out.len() == i,
            forall|j: int|
                0 <= j < i ==> #[trigger] pieces_of(out@)[j] == (items[j].0, annotated_tok(items, j)),
            opt_text(prev) == annotate_state(items, i as int).prev,
            pending == annotate_state(items, i as int).pending,
            opt_depth(param_depth) == annotate_state(items, i as int).param_depth,
            depth == annotate_state(items, i as int).depth,
            depth <= i,
        decreases raw.len() - i,
    {
        let ghost st = annotate_state(items, i as int);
        let ghost step = annotate_step(st, items[i as int]);
        assert(annotate_state(items, i + 1) == step.0);
        let text = raw[i].text.clone();
        let tok = raw[i].tok;
        let mut new_tok = tok;
        if !whitespace_text(text.as_str()) {
            let key = to_lowercase(text.as_str());
            let is_open = str_eq(text.as_str(), "[");
            if is_open || str_eq(text.as_str(), "#[") {
                if pending && is_open {
                    param_depth = Some(depth + 1);
                    pending = false;
                }
                depth = depth + 1;
                prev = Some(key);
            } else if str_eq(text.as_str(), "]") {
                match param_depth {
                    Some(d) => {
                        if d == depth {
                            param_depth = None;
                        }
                    },
                    None => {},
                }
                depth = if depth > 0 {
                    depth - 1
                } else {
                    0
                };
                prev = Some(key);
            } else {
                if symbol_like_tok(tok) {
                    let r = retag_exec(&prev, pending, param_depth.is_some(), key.as_str(), tok);
                    new_tok = r.0;
                    pending = r.1;
                }
                if str_eq(key.as_str(), "fn") {
                    pending = true;
                }
                prev = Some(key);
            }
        }
        let sp = Span { text, tok: new_tok };
        proof {
            lemma_pieces_push(out@, sp);
        }
        out.push(sp);
        i = i + 1;
    }
    assert(pieces_of(out@) =~= annotate_all(items));
    out
}

/// Cuts a line of Glyph source into categorized spans.
pub fn highlight(source: &str) -> (spans: Vec<Span>)
    ensures
        pieces_of(spans@) == highlighted(source@),
        joined(pieces_of(spans@)) == source@,
        forall|i: int| 0 <= i < spans.len() ==> (#[trigger] spans@[i]).text@.len() > 0,
{
    let chars = chars_of(source);
    let raw = lex_spans(&chars);
    let spans = annotate_context(&raw);
    proof {
        lemma_highlight_covers_source(source@);
        lemma_highlight_spans_nonempty(source@);
        assert forall|i: int| 0 <= i < spans.len() implies (#[trigger] spans@[i]).text@.len() > 0 by {
            assert(pieces_of(spans@)[i] == span_piece(spans@[i]));
        }
    }
    spans
}


// ---------------------------------------------------------------------------
// Laws

/// Every piece has at least one character.
pub open spec fn nonempty_pieces(p: Seq<Piece>) -> bool {
    forall|m: int| 0 <= m < p.len() ==> (#[trigger] p[m]).0.len() > 0
}

pub proof fn lemma_joined_append(a: Seq<Piece>, b: Seq<Piece>)
    ensures
        joined(a + b) == joined(a) + joined(b),
    decreases b.len(),
{
    if b.len() == 0 {
        assert(a + b =~= a);
        assert(joined(a) + joined(b) =~= joined(a));
    } else {
        assert((a + b).drop_last() =~= a + b.drop_last());
        lemma_joined_append(a, b.drop_last());
        assert(joined(a + b) =~= joined(a) + joined(b));
    }
}

proof fn lemma_joined_single(x: Piece)
    ensures
        joined(seq![x]) == x.0,
{
    let one = seq![x];
    assert(one.drop_last() =~= Seq::<Piece>::empty());
    assert(joined(one.drop_last()) =~= Seq::<char>::empty());
    assert(one.last() == x);
    assert(joined(one) =~= x.0);
}

proof fn lemma_joined_piece_if(s: Seq<char>, a: int, b: int, tok: Tok)
    requires
        0 <= a <= b <= s.len(),
    ensures
        joined(piece_if(s, a, b, tok)) == s.subrange(a, b),
        nonempty_pieces(piece_if(s, a, b, tok)),
{
    if a < b {
        lemma_joined_single((s.subrange(a, b), tok));
    } else {
        assert(s.subrange(a, b) =~= Seq::<char>::empty());
    }
}

proof fn lemma_nonempty_append(a: Seq<Piece>, b: Seq<Piece>)
    requires
        nonempty_pieces(a),
        nonempty_pieces(b),
    ensures
        nonempty_pieces(a + b),
{
    assert forall|m: int| 0 <= m < (a + b).len() implies (#[trigger] (a + b)[m]).0.len() > 0 by {
        if m < a.len() {
            assert((a + b)[m] == a[m]);
        } else {
            assert((a + b)[m] == b[m - a.len()]);
        }
    }
}

proof fn lemma_string_scan_text(s: Seq<char>, seg: int, k: int)
    requires
        0 <= seg <= k <= s.len(),
    ensures
        joined(string_scan(s, seg, k).0) == s.subrange(seg, string_scan(s, seg, k).1),
        nonempty_pieces(string_scan(s, seg, k).0),
    decreases s.len() - k,
{
    lemma_string_scan_bounds(s, seg, k);
    if k < s.len() {
        if s[k] == '\\' && k + 1 < s.len() {
            let rest = string_scan(s, k + 2, k + 2);
            lemma_string_scan_text(s, k + 2, k + 2);
            lemma_string_scan_bounds(s, k + 2, k + 2);
            let esc = seq![(s.subrange(k, k + 2), Tok::Escape)];
            lemma_joined_piece_if(s, seg, k, Tok::String);
            lemma_joined_single((s.subrange(k, k + 2), Tok::Escape));
            lemma_joined_append(piece_if(s, seg, k, Tok::String), esc);
            lemma_joined_append(piece_if(s, seg, k, Tok::String) + esc, rest.0);
            assert(s.subrange(seg, k) + s.subrange(k, k + 2) + s.subrange(k + 2, rest.1)
                =~= s.subrange(seg, rest.1));
            lemma_nonempty_append(piece_if(s, seg, k, Tok::String), esc);
            lemma_nonempty_append(piece_if(s, seg, k, Tok::String) + esc, rest.0);
        } else if s[k] == '"' {
            lemma_joined_piece_if(s, seg, k + 1, Tok::String);
        } else {
            lemma_string_scan_text(s, seg, k + 1);
        }
    } else {
        lemma_joined_piece_if(s, seg, k, Tok::String);
    }
}

proof fn lemma_prop_scan_text(s: Seq<char>, k: int)
    requires
        0 <= k <= s.len(),
    ensures
        joined(prop_scan(s, k).0) == s.subrange(k, prop_scan(s, k).1),
        nonempty_pieces(prop_scan(s, k).0),
    decreases s.len() - k,
{
    if k + 1 < s.len() && s[k] == '.' && in_run(s[k + 1], CharRun::PropertyTail) {
        let e = run_end(s, k + 1, CharRun::PropertyTail);
        lemma_run_end_bounds(s, k + 1, CharRun::PropertyTail);
        lemma_prop_scan_text(s, e);
        lemma_prop_scan_bounds(s, e);
        let rest = prop_scan(s, e);
        let head = seq![(s.subrange(k, e), Tok::Property)];
        lemma_joined_single((s.subrange(k, e), Tok::Property));
        lemma_joined_append(head, rest.0);
        assert(s.subrange(k, e) + s.subrange(e, rest.1) =~= s.subrange(k, rest.1));
        lemma_nonempty_append(head, rest.0);
    } else {
        assert(s.subrange(k, k) =~= Seq::<char>::empty());
        assert(joined(prop_scan(s, k).0) =~= Seq::<char>::empty());
    }
}

proof fn lemma_single_piece(s: Seq<char>, a: int, b: int, tok: Tok)
    requires
        0 <= a < b <= s.len(),
    ensures
        joined(seq![(s.subrange(a, b), tok)]) == s.subrange(a, b),
        nonempty_pieces(seq![(s.subrange(a, b), tok)]),
{
    lemma_joined_single((s.subrange(a, b), tok));
}

proof fn lemma_scan_step_text(s: Seq<char>, i: int)
    requires
        0 <= i < s.len(),
    ensures
        joined(scan_step(s, i).0) == s.subrange(i, scan_step(s, i).1),
        nonempty_pieces(scan_step(s, i).0),
{
    lemma_scan_step_bounds(s, i);
    let c = s[i];
    let e = scan_step(s, i).1;
    if unicode_whitespace(c) {
        lemma_single_piece(s, i, e, Tok::Symbol);
    } else if c == ';' {
        lemma_single_piece(s, i, e, Tok::Comment);
    } else if c == '"' {
        lemma_string_scan_text(s, i, i + 1);
    } else if c == ':' {
        lemma_single_piece(s, i, e, Tok::Keyword);
    } else if c == '#' && i + 1 < s.len() && (s[i + 1] == '[' || s[i + 1] == '{') {
        lemma_single_piece(s, i, e, Tok::ReaderMacro);
    } else if bracket_char(c) {
        lemma_single_piece(s, i, e, Tok::Paren);
    } else if c == '\'' {
        lemma_single_piece(s, i, e, Tok::Quote);
    } else if c == '-' && i + 1 < s.len() && ascii_digit(s[i + 1]) {
        lemma_single_piece(s, i, e, Tok::Number);
    } else if ascii_digit(c) {
        lemma_single_piece(s, i, e, Tok::Number);
    } else if sym_char(c) {
        let m = run_end(s, i, CharRun::Symbol);
        lemma_run_end_bounds(s, i, CharRun::Symbol);
        let text = s.subrange(i, m);
        let head = seq![(text, symbol_class(lowercase(text)))];
        lemma_single_piece(s, i, m, symbol_class(lowercase(text)));
        lemma_prop_scan_text(s, m);
        lemma_prop_scan_bounds(s, m);
        lemma_joined_append(head, prop_scan(s, m).0);
        assert(s.subrange(i, m) + s.subrange(m, e) =~= s.subrange(i, e));
        lemma_nonempty_append(head, prop_scan(s, m).0);
    } else if c == '.' {
        lemma_single_piece(s, i, e, Tok::Operator);
    } else {
        lemma_single_piece(s, i, e, Tok::Symbol);
    }
}

/// The pieces the lexer emits from `i` on spell out the rest of the source,
/// and none of them is empty.
pub proof fn lemma_lex_from_text(s: Seq<char>, i: int)
    requires
        0 <= i <= s.len(),
    ensures
        joined(lex_from(s, i)) == s.subrange(i, s.len() as int),
        nonempty_pieces(lex_from(s, i)),
    decreases s.len() - i,
{
    if i < s.len() {
        let st = scan_step(s, i);
        lemma_scan_step_bounds(s, i);
        lemma_scan_step_text(s, i);
        lemma_lex_from_text(s, st.1);
        lemma_joined_append(st.0, lex_from(s, st.1));
        assert(s.subrange(i, st.1) + s.subrange(st.1, s.len() as int) =~= s.subrange(
            i,
            s.len() as int,
        ));
        lemma_nonempty_append(st.0, lex_from(s, st.1));
    } else {
        assert(s.subrange(i, s.len() as int) =~= Seq::<char>::empty());
    }
}

proof fn lemma_joined_same_texts(a: Seq<Piece>, b: Seq<Piece>)
    requires
        a.len() == b.len(),
        forall|m: int| 0 <= m < a.len() ==> (#[trigger] a[m]).0 == b[m].0,
    ensures
        joined(a) == joined(b),
    decreases a.len(),
{
    if a.len() > 0 {
        lemma_joined_same_texts(a.drop_last(), b.drop_last());
    }
}

/// Highlighting loses and adds no character: the spans' texts, one after
/// the other, are the source.
pub proof fn lemma_highlight_covers_source(s: Seq<char>)
    ensures
        joined(highlighted(s)) == s,
{
    lemma_lex_from_text(s, 0);
    lemma_joined_same_texts(highlighted(s), lex(s));
    assert(s.subrange(0, s.len() as int) =~= s);
}

/// No span of a highlighted line is empty.
pub proof fn lemma_highlight_spans_nonempty(s: Seq<char>)
    ensures
        nonempty_pieces(highlighted(s)),
{
    lemma_lex_from_text(s, 0);
    assert forall|m: int| 0 <= m < highlighted(s).len() implies (#[trigger] highlighted(
        s,
    )[m]).0.len() > 0 by {
        assert(highlighted(s)[m].0 == lex(s)[m].0);
    }
}

} // verus!
