use xlyph::highlight::{highlight, Span, Tok};

fn assert_token(spans: &[Span], text: &str, tok: Tok) {
    let span = spans
        .iter()
        .find(|span| span.text == text)
        .unwrap_or_else(|| panic!("missing token {text:?} in {spans:?}"));
    assert_eq!(span.tok, tok);
}

#[test]
fn test_empty() {
    assert!(highlight("").is_empty());
}

#[test]
fn test_parens() {
    let spans = highlight("()");
    assert_eq!(spans.len(), 2);
    assert_eq!(spans[0].tok, Tok::Paren);
    assert_eq!(spans[1].tok, Tok::Paren);
}

#[test]
fn test_keyword() {
    let spans = highlight(":phase :enemy-ai");
    assert_eq!(spans.len(), 3);
    assert_eq!(spans[0].tok, Tok::Keyword);
    assert_eq!(spans[2].tok, Tok::Keyword);
}

#[test]
fn test_string() {
    let spans = highlight(r#""hello" "a\nb""#);
    assert_eq!(spans[0].tok, Tok::String);
    assert!(spans.iter().any(|span| span.tok == Tok::Escape));
    assert_eq!(spans.last().unwrap().tok, Tok::String);
}

#[test]
fn test_numbers() {
    let spans = highlight("42 -17 3.14 0xff");
    assert_eq!(spans[0].tok, Tok::Number);
    assert_eq!(spans[2].tok, Tok::Number);
    assert_eq!(spans[4].tok, Tok::Number);
    assert_eq!(spans[6].tok, Tok::Number);
}

#[test]
fn test_comment() {
    let spans = highlight("(+ 1 2) ; adds numbers");
    let last = spans.last().unwrap();
    assert_eq!(last.tok, Tok::Comment);
    assert!(last.text.contains("adds numbers"));
}

#[test]
fn test_special_forms() {
    let spans = highlight("(if true :ok :no)");
    assert_eq!(spans[0].tok, Tok::Paren);
    assert_eq!(spans[1].tok, Tok::Special);
}

#[test]
fn test_constants() {
    let spans = highlight("nil true false");
    assert_eq!(spans[0].tok, Tok::Constant);
    assert_eq!(spans[2].tok, Tok::Constant);
    assert_eq!(spans[4].tok, Tok::Constant);
}

#[test]
fn test_quote() {
    let spans = highlight("'(1 2)");
    assert_eq!(spans[0].tok, Tok::Quote);
}

#[test]
fn test_dotted_access() {
    let spans = highlight("player.pos");
    assert_eq!(spans[0].text, "player");
    assert_eq!(spans[0].tok, Tok::Symbol);
    assert_eq!(spans[1].text, ".pos");
    assert_eq!(spans[1].tok, Tok::Property);
}

#[test]
fn test_definitions_and_bindings() {
    let spans = highlight("(const answer (fn [x] (+ x 1)))");
    assert_token(&spans, "const", Tok::Special);
    assert_token(&spans, "answer", Tok::Definition);
    assert_token(&spans, "fn", Tok::Special);
    assert_token(&spans, "x", Tok::Binding);
}

#[test]
fn test_builtin_command_operator_and_call() {
    let spans = highlight("(move! :north) (list (+ a 1)) (custom-call)");
    assert_token(&spans, "move!", Tok::Command);
    assert_token(&spans, "list", Tok::Builtin);
    assert_token(&spans, "+", Tok::Operator);
    assert_token(&spans, "custom-call", Tok::Call);
}

#[test]
fn test_reader_macros() {
    let spans = highlight("#[:red #{:blue}]");
    assert_eq!(spans[0].tok, Tok::ReaderMacro);
    assert!(spans
        .iter()
        .any(|span| span.text == "#{" && span.tok == Tok::ReaderMacro));
}

// Own scenarios.

#[test]
fn spans_spell_out_the_source() {
    for src in [
        "(defrule slime-hunt {:phase :enemy-ai} (step-toward! self player.pos))",
        "\"unterminated \\\" string",
        "#[1 2] #{:a} # weird @ chars é ; comment",
        "-x -1.5e+3 0b101 .5 a.b->c.",
    ] {
        let spans = highlight(src);
        let joined: String = spans.iter().map(|s| s.text.as_str()).collect();
        assert_eq!(joined, src);
        assert!(spans.iter().all(|s| !s.text.is_empty()));
    }
}

#[test]
fn macro_parameters_and_rest_marker() {
    let spans = highlight("(defmacro when [c & body] body)");
    assert_token(&spans, "when", Tok::Definition);
    assert_token(&spans, "c", Tok::Binding);
    assert_token(&spans, "&", Tok::Special);
}

#[test]
fn earmuffs_underscore_and_let_bindings() {
    let spans = highlight("(let [*depth* _] (set! y 2))");
    assert_token(&spans, "*depth*", Tok::Binding);
    assert_token(&spans, "_", Tok::Constant);
    assert_token(&spans, "y", Tok::Binding);
    assert_token(&spans, "set!", Tok::Special);
}

#[test]
fn string_escape_spans() {
    let spans = highlight("\"a\\nb\"");
    let texts: Vec<&str> = spans.iter().map(|s| s.text.as_str()).collect();
    assert_eq!(texts, vec!["\"a", "\\n", "b\""]);
    assert_eq!(spans[1].tok, Tok::Escape);
}

#[test]
fn number_forms() {
    let spans = highlight("1.5e-3 0XFF");
    assert_eq!(spans[0].text, "1.5e-3");
    assert_eq!(spans[0].tok, Tok::Number);
    assert_eq!(spans[2].text, "0XFF");
}

#[test]
fn span_colors() {
    let spans = highlight("(x)");
    assert_eq!(spans[0].color(), (126, 136, 150));
    assert_eq!(spans[1].color(), (158, 202, 255));
    let spans = highlight("y");
    assert_eq!(spans[0].color(), (255, 255, 255));
}
