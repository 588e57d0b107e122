use turtle_graphics::lexer::{tokenize, Numeral, Token};

/// Convenience: lex `src` and return only the token types, dropping line info.
fn toks(src: &str) -> Vec<Token> {
    tokenize(src).tokens
}

/// The number token that the literal of `v` lexes to.
fn num(v: f64) -> Token {
    Token::Number(Numeral {
        negative: v.is_sign_negative(),
        text: format!("{}", v.abs()),
    })
}

/// The value of a number token's literal.
fn value(t: &Token) -> Option<f64> {
    match t {
        Token::Number(n) => {
            let v = n.text.parse::<f64>().unwrap_or(0.0);
            Some(if n.negative { -v } else { v })
        }
        _ => None,
    }
}

// ── Keywords ──────────────────────────────────────────────────────────────────

#[test]
fn lex_all_keywords() {
    let src = "forward turn pen color set print dotimes to";
    assert_eq!(
        toks(src),
        vec![
            Token::Forward, Token::Turn, Token::Pen, Token::Color,
            Token::SetVar, Token::Print, Token::DoTimes, Token::To,
        ]
    );
}

#[test]
fn lex_keyword_aliases() {
    // fd → Forward, rt → Turn, repeat → DoTimes, define → To, colour → Color
    let src = "fd rt repeat define colour";
    assert_eq!(
        toks(src),
        vec![Token::Forward, Token::Turn, Token::DoTimes, Token::To, Token::Color]
    );
}

#[test]
fn lex_keywords_are_case_insensitive() {
    assert_eq!(toks("FORWARD"), vec![Token::Forward]);
    assert_eq!(toks("Turn"), vec![Token::Turn]);
    assert_eq!(toks("PEN"), vec![Token::Pen]);
    assert_eq!(toks("DoTimes"), vec![Token::DoTimes]);
}

// ── Numbers ───────────────────────────────────────────────────────────────────

#[test]
fn lex_positive_integer() {
    assert_eq!(toks("42"), vec![num(42.0)]);
}

#[test]
fn lex_positive_float() {
    assert_eq!(toks("3.14"), vec![num(3.14)]);
}

#[test]
fn lex_negative_integer() {
    assert_eq!(toks("-90"), vec![num(-90.0)]);
}

#[test]
fn lex_negative_float() {
    assert_eq!(toks("-1.5"), vec![num(-1.5)]);
}

#[test]
fn lex_zero() {
    assert_eq!(toks("0"), vec![num(0.0)]);
}

// ── Identifiers ───────────────────────────────────────────────────────────────

#[test]
fn lex_identifier() {
    assert_eq!(toks("myVar"), vec![Token::Ident("myVar".into())]);
}

#[test]
fn lex_single_letter_identifier() {
    assert_eq!(toks("n"), vec![Token::Ident("n".into())]);
}

#[test]
fn lex_identifier_with_underscore() {
    assert_eq!(toks("my_proc"), vec![Token::Ident("my_proc".into())]);
}

// ── Operators and delimiters ──────────────────────────────────────────────────

#[test]
fn lex_arithmetic_operators() {
    assert_eq!(
        toks("+ - * /"),
        vec![Token::Plus, Token::Minus, Token::Star, Token::Slash]
    );
}

#[test]
fn lex_delimiters() {
    assert_eq!(
        toks("{ } ( )"),
        vec![Token::LBrace, Token::RBrace, Token::LParen, Token::RParen]
    );
}

/// A '-' not immediately followed by a digit becomes a Minus operator.
#[test]
fn lex_minus_as_binary_operator() {
    let ts = toks("(n - 5)");
    assert!(matches!(ts[2], Token::Minus));
    assert!(matches!(value(&ts[3]), Some(v) if (v - 5.0).abs() < 1e-12));
}

/// A '-' immediately followed by a digit is a negative-number prefix.
#[test]
fn lex_negative_prefix_no_space() {
    let ts = toks("turn -90");
    assert_eq!(ts[0], Token::Turn);
    assert!(matches!(value(&ts[1]), Some(v) if (v + 90.0).abs() < 1e-12));
}

// ── Comments ──────────────────────────────────────────────────────────────────

#[test]
fn lex_comment_is_skipped() {
    let ts = toks("# this is a comment\nforward");
    assert_eq!(ts, vec![Token::Forward]);
}

#[test]
fn lex_inline_comment() {
    let ts = toks("forward 100 # move ahead");
    assert_eq!(ts, vec![Token::Forward, num(100.0)]);
}

#[test]
fn lex_empty_input() {
    assert!(toks("").is_empty());
}

#[test]
fn lex_whitespace_only() {
    assert!(toks("   \t\n  ").is_empty());
}

// ── Line numbers ──────────────────────────────────────────────────────────────

#[test]
fn lex_line_numbers_start_at_one() {
    let stream = tokenize("forward");
    assert_eq!(stream.lines[0], 1);
}

#[test]
fn lex_line_numbers_increment_on_newline() {
    let stream = tokenize("forward\nturn\npen");
    assert_eq!(stream.lines, vec![1, 2, 3]);
}

#[test]
fn lex_line_numbers_skip_comment_lines() {
    let stream = tokenize("forward\n# comment\nturn");
    assert_eq!(stream.lines[0], 1);
    assert_eq!(stream.lines[1], 3);
}

// ── Full small programs ───────────────────────────────────────────────────────

#[test]
fn lex_simple_program() {
    let ts = toks("pen 1\nforward 100\nturn 90");
    assert_eq!(
        ts,
        vec![
            Token::Pen, num(1.0),
            Token::Forward, num(100.0),
            Token::Turn, num(90.0),
        ]
    );
}

#[test]
fn lex_expression_in_parens() {
    let ts = toks("(n + 5)");
    assert_eq!(
        ts,
        vec![
            Token::LParen,
            Token::Ident("n".into()),
            Token::Plus,
            num(5.0),
            Token::RParen,
        ]
    );
}

// ── Further cases ─────────────────────────────────────────────────────────────

#[test]
fn lex_number_keeps_literal_text() {
    let ts = toks("007.50 -.5 1.2.3");
    assert_eq!(
        ts,
        vec![
            Token::Number(Numeral { negative: false, text: "007.50".into() }),
            Token::Number(Numeral { negative: true, text: ".5".into() }),
            Token::Number(Numeral { negative: false, text: "1.2".into() }),
            Token::Number(Numeral { negative: false, text: ".3".into() }),
        ]
    );
}

#[test]
fn lex_lone_dot_is_a_number_token() {
    assert_eq!(
        toks("."),
        vec![Token::Number(Numeral { negative: false, text: ".".into() })]
    );
}

#[test]
fn lex_mixed_case_keyword_and_identifier_case_kept() {
    assert_eq!(
        toks("CoLoUr Square"),
        vec![Token::Color, Token::Ident("Square".into())]
    );
}

#[test]
fn lex_unicode_letters_form_identifiers() {
    assert_eq!(toks("größe"), vec![Token::Ident("größe".into())]);
}

#[test]
fn lex_unknown_characters_are_skipped() {
    assert_eq!(toks("forward ; ! @ 5"), vec![Token::Forward, num(5.0)]);
}

#[test]
fn lex_identifier_with_digits_and_minus_after_word() {
    assert_eq!(
        toks("a1-2"),
        vec![Token::Ident("a1".into()), num(-2.0)]
    );
}

#[test]
fn lex_lines_never_decrease_and_stay_within_text() {
    let src = "forward 1\n\n# c\nturn 2 pen\n\n";
    let stream = tokenize(src);
    assert_eq!(stream.tokens.len(), stream.lines.len());
    assert_eq!(stream.lines, vec![1, 1, 4, 4, 4]);
    let newlines = src.chars().filter(|c| *c == '\n').count();
    assert!(stream.lines.windows(2).all(|w| w[0] <= w[1]));
    assert!(stream.lines.iter().all(|&l| l >= 1 && l <= 1 + newlines));
}

#[test]
fn lex_trailing_comment_changes_nothing() {
    for s in ["forward 10", "forward 10 -", "set x 3.5", "foo", "(a + b)", "", "x\ny"] {
        let with = format!("{}# note {{ 5 }} set", s);
        assert_eq!(tokenize(&with).tokens, tokenize(s).tokens, "{:?}", s);
        assert_eq!(tokenize(&with).lines, tokenize(s).lines, "{:?}", s);
    }
}

#[test]
fn lex_case_variants_of_keywords_agree() {
    for (a, b) in [("repeat", "RePeAt"), ("colour", "COLOUR"), ("define", "Define"), ("rt", "RT")] {
        assert_eq!(toks(a), toks(b));
        assert_eq!(toks(a).len(), 1);
        assert!(!matches!(toks(a)[0], Token::Ident(_)));
    }
    assert_eq!(toks("Squares"), vec![Token::Ident("Squares".into())]);
}

#[test]
fn lex_line_is_one_plus_newlines_before_token() {
    let ts = tokenize("fd 1\n\n# note\nturn 2 # x\n  pen\n");
    assert_eq!(ts.lines, vec![1, 1, 4, 4, 5]);
}
