use turtle_graphics::ast::{Command, Expr, Op};
use turtle_graphics::lexer::{tokenize, Numeral, Token, TokenStream};
use turtle_graphics::parser::Parser;

/// The value of a number literal.
fn value(n: &Numeral) -> f64 {
    let v = n.text.parse::<f64>().unwrap_or(0.0);
    if n.negative { -v } else { v }
}

/// Parse `src` and return the single command inside the top-level Block.
/// Panics if there is not exactly one command.
fn parse_one(src: &str) -> Command {
    let mut p = Parser::new(tokenize(src));
    let Command::Block(mut cmds) = p.parse_program().unwrap() else {
        panic!("expected Block");
    };
    assert_eq!(cmds.len(), 1, "expected exactly 1 command, got {}", cmds.len());
    cmds.remove(0)
}

// ── Leaf drawing commands ─────────────────────────────────────────────────────

#[test]
fn parse_forward_literal() {
    let cmd = parse_one("forward 100");
    assert!(matches!(cmd, Command::Forward(Expr::Literal(v)) if (value(&v) - 100.0).abs() < 1e-12));
}

#[test]
fn parse_turn_negative() {
    let cmd = parse_one("turn -45");
    assert!(matches!(cmd, Command::Turn(Expr::Literal(v)) if (value(&v) + 45.0).abs() < 1e-12));
}

#[test]
fn parse_pen_zero() {
    let cmd = parse_one("pen 0");
    assert!(matches!(cmd, Command::Pen(Expr::Literal(v)) if value(&v).abs() < 1e-12));
}

#[test]
fn parse_color_three_args() {
    let cmd = parse_one("color 255 0 128");
    let Command::Color(r, g, b) = cmd else { panic!("expected Color"); };
    assert!(matches!(r, Expr::Literal(v) if (value(&v) - 255.0).abs() < 1e-12));
    assert!(matches!(g, Expr::Literal(v) if value(&v).abs() < 1e-12));
    assert!(matches!(b, Expr::Literal(v) if (value(&v) - 128.0).abs() < 1e-12));
}

// ── Variables ─────────────────────────────────────────────────────────────────

#[test]
fn parse_set_variable() {
    let cmd = parse_one("set n 42");
    let Command::SetVar(name, expr) = cmd else { panic!("expected SetVar"); };
    assert_eq!(name, "n");
    assert!(matches!(expr, Expr::Literal(v) if (value(&v) - 42.0).abs() < 1e-12));
}

#[test]
fn parse_print_command() {
    let cmd = parse_one("print 3.14");
    assert!(matches!(cmd, Command::Print(Expr::Literal(v)) if (value(&v) - 3.14).abs() < 1e-9));
}

// ── Expressions ───────────────────────────────────────────────────────────────

#[test]
fn parse_expr_variable_reference() {
    let cmd = parse_one("forward n");
    assert!(matches!(cmd, Command::Forward(Expr::Variable(s)) if s == "n"));
}

#[test]
fn parse_expr_binop_add() {
    let cmd = parse_one("forward (n + 5)");
    let Command::Forward(Expr::BinOp(left, op, right)) = cmd else {
        panic!("expected Forward(BinOp)");
    };
    assert!(matches!(*left, Expr::Variable(s) if s == "n"));
    assert!(matches!(op, Op::Add));
    assert!(matches!(*right, Expr::Literal(v) if (value(&v) - 5.0).abs() < 1e-12));
}

#[test]
fn parse_expr_binop_mul() {
    let cmd = parse_one("forward (n * 2)");
    let Command::Forward(Expr::BinOp(_, op, _)) = cmd else { panic!(); };
    assert!(matches!(op, Op::Mul));
}

#[test]
fn parse_expr_binop_div() {
    let cmd = parse_one("forward (n / 4)");
    let Command::Forward(Expr::BinOp(_, op, _)) = cmd else { panic!(); };
    assert!(matches!(op, Op::Div));
}

// ── Control flow ──────────────────────────────────────────────────────────────

#[test]
fn parse_dotimes_with_body() {
    let cmd = parse_one("dotimes 4 { forward 100 turn 90 }");
    let Command::DoTimes(count, body) = cmd else { panic!("expected DoTimes"); };
    assert!(matches!(count, Expr::Literal(v) if (value(&v) - 4.0).abs() < 1e-12));
    assert_eq!(body.len(), 2);
    assert!(matches!(body[0], Command::Forward(_)));
    assert!(matches!(body[1], Command::Turn(_)));
}

#[test]
fn parse_nested_dotimes() {
    let cmd = parse_one("dotimes 3 { dotimes 4 { forward 10 } }");
    let Command::DoTimes(_, outer_body) = cmd else { panic!(); };
    assert!(matches!(outer_body[0], Command::DoTimes(_, _)));
}

// ── Procedures ────────────────────────────────────────────────────────────────

#[test]
fn parse_to_defines_procedure() {
    let cmd = parse_one("to square { forward 100 turn 90 }");
    let Command::Procedure(name, body) = cmd else { panic!("expected Procedure"); };
    assert_eq!(name, "square");
    assert_eq!(body.len(), 2);
}

#[test]
fn parse_bare_identifier_is_call() {
    let cmd = parse_one("square");
    assert!(matches!(cmd, Command::Call(s) if s == "square"));
}

// ── Multi-command programs ────────────────────────────────────────────────────

#[test]
fn parse_empty_program() {
    let mut p = Parser::new(tokenize(""));
    let Command::Block(cmds) = p.parse_program().unwrap() else { panic!(); };
    assert!(cmds.is_empty());
}

#[test]
fn parse_multiple_commands() {
    let mut p = Parser::new(tokenize("forward 10\nturn 90\nforward 10"));
    let Command::Block(cmds) = p.parse_program().unwrap() else { panic!(); };
    assert_eq!(cmds.len(), 3);
}

// ── Error cases ───────────────────────────────────────────────────────────────

#[test]
fn parse_error_unclosed_block() {
    let mut p = Parser::new(tokenize("dotimes 4 { forward 100"));
    let err = p.parse_program().unwrap_err();
    assert!(err.contains("Line"), "error should name a line: {}", err);
}

#[test]
fn parse_error_missing_expression() {
    // 'forward' with no argument
    let mut p = Parser::new(tokenize("forward"));
    let err = p.parse_program().unwrap_err();
    assert!(err.contains("expression") || err.contains("Line"), "{}", err);
}

#[test]
fn parse_error_set_without_name() {
    let mut p = Parser::new(tokenize("set 42"));
    let err = p.parse_program().unwrap_err();
    assert!(err.contains("variable name") || err.contains("Line"), "{}", err);
}

#[test]
fn parse_error_to_without_name() {
    let mut p = Parser::new(tokenize("to { forward 1 }"));
    let err = p.parse_program().unwrap_err();
    assert!(err.contains("procedure name") || err.contains("Line"), "{}", err);
}

#[test]
fn parse_error_includes_line_number() {
    // Error on line 3.
    let src = "forward 10\nturn 90\nforward";
    let mut p = Parser::new(tokenize(src));
    let err = p.parse_program().unwrap_err();
    assert!(err.starts_with("Line 3:"), "expected 'Line 3:' prefix, got: {}", err);
}

// ── Exact error messages ──────────────────────────────────────────────────────

fn error_of(src: &str) -> String {
    Parser::new(tokenize(src)).parse_program().unwrap_err()
}

#[test]
fn error_messages_name_what_was_expected_and_found() {
    assert_eq!(
        error_of("forward 10\nturn 90\nforward"),
        "Line 3: Expected expression (number / variable / '('), got None"
    );
    assert_eq!(
        error_of("dotimes 4 { forward 100"),
        "Line 1: Expected '}' to close block, got None"
    );
    assert_eq!(
        error_of("set 42"),
        "Line 1: Expected variable name after 'set', got Some(Number(42.0))"
    );
    assert_eq!(
        error_of("to { forward 1 }"),
        "Line 1: Expected procedure name after 'to', got Some(LBrace)"
    );
    assert_eq!(error_of("\n\n}"), "Line 3: Unexpected token: Some(RBrace)");
    assert_eq!(
        error_of("forward (a % b)"),
        "Line 1: Expected operator (+,-,*,/), got Some(Ident(\"b\"))"
    );
    assert_eq!(
        error_of("forward (1 + 2 turn"),
        "Line 1: Expected ')' to close expression, got Some(Turn)"
    );
    assert_eq!(
        error_of("dotimes 3 forward"),
        "Line 1: Expected '{' to open block, got Some(Forward)"
    );
    assert_eq!(
        error_of("set x -7 set"),
        "Line 1: Expected variable name after 'set', got None"
    );
}

#[test]
fn error_line_counts_past_ten() {
    let src = format!("{}forward", "\n".repeat(11));
    assert_eq!(
        error_of(&src),
        "Line 12: Expected expression (number / variable / '('), got None"
    );
}

#[test]
fn error_on_empty_token_stream_reports_line_one() {
    let stream = TokenStream { tokens: vec![Token::Forward], lines: vec![] };
    let err = Parser::new(stream).parse_program().unwrap_err();
    assert_eq!(err, "Line 1: Expected expression (number / variable / '('), got None");
}

#[test]
fn parse_nested_binop_and_procedure_body_structure() {
    let cmd = parse_one("to f { color ((a * 2) - 1) g 3 set a (a / b) print a f }");
    let Command::Procedure(name, body) = cmd else { panic!("expected Procedure"); };
    assert_eq!(name, "f");
    assert_eq!(body.len(), 4);
    let Command::Color(Expr::BinOp(inner, Op::Sub, one), Expr::Variable(g), Expr::Literal(three)) = &body[0] else {
        panic!("expected Color");
    };
    assert!(matches!(&**inner, Expr::BinOp(_, Op::Mul, _)));
    assert!(matches!(&**one, Expr::Literal(v) if value(v) == 1.0));
    assert_eq!(g, "g");
    assert_eq!(value(three), 3.0);
    assert!(matches!(&body[1], Command::SetVar(n, Expr::BinOp(_, Op::Div, _)) if n == "a"));
    assert!(matches!(&body[2], Command::Print(Expr::Variable(n)) if n == "a"));
    assert!(matches!(&body[3], Command::Call(n) if n == "f"));
}

#[test]
fn error_messages_show_numbers_like_values() {
    assert_eq!(error_of("to 3.14"), "Line 1: Expected procedure name after 'to', got Some(Number(3.14))");
    assert_eq!(error_of("to -007.50"), "Line 1: Expected procedure name after 'to', got Some(Number(-7.5))");
    assert_eq!(error_of("to .25"), "Line 1: Expected procedure name after 'to', got Some(Number(0.25))");
    assert_eq!(error_of("to 0"), "Line 1: Expected procedure name after 'to', got Some(Number(0.0))");
    assert_eq!(error_of("to ."), "Line 1: Expected procedure name after 'to', got Some(Number(0.0))");
    assert_eq!(error_of("to 100."), "Line 1: Expected procedure name after 'to', got Some(Number(100.0))");
    // The same text that the value's own `{:?}` gives.
    for src in [
        "3.14", "-7.5", "0.25", "100", "12.0625", "0.00001", "-0.000015", "0.0001",
        "00.000120", "10000000000000000", "-1250000000000000000.0",
        "123456789012345", "0.00000000012345", "-0", "0.000",
    ] {
        let v: f64 = src.parse().unwrap();
        assert_eq!(
            error_of(&format!("to {}", src)),
            format!("Line 1: Expected procedure name after 'to', got Some(Number({:?}))", v)
        );
    }
}

#[test]
fn error_messages_escape_identifiers_like_debug() {
    assert_eq!(
        error_of("forward (1 \u{915}\u{941})"),
        format!("Line 1: Expected operator (+,-,*,/), got Some(Ident({:?}))", "\u{915}\u{941}")
    );
}

#[test]
fn parse_unparenthesized_arithmetic_is_rejected() {
    assert_eq!(error_of("forward 1 + 2"), "Line 1: Unexpected token: Some(Plus)");
}

fn lit(negative: bool, text: &str) -> Expr {
    Expr::Literal(Numeral { negative, text: text.to_string() })
}

#[test]
fn written_out_commands_parse_back() {
    // Each token followed by a space; keywords in their main form.
    let src = "to sq { dotimes 4 { forward 10 turn 90 } } sq color 1 2 3 set y -2.5 print ( y * .5 ) ";
    let expected = Command::Block(vec![
        Command::Procedure(
            "sq".to_string(),
            vec![Command::DoTimes(
                lit(false, "4"),
                vec![Command::Forward(lit(false, "10")), Command::Turn(lit(false, "90"))],
            )],
        ),
        Command::Call("sq".to_string()),
        Command::Color(lit(false, "1"), lit(false, "2"), lit(false, "3")),
        Command::SetVar("y".to_string(), lit(true, "2.5")),
        Command::Print(Expr::BinOp(
            Box::new(Expr::Variable("y".to_string())),
            Op::Mul,
            Box::new(lit(false, ".5")),
        )),
    ]);
    let ts = tokenize(src);
    assert!(ts.lines.iter().all(|&l| l == 1));
    assert_eq!(Parser::new(ts).parse_program().unwrap(), expected);
}

#[test]
fn error_parse_includes_line_number() {
    // Syntax error on line 3.
    let src = "forward 10\nturn 90\nforward"; // missing argument on line 3
    let err = Parser::new(tokenize(src)).parse_program().unwrap_err();
    assert!(err.contains("Line 3"), "expected line 3 in error: {}", err);
}
