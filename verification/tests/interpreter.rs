use turtle_graphics::ast::{Command, Expr};
use turtle_graphics::interpreter::{Machine, ProcTable, Step};
use turtle_graphics::lexer::tokenize;
use turtle_graphics::parser::Parser;

/// A loop count written as a literal.
fn literal_count(e: &Expr) -> u64 {
    match e {
        Expr::Literal(n) => {
            let v = n.text.parse::<f64>().unwrap_or(0.0);
            (if n.negative { -v } else { v }) as u64
        }
        _ => panic!("only literal counts in these tests"),
    }
}

/// A short name for each command handed over.
fn describe(c: &Command) -> String {
    match c {
        Command::Forward(_) => "forward".into(),
        Command::Turn(_) => "turn".into(),
        Command::Pen(_) => "pen".into(),
        Command::Color(..) => "color".into(),
        Command::SetVar(n, _) => format!("set {}", n),
        Command::Print(_) => "print".into(),
        other => panic!("not a leaf: {:?}", other),
    }
}

/// Run `src` on the machine; return what it handed over, the table, and the outcome.
fn run(src: &str) -> (Vec<String>, ProcTable, Result<(), String>) {
    let prog = Parser::new(tokenize(src)).parse_program().unwrap();
    let mut m = Machine::new(prog, ProcTable::new());
    let mut out = Vec::new();
    let outcome = loop {
        match m.next() {
            Step::Perform(c) => out.push(describe(&c)),
            Step::Count(e) => m.enter_loop(literal_count(&e)),
            Step::Continue => {}
            Step::Done => break Ok(()),
            Step::Failed(msg) => break Err(msg),
        }
    };
    (out, m.into_procs(), outcome)
}

#[test]
fn machine_block_runs_in_order() {
    let (out, _, r) = run("forward 1 turn 2 pen 0 color 1 2 3 set n 4 print n");
    assert!(r.is_ok());
    assert_eq!(out, vec!["forward", "turn", "pen", "color", "set n", "print"]);
}

#[test]
fn machine_dotimes_repeats_body_n_times() {
    let (out, _, _) = run("dotimes 6 { forward 10 }");
    assert_eq!(out.len(), 6);
    let (out, _, _) = run("dotimes 3 { forward 1 turn 2 }");
    assert_eq!(out, vec!["forward", "turn", "forward", "turn", "forward", "turn"]);
}

#[test]
fn machine_dotimes_zero_runs_no_iterations() {
    let (out, _, r) = run("dotimes 0 { forward 999 }");
    assert!(out.is_empty());
    assert!(r.is_ok());
}

#[test]
fn machine_nested_dotimes_multiplies_iterations() {
    let (out, _, _) = run("dotimes 3 { dotimes 4 { forward 1 } }");
    assert_eq!(out.len(), 12);
}

#[test]
fn machine_definition_registers_and_call_runs_body() {
    let (out, procs, r) = run("to step { forward 50 turn 90 }\nstep\nstep");
    assert!(r.is_ok());
    assert!(procs.contains_key("step"));
    assert!(!procs.contains_key("other"));
    assert_eq!(out, vec!["forward", "turn", "forward", "turn"]);
}

#[test]
fn machine_procedure_calling_another_procedure() {
    let (out, _, _) = run("to move { forward 20 }\nto go { move move }\ngo");
    assert_eq!(out, vec!["forward", "forward"]);
}

#[test]
fn machine_unknown_procedure_fails_naming_it() {
    let (out, _, r) = run("forward 1 ghost forward 2");
    assert_eq!(out, vec!["forward"]);
    assert_eq!(r, Err("Unknown procedure 'ghost'".to_string()));
}

#[test]
fn machine_call_before_definition_fails() {
    let (_, _, r) = run("later\nto later { forward 1 }");
    assert_eq!(r, Err("Unknown procedure 'later'".to_string()));
}

#[test]
fn machine_definition_inside_loop_takes_effect_at_once() {
    // `p` is defined in the first pass of the loop and called in the same pass.
    let (out, _, r) = run("dotimes 2 { to p { turn 1 } p }");
    assert!(r.is_ok());
    assert_eq!(out, vec!["turn", "turn"]);
}

#[test]
fn machine_redefinition_replaces_body_for_later_calls() {
    let (out, procs, _) = run("to p { forward 1 } p to p { turn 1 } p");
    assert_eq!(out, vec!["forward", "turn"]);
    let body = procs.get(&"p".to_string()).unwrap();
    assert_eq!(body.len(), 1);
    assert!(matches!(body[0], Command::Turn(_)));
}

#[test]
fn machine_running_call_keeps_the_body_it_started_with() {
    // While `p` runs it redefines itself; the rest of that run is unaffected.
    let (out, _, _) = run("to p { to p { pen 1 } forward 1 } p p");
    assert_eq!(out, vec!["forward", "pen"]);
}

#[test]
fn machine_count_is_asked_for_and_awaited() {
    let prog = Parser::new(tokenize("dotimes (n + 1) { forward 1 }")).parse_program().unwrap();
    let mut m = Machine::new(prog, ProcTable::new());
    assert!(matches!(m.next(), Step::Continue)); // the root block
    assert!(!m.awaiting_count());
    assert!(matches!(m.next(), Step::Count(Expr::BinOp(..))));
    assert!(m.awaiting_count());
    m.enter_loop(2);
    assert!(!m.awaiting_count());
    let mut forwards = 0;
    loop {
        match m.next() {
            Step::Perform(_) => forwards += 1,
            Step::Done => break,
            Step::Continue => {}
            _ => panic!("unexpected step"),
        }
    }
    assert_eq!(forwards, 2);
}

#[test]
fn proc_table_insert_get_contains() {
    let mut t = ProcTable::new();
    assert!(!t.contains_key("a"));
    assert!(t.get(&"a".to_string()).is_none());
    t.insert("a".to_string(), vec![]);
    t.insert("b".to_string(), vec![Command::Call("a".to_string())]);
    assert!(t.contains_key("a"));
    assert!(t.contains_key("b"));
    assert_eq!(t.get(&"a".to_string()).unwrap().len(), 0);
    t.insert("a".to_string(), vec![Command::Call("b".to_string()), Command::Call("b".to_string())]);
    assert_eq!(t.get(&"a".to_string()).unwrap().len(), 2);
    assert_eq!(t.get(&"b".to_string()).unwrap().len(), 1);
}

/// What the turtle did, as far as these programs move it: each `forward`
/// (heading up, pen down) moves it up by its distance and draws a line.
struct Turtle {
    y: f64,
    lines: Vec<(f64, f64)>,
}

/// Run `src` on the machine with a turtle that only moves forward.
fn exec(src: &str) -> Result<(Turtle, (), ProcTable), String> {
    let prog = Parser::new(tokenize(src)).parse_program()?;
    let mut m = Machine::new(prog, ProcTable::new());
    let mut t = Turtle { y: 0.0, lines: Vec::new() };
    loop {
        match m.next() {
            Step::Perform(Command::Forward(e)) => {
                let d = literal_count(&e) as f64;
                let y0 = t.y;
                t.y -= d;
                t.lines.push((y0, t.y));
            }
            Step::Perform(_) => {}
            Step::Count(e) => m.enter_loop(literal_count(&e)),
            Step::Continue => {}
            Step::Done => break,
            Step::Failed(msg) => return Err(msg),
        }
    }
    Ok((t, (), m.into_procs()))
}

#[test]
fn exec_dotimes_repeats_body_n_times() {
    let (t, _, _) = exec("dotimes 6 { forward 10 }").unwrap();
    assert!((t.y + 60.0).abs() < 1e-9);
    assert_eq!(t.lines.len(), 6);
}

#[test]
fn exec_dotimes_zero_runs_no_iterations() {
    let (t, _, _) = exec("dotimes 0 { forward 999 }").unwrap();
    assert!(t.lines.is_empty());
}

#[test]
fn exec_nested_dotimes_multiplies_iterations() {
    // 3 outer × 4 inner = 12 forward calls.
    let (t, _, _) = exec("dotimes 3 { dotimes 4 { forward 1 } }").unwrap();
    assert_eq!(t.lines.len(), 12);
}

#[test]
fn exec_to_registers_in_proc_table() {
    let (_, _, procs) = exec("to myproc { forward 10 }").unwrap();
    assert!(procs.contains_key("myproc"));
}

#[test]
fn exec_procedure_calling_another_procedure() {
    let src = "to move { forward 20 }\nto go { move move }\ngo";
    let (t, _, _) = exec(src).unwrap();
    assert!((t.y + 40.0).abs() < 1e-9);
}

#[test]
fn exec_unknown_procedure_is_error() {
    let err = exec("ghost").err().unwrap();
    assert!(err.contains("'ghost'"), "{}", err);
}
