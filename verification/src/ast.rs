//! Abstract Syntax Tree for the Turtle Graphics language.
//!
//! `Command` is a tree.  Internal (composite) nodes hold `Vec<Command>`:
//!   - `Block`     — every parsed program at its root.
//!   - `DoTimes`   — a counted loop.
//!   - `Procedure` — a named, reusable definition.
//!
//! Leaf nodes carry only expression arguments:
//!   `Forward`, `Turn`, `Pen`, `Color`, `SetVar`, `Print`, `Call`.
//!
//! Each `Command` variant is one production rule of the grammar.
use vstd::prelude::*;
use crate::lexer::Numeral;

verus! {

/// Arithmetic operators used inside parenthesised expressions.
#[derive(Debug, Clone, Copy, PartialEq, Eq, Structural)]
pub enum Op {
    Add,
    Sub,
    Mul,
    Div,
}

/// A value-producing expression.  A literal keeps the text of its number.
#[derive(Debug, PartialEq)]
pub enum Expr {
    Literal(Numeral),
    Variable(String),
    BinOp(Box<Expr>, Op, Box<Expr>),
}

/// One node in the command tree.
#[derive(Debug, PartialEq)]
pub enum Command {
    /// Move the turtle forward.
    Forward(Expr),
    /// Rotate the turtle.  Positive = clockwise, negative = counter-clockwise.
    Turn(Expr),
    /// `0` lifts the pen (move without drawing); any other value lowers it.
    Pen(Expr),
    /// Set the drawing color: `color <r> <g> <b>` (values 0–255).
    Color(Expr, Expr, Expr),
    /// Assign `expr` to a named variable.
    SetVar(String, Expr),
    /// Print the evaluated expression to stdout.
    Print(Expr),
    /// Invoke a named procedure.
    Call(String),
    /// Repeat the body `count` times.
    DoTimes(Expr, Vec<Command>),
    /// Define a named procedure.  Body is stored in the proc table; not run yet.
    Procedure(String, Vec<Command>),
    /// An ordered list of commands.  The root of every parsed program.
    Block(Vec<Command>),
}

/// The mathematical model of an expression.
pub enum SpecExpr {
    Literal(bool, Seq<char>),
    Variable(Seq<char>),
    BinOp(Box<SpecExpr>, Op, Box<SpecExpr>),
}

/// The mathematical model of a command.
pub enum SpecCommand {
    Forward(SpecExpr),
    Turn(SpecExpr),
    Pen(SpecExpr),
    Color(SpecExpr, SpecExpr, SpecExpr),
    SetVar(Seq<char>, SpecExpr),
    Print(SpecExpr),
    Call(Seq<char>),
    DoTimes(SpecExpr, Seq<SpecCommand>),
    Procedure(Seq<char>, Seq<SpecCommand>),
    Block(Seq<SpecCommand>),
}

pub open spec fn expr_model(e: Expr) -> SpecExpr
    decreases e,
{
    match e {
        Expr::Literal(n) => SpecExpr::Literal(n.negative, n.text@),
        Expr::Variable(s) => SpecExpr::Variable(s@),
        Expr::BinOp(l, op, r) => SpecExpr::BinOp(
            Box::new(expr_model(*l)),
            op,
            Box::new(expr_model(*r)),
        ),
    }
}

pub open spec fn command_model(c: Command) -> SpecCommand
    decreases c, 1int,
{
    match c {
        Command::Forward(e) => SpecCommand::Forward(expr_model(e)),
        Command::Turn(e) => SpecCommand::Turn(expr_model(e)),
        Command::Pen(e) => SpecCommand::Pen(expr_model(e)),
        Command::Color(r, g, b) => SpecCommand::Color(expr_model(r), expr_model(g), expr_model(b)),
        Command::SetVar(s, e) => SpecCommand::SetVar(s@, expr_model(e)),
        Command::Print(e) => SpecCommand::Print(expr_model(e)),
        Command::Call(s) => SpecCommand::Call(s@),
        Command::DoTimes(e, body) => SpecCommand::DoTimes(expr_model(e), commands_model(body@)),
        Command::Procedure(s, body) => SpecCommand::Procedure(s@, commands_model(body@)),
        Command::Block(body) => SpecCommand::Block(commands_model(body@)),
    }
}

pub open spec fn commands_model(cs: Seq<Command>) -> Seq<SpecCommand>
    decreases cs, 0int,
{
    if cs.len() == 0 {
        Seq::empty()
    } else {
        commands_model(cs.drop_last()).push(command_model(cs.last()))
    }
}

/// The model of a list has one entry per command, each the command's model.
pub proof fn lemma_commands_model(cs: Seq<Command>)
    ensures
        commands_model(cs).len() == cs.len(),
        forall|i: int| 0 <= i < cs.len() ==> #[trigger] commands_model(cs)[i] == command_model(cs[i]),
    decreases cs.len(),
{
    if cs.len() > 0 {
        lemma_commands_model(cs.drop_last());
        assert forall|i: int| 0 <= i < cs.len() implies #[trigger] commands_model(cs)[i] == command_model(cs[i]) by {
            if i < cs.len() - 1 {
                assert(cs.drop_last()[i] == cs[i]);
            }
        }
    }
}

impl Expr {
    /// A copy of this expression with the same model.
    pub fn duplicate(&self) -> (e: Expr)
        ensures
            expr_model(e) == expr_model(*self),
        decreases self,
    {
        match self {
            Expr::Literal(n) => Expr::Literal(
                Numeral { negative: n.negative, text: n.text.clone() },
            ),
            Expr::Variable(s) => Expr::Variable(s.clone()),
            Expr::BinOp(l, op, r) => Expr::BinOp(
                Box::new((**l).duplicate()),
                *op,
                Box::new((**r).duplicate()),
            ),
        }
    }
}

impl Command {
    /// A copy of this command tree with the same model.
    pub fn duplicate(&self) -> (c: Command)
        ensures
            command_model(c) == command_model(*self),
        decreases self,
    {
        match self {
            Command::Forward(e) => Command::Forward(e.duplicate()),
            Command::Turn(e) => Command::Turn(e.duplicate()),
            Command::Pen(e) => Command::Pen(e.duplicate()),
            Command::Color(r, g, b) => Command::Color(r.duplicate(), g.duplicate(), b.duplicate()),
            Command::SetVar(s, e) => Command::SetVar(s.clone(), e.duplicate()),
            Command::Print(e) => Command::Print(e.duplicate()),
            Command::Call(s) => Command::Call(s.clone()),
            Command::DoTimes(e, body) => Command::DoTimes(e.duplicate(), duplicate_commands(body)),
            Command::Procedure(s, body) => Command::Procedure(s.clone(), duplicate_commands(body)),
            Command::Block(body) => Command::Block(duplicate_commands(body)),
        }
    }
}

/// A copy of a list of commands with the same model.
pub fn duplicate_commands(cs: &Vec<Command>) -> (r: Vec<Command>)
    ensures
        commands_model(r@) == commands_model(cs@),
    decreases cs,
{
    let mut r: Vec<Command> = Vec::new();
    let mut i: usize = 0;
    while i < cs.len()
        invariant
            i <= cs@.len(),
            commands_model(r@) == commands_model(cs@.take(i as int)),
        decreases cs@.len() - i,
    {
        let c = cs[i].duplicate();
        let ghost before = r@;
        r.push(c);
        proof {
            assert(r@.drop_last() =~= before);
            assert(cs@.take(i + 1).drop_last() =~= cs@.take(i as int));
        }
        i += 1;
    }
    assert(cs@.take(cs@.len() as int) =~= cs@);
    r
}

} // verus!
