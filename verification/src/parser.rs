//! Recursive-descent parser.
//!
//! ```text
//! program  ::= command*
//! command  ::= forward | turn | pen | color | set | print
//!            | dotimes | to | IDENT
//! block    ::= '{' command* '}'
//! expr     ::= NUMBER | IDENT | '(' expr OP expr ')'
//! ```
//!
//! Error messages include the 1-based source line of the offending token.
use vstd::prelude::*;
use crate::ast::{command_model, commands_model, expr_model, Command, Expr, Op, SpecCommand, SpecExpr};
use crate::lexer::{SpecToken, Token, TokenStream};
use crate::messages::error_text;

verus! {

// ── Errors ────────────────────────────────────────────────────────────────────

/// What the parser expected when it stopped.
#[derive(Debug, Clone, Copy, PartialEq, Eq, Structural)]
pub enum ErrorKind {
    /// `set` was not followed by an identifier.
    ExpectedVariableName,
    /// `to` was not followed by an identifier.
    ExpectedProcedureName,
    /// A command cannot start with the token that was found.
    UnexpectedToken,
    /// A block did not start with `{`.
    ExpectedOpenBrace,
    /// A block was not closed with `}`.
    ExpectedCloseBrace,
    /// A parenthesised expression was not closed with `)`.
    ExpectedCloseParen,
    /// No number, identifier or `(` where an expression was expected.
    ExpectedExpression,
    /// No `+`, `-`, `*` or `/` inside a parenthesised expression.
    ExpectedOperator,
}

/// A parse error in terms of the token list: the parser's position after it
/// read the offending token, what it expected, and what it found there.
pub struct SpecError {
    pub pos: int,
    pub kind: ErrorKind,
    pub found: Option<SpecToken>,
}

/// A parse error: the source line, what was expected, and the token found.
#[derive(Debug)]
pub struct ParseError {
    pub line: usize,
    pub kind: ErrorKind,
    pub found: Option<Token>,
}

pub open spec fn option_token_model(t: Option<Token>) -> Option<SpecToken> {
    match t {
        Some(t) => Some(t@),
        None => None,
    }
}

// ── Specification ─────────────────────────────────────────────────────────────

/// The token at position `p`, if any.
pub open spec fn at(ts: Seq<SpecToken>, p: int) -> Option<SpecToken> {
    if 0 <= p < ts.len() {
        Some(ts[p])
    } else {
        None
    }
}

/// The position after reading one token at `p` (unchanged at the end).
pub open spec fn after(ts: Seq<SpecToken>, p: int) -> int {
    if 0 <= p < ts.len() {
        p + 1
    } else {
        p
    }
}

/// The error for reading the token at `p` when `kind` was expected.
pub open spec fn fail(ts: Seq<SpecToken>, p: int, kind: ErrorKind) -> SpecError {
    SpecError { pos: after(ts, p), kind, found: at(ts, p) }
}

/// Whether a sub-parse that started after `pos` ended at `q`, within the tokens.
pub open spec fn advanced(ts: Seq<SpecToken>, pos: int, q: int) -> bool {
    pos < q <= ts.len()
}

pub open spec fn parse_op_at(ts: Seq<SpecToken>, pos: int) -> Result<(Op, int), SpecError> {
    match at(ts, pos) {
        Some(SpecToken::Plus) => Ok((Op::Add, pos + 1)),
        Some(SpecToken::Minus) => Ok((Op::Sub, pos + 1)),
        Some(SpecToken::Star) => Ok((Op::Mul, pos + 1)),
        Some(SpecToken::Slash) => Ok((Op::Div, pos + 1)),
        _ => Err(fail(ts, pos, ErrorKind::ExpectedOperator)),
    }
}

/// `expr ::= NUMBER | IDENT | '(' expr OP expr ')'`, read from `pos`.
/// Every result of a nested parse is checked to lie after `pos`; that always
/// holds (see `lemma_expr_advances`) and shows that the definition terminates.
pub open spec fn parse_expr_at(ts: Seq<SpecToken>, pos: int) -> Result<(SpecExpr, int), SpecError>
    decreases ts.len() - pos,
{
    if pos < 0 || pos >= ts.len() {
        Err(fail(ts, pos, ErrorKind::ExpectedExpression))
    } else {
        match ts[pos] {
            SpecToken::Number(neg, t) => Ok((SpecExpr::Literal(neg, t), pos + 1)),
            SpecToken::Ident(s) => Ok((SpecExpr::Variable(s), pos + 1)),
            SpecToken::LParen => match parse_expr_at(ts, pos + 1) {
                Err(e) => Err(e),
                Ok((l, p1)) => if !advanced(ts, pos, p1) {
                    Err(fail(ts, pos, ErrorKind::ExpectedExpression))
                } else {
                    match parse_op_at(ts, p1) {
                        Err(e) => Err(e),
                        Ok((op, p2)) => if !advanced(ts, pos, p2) {
                            Err(fail(ts, pos, ErrorKind::ExpectedExpression))
                        } else {
                            match parse_expr_at(ts, p2) {
                                Err(e) => Err(e),
                                Ok((r, p3)) => if !advanced(ts, pos, p3) {
                                    Err(fail(ts, pos, ErrorKind::ExpectedExpression))
                                } else {
                                    match at(ts, p3) {
                                        Some(SpecToken::RParen) => Ok(
                                            (SpecExpr::BinOp(Box::new(l), op, Box::new(r)), p3 + 1),
                                        ),
                                        _ => Err(fail(ts, p3, ErrorKind::ExpectedCloseParen)),
                                    }
                                },
                            }
                        },
                    }
                },
            },
            _ => Err(fail(ts, pos, ErrorKind::ExpectedExpression)),
        }
    }
}

/// An expression read from `p` and wrapped by `f`, checked to end after `pos`.
pub open spec fn wrap_expr(
    ts: Seq<SpecToken>,
    pos: int,
    r: Result<(SpecExpr, int), SpecError>,
    f: spec_fn(SpecExpr) -> SpecCommand,
) -> Result<(SpecCommand, int), SpecError> {
    match r {
        Err(e) => Err(e),
        Ok((e, q)) => if advanced(ts, pos, q) {
            Ok((f(e), q))
        } else {
            Err(fail(ts, pos, ErrorKind::UnexpectedToken))
        },
    }
}

/// One `command`, read from `pos`.
pub open spec fn parse_command_at(ts: Seq<SpecToken>, pos: int) -> Result<(SpecCommand, int), SpecError>
    decreases ts.len() - pos, 0int,
{
    if pos < 0 || pos >= ts.len() {
        Err(fail(ts, pos, ErrorKind::UnexpectedToken))
    } else {
        let p1 = pos + 1;
        match ts[pos] {
            SpecToken::Forward => wrap_expr(
                ts,
                pos,
                parse_expr_at(ts, p1),
                |e: SpecExpr| SpecCommand::Forward(e),
            ),
            SpecToken::Turn => wrap_expr(
                ts,
                pos,
                parse_expr_at(ts, p1),
                |e: SpecExpr| SpecCommand::Turn(e),
            ),
            SpecToken::Pen => wrap_expr(
                ts,
                pos,
                parse_expr_at(ts, p1),
                |e: SpecExpr| SpecCommand::Pen(e),
            ),
            SpecToken::Print => wrap_expr(
                ts,
                pos,
                parse_expr_at(ts, p1),
                |e: SpecExpr| SpecCommand::Print(e),
            ),
            SpecToken::Color => match parse_expr_at(ts, p1) {
                Err(e) => Err(e),
                Ok((r, q1)) => if !advanced(ts, pos, q1) {
                    Err(fail(ts, pos, ErrorKind::UnexpectedToken))
                } else {
                    match parse_expr_at(ts, q1) {
                        Err(e) => Err(e),
                        Ok((g, q2)) => if !advanced(ts, pos, q2) {
                            Err(fail(ts, pos, ErrorKind::UnexpectedToken))
                        } else {
                            wrap_expr(
                                ts,
                                pos,
                                parse_expr_at(ts, q2),
                                |b: SpecExpr| SpecCommand::Color(r, g, b),
                            )
                        },
                    }
                },
            },
            SpecToken::SetVar => match at(ts, p1) {
                Some(SpecToken::Ident(name)) => wrap_expr(
                    ts,
                    pos,
                    parse_expr_at(ts, p1 + 1),
                    |e: SpecExpr| SpecCommand::SetVar(name, e),
                ),
                _ => Err(fail(ts, p1, ErrorKind::ExpectedVariableName)),
            },
            SpecToken::DoTimes => match parse_expr_at(ts, p1) {
                Err(e) => Err(e),
                Ok((count, q1)) => if !advanced(ts, pos, q1) {
                    Err(fail(ts, pos, ErrorKind::UnexpectedToken))
                } else {
                    match parse_block_at(ts, q1) {
                        Err(e) => Err(e),
                        Ok((body, q2)) => if !advanced(ts, pos, q2) {
                            Err(fail(ts, pos, ErrorKind::UnexpectedToken))
                        } else {
                            Ok((SpecCommand::DoTimes(count, body), q2))
                        },
                    }
                },
            },
            SpecToken::To => match at(ts, p1) {
                Some(SpecToken::Ident(name)) => match parse_block_at(ts, p1 + 1) {
                    Err(e) => Err(e),
                    Ok((body, q)) => if !advanced(ts, pos, q) {
                        Err(fail(ts, pos, ErrorKind::UnexpectedToken))
                    } else {
                        Ok((SpecCommand::Procedure(name, body), q))
                    },
                },
                _ => Err(fail(ts, p1, ErrorKind::ExpectedProcedureName)),
            },
            SpecToken::Ident(name) => Ok((SpecCommand::Call(name), p1)),
            _ => Err(fail(ts, pos, ErrorKind::UnexpectedToken)),
        }
    }
}

/// `block ::= '{' command* '}'`, read from `pos`.
pub open spec fn parse_block_at(ts: Seq<SpecToken>, pos: int) -> Result<(Seq<SpecCommand>, int), SpecError>
    decreases ts.len() - pos, 0int,
{
    if pos < 0 || pos >= ts.len() {
        Err(fail(ts, pos, ErrorKind::ExpectedOpenBrace))
    } else {
        match ts[pos] {
            SpecToken::LBrace => parse_body_at(ts, pos + 1),
            _ => Err(fail(ts, pos, ErrorKind::ExpectedOpenBrace)),
        }
    }
}

/// The commands of a block up to and including its closing `}`, read from `pos`.
pub open spec fn parse_body_at(ts: Seq<SpecToken>, pos: int) -> Result<(Seq<SpecCommand>, int), SpecError>
    decreases ts.len() - pos, 1int,
{
    if pos < 0 || pos >= ts.len() {
        Err(fail(ts, pos, ErrorKind::ExpectedCloseBrace))
    } else if ts[pos] is RBrace {
        Ok((Seq::empty(), pos + 1))
    } else {
        match parse_command_at(ts, pos) {
            Err(e) => Err(e),
            Ok((c, p1)) => if !(pos < p1 <= ts.len()) {
                Err(fail(ts, pos, ErrorKind::UnexpectedToken))
            } else {
                match parse_body_at(ts, p1) {
                    Err(e) => Err(e),
                    Ok((cs, p2)) => if !(pos < p2 <= ts.len()) {
                        Err(fail(ts, pos, ErrorKind::UnexpectedToken))
                    } else {
                        Ok((seq![c] + cs, p2))
                    },
                }
            },
        }
    }
}

/// `command*` up to the end of the tokens, read from `pos`.
pub open spec fn parse_commands_at(ts: Seq<SpecToken>, pos: int) -> Result<Seq<SpecCommand>, SpecError>
    decreases ts.len() - pos,
{
    if pos < 0 || pos >= ts.len() {
        Ok(Seq::empty())
    } else {
        match parse_command_at(ts, pos) {
            Err(e) => Err(e),
            Ok((c, p1)) => if !(pos < p1 <= ts.len()) {
                Err(fail(ts, pos, ErrorKind::UnexpectedToken))
            } else {
                match parse_commands_at(ts, p1) {
                    Err(e) => Err(e),
                    Ok(cs) => Ok(seq![c] + cs),
                }
            },
        }
    }
}

/// `program ::= command*`, read from `pos`: the commands of the root block.
pub open spec fn parse_program_at(ts: Seq<SpecToken>, pos: int) -> Result<SpecCommand, SpecError> {
    match parse_commands_at(ts, pos) {
        Ok(cs) => Ok(SpecCommand::Block(cs)),
        Err(e) => Err(e),
    }
}

pub proof fn lemma_expr_advances(ts: Seq<SpecToken>, pos: int)
    ensures
        parse_expr_at(ts, pos) matches Ok((_, q)) ==> advanced(ts, pos, q),
{
}

pub proof fn lemma_command_advances(ts: Seq<SpecToken>, pos: int)
    ensures
        parse_command_at(ts, pos) matches Ok((_, q)) ==> advanced(ts, pos, q),
{
}

pub proof fn lemma_body_advances(ts: Seq<SpecToken>, pos: int)
    ensures
        parse_body_at(ts, pos) matches Ok((_, q)) ==> advanced(ts, pos, q),
{
}

pub proof fn lemma_block_advances(ts: Seq<SpecToken>, pos: int)
    ensures
        parse_block_at(ts, pos) matches Ok((_, q)) ==> advanced(ts, pos, q),
{
    lemma_body_advances(ts, pos + 1);
}

/// The line that an error at parser position `pos` is reported on: the line
/// of the last token read, or 1 where there is none.
pub open spec fn line_at(lines: Seq<usize>, pos: int) -> nat {
    let k = if pos <= 0 {
        0
    } else {
        pos - 1
    };
    if k < lines.len() {
        lines[k] as nat
    } else {
        1
    }
}

// ── Implementation ────────────────────────────────────────────────────────────

pub struct Parser {
    tokens: Vec<Token>,
    lines: Vec<usize>,
    pos: usize,
}

/// Whether `r` is what the specification `s` says an expression parse yields,
/// with `p` the parser afterwards.
pub open spec fn expr_outcome(
    r: Result<Expr, ParseError>,
    s: Result<(SpecExpr, int), SpecError>,
    p: Parser,
    lines: Seq<usize>,
) -> bool {
    match s {
        Ok((e, q)) => r matches Ok(x) && expr_model(x) == e && p.position() == q,
        Err(err) => r matches Err(x) && error_matches(x, err, lines),
    }
}

/// The same for a command parse.
pub open spec fn command_outcome(
    r: Result<Command, ParseError>,
    s: Result<(SpecCommand, int), SpecError>,
    p: Parser,
    lines: Seq<usize>,
) -> bool {
    match s {
        Ok((c, q)) => r matches Ok(x) && command_model(x) == c && p.position() == q,
        Err(err) => r matches Err(x) && error_matches(x, err, lines),
    }
}

/// The same for a block parse.
pub open spec fn block_outcome(
    r: Result<Vec<Command>, ParseError>,
    s: Result<(Seq<SpecCommand>, int), SpecError>,
    p: Parser,
    lines: Seq<usize>,
) -> bool {
    match s {
        Ok((cs, q)) => r matches Ok(x) && commands_model(x@) == cs && p.position() == q,
        Err(err) => r matches Err(x) && error_matches(x, err, lines),
    }
}

/// Whether the error `x` reports the specified error `err`.
pub open spec fn error_matches(x: ParseError, err: SpecError, lines: Seq<usize>) -> bool {
    &&& x.line as nat == line_at(lines, err.pos)
    &&& x.kind == err.kind
    &&& option_token_model(x.found) == err.found
}

impl Parser {
    /// The models of the tokens being parsed.
    pub closed spec fn token_models(&self) -> Seq<SpecToken> {
        self.tokens@.map_values(|t: Token| t@)
    }

    /// The line numbers of the tokens.
    pub closed spec fn line_numbers(&self) -> Seq<usize> {
        self.lines@
    }

    /// The index of the next token to read.
    pub closed spec fn position(&self) -> int {
        self.pos as int
    }

    /// The position never passes the end of the tokens.
    pub closed spec fn wf(&self) -> bool {
        self.pos <= self.tokens@.len()
    }

    /// Same tokens and lines as `other`.
    pub closed spec fn same_input(&self, other: &Parser) -> bool {
        self.tokens@ == other.tokens@ && self.lines@ == other.lines@
    }

    pub fn new(stream: TokenStream) -> (p: Self)
        ensures
            p.wf(),
            p.token_models() == stream.tokens@.map_values(|t: Token| t@),
            p.line_numbers() == stream.lines@,
            p.position() == 0,
    {
        Parser { tokens: stream.tokens, lines: stream.lines, pos: 0 }
    }

    // ── Cursor helpers ────────────────────────────────────────────────────────

    fn current_line(&self) -> (l: usize)
        ensures
            l as nat == line_at(self.lines@, self.pos as int),
    {
        let k = if self.pos == 0 {
            0
        } else {
            self.pos - 1
        };
        if k < self.lines.len() {
            self.lines[k]
        } else {
            1
        }
    }

    fn peek_is_close_or_end(&self) -> (b: bool)
        requires
            self.wf(),
        ensures
            b == (self.pos >= self.tokens@.len() || self.token_models()[self.pos as int] is RBrace),
    {
        if self.pos < self.tokens.len() {
            match &self.tokens[self.pos] {
                Token::RBrace => true,
                _ => false,
            }
        } else {
            true
        }
    }

    fn consume(&mut self) -> (t: Option<Token>)
        requires
            old(self).wf(),
        ensures
            final(self).wf(),
            final(self).same_input(old(self)),
            option_token_model(t) == at(old(self).token_models(), old(self).position()),
            final(self).position() == after(old(self).token_models(), old(self).position()),
    {
        if self.pos < self.tokens.len() {
            let t = self.tokens[self.pos].duplicate();
            self.pos = self.pos + 1;
            Some(t)
        } else {
            None
        }
    }

    fn err(&self, kind: ErrorKind, found: Option<Token>) -> (e: ParseError)
        ensures
            e.line as nat == line_at(self.lines@, self.pos as int),
            e.kind == kind,
            e.found == found,
    {
        ParseError { line: self.current_line(), kind, found }
    }

    // ── Grammar ───────────────────────────────────────────────────────────────

    fn parse_op(&mut self) -> (r: Result<Op, ParseError>)
        requires
            old(self).wf(),
        ensures
            final(self).wf(),
            final(self).same_input(old(self)),
            match parse_op_at(old(self).token_models(), old(self).position()) {
                Ok((op, q)) => r == Ok::<Op, ParseError>(op) && final(self).position() == q,
                Err(err) => r matches Err(x) && error_matches(x, err, old(self).lines@),
            },
    {
        let t = self.consume();
        match t {
            Some(Token::Plus) => Ok(Op::Add),
            Some(Token::Minus) => Ok(Op::Sub),
            Some(Token::Star) => Ok(Op::Mul),
            Some(Token::Slash) => Ok(Op::Div),
            other => Err(self.err(ErrorKind::ExpectedOperator, other)),
        }
    }

    fn parse_expr(&mut self) -> (r: Result<Expr, ParseError>)
        requires
            old(self).wf(),
        ensures
            final(self).wf(),
            final(self).same_input(old(self)),
            expr_outcome(
                r,
                parse_expr_at(old(self).token_models(), old(self).position()),
                *final(self),
                old(self).lines@,
            ),
        decreases old(self).tokens@.len() - old(self).pos,
    {
        let ghost ts = self.token_models();
        let ghost pos = self.position();
        let t = self.consume();
        match t {
            Some(Token::Number(n)) => Ok(Expr::Literal(n)),
            Some(Token::Ident(s)) => Ok(Expr::Variable(s)),
            Some(Token::LParen) => {
                let left = self.parse_expr();
                proof {
                    lemma_expr_advances(ts, pos + 1);
                }
                let left = match left {
                    Ok(e) => e,
                    Err(e) => return Err(e),
                };
                let ghost p1 = self.position();
                let op = self.parse_op();
                let op = match op {
                    Ok(o) => o,
                    Err(e) => return Err(e),
                };
                let ghost p2 = self.position();
                let right = self.parse_expr();
                proof {
                    lemma_expr_advances(ts, p2);
                }
                let right = match right {
                    Ok(e) => e,
                    Err(e) => return Err(e),
                };
                let close = self.consume();
                match close {
                    Some(Token::RParen) => {},
                    other => {
                        return Err(self.err(ErrorKind::ExpectedCloseParen, other));
                    },
                }
                Ok(Expr::BinOp(Box::new(left), op, Box::new(right)))
            },
            other => Err(self.err(ErrorKind::ExpectedExpression, other)),
        }
    }

    #[verifier::spinoff_prover]
    #[verifier::rlimit(60)]
    fn parse_command(&mut self) -> (r: Result<Command, ParseError>)
        requires
            old(self).wf(),
        ensures
            final(self).wf(),
            final(self).same_input(old(self)),
            command_outcome(
                r,
                parse_command_at(old(self).token_models(), old(self).position()),
                *final(self),
                old(self).lines@,
            ),
        decreases old(self).tokens@.len() - old(self).pos,
    {
        let ghost ts = self.token_models();
        let ghost pos = self.position();
        let t = self.consume();
        match t {
            Some(Token::Forward) => {
                proof {
                    lemma_expr_advances(ts, pos + 1);
                }
                match self.parse_expr() {
                    Ok(e) => Ok(Command::Forward(e)),
                    Err(e) => Err(e),
                }
            },
            Some(Token::Turn) => {
                proof {
                    lemma_expr_advances(ts, pos + 1);
                }
                match self.parse_expr() {
                    Ok(e) => Ok(Command::Turn(e)),
                    Err(e) => Err(e),
                }
            },
            Some(Token::Pen) => {
                proof {
                    lemma_expr_advances(ts, pos + 1);
                }
                match self.parse_expr() {
                    Ok(e) => Ok(Command::Pen(e)),
                    Err(e) => Err(e),
                }
            },
            Some(Token::Color) => {
                proof {
                    lemma_expr_advances(ts, pos + 1);
                }
                let r = match self.parse_expr() {
                    Ok(e) => e,
                    Err(e) => return Err(e),
                };
                let ghost q1 = self.position();
                proof {
                    lemma_expr_advances(ts, q1);
                }
                let g = match self.parse_expr() {
                    Ok(e) => e,
                    Err(e) => return Err(e),
                };
                let ghost q2 = self.position();
                proof {
                    lemma_expr_advances(ts, q2);
                }
                let b = match self.parse_expr() {
                    Ok(e) => e,
                    Err(e) => return Err(e),
                };
                Ok(Command::Color(r, g, b))
            },
            Some(Token::SetVar) => {
                let name = match self.consume() {
                    Some(Token::Ident(s)) => s,
                    other => {
                        return Err(self.err(ErrorKind::ExpectedVariableName, other));
                    },
                };
                proof {
                    lemma_expr_advances(ts, pos + 2);
                }
                match self.parse_expr() {
                    Ok(e) => Ok(Command::SetVar(name, e)),
                    Err(e) => Err(e),
                }
            },
            Some(Token::Print) => {
                proof {
                    lemma_expr_advances(ts, pos + 1);
                }
                match self.parse_expr() {
                    Ok(e) => Ok(Command::Print(e)),
                    Err(e) => Err(e),
                }
            },
            Some(Token::DoTimes) => {
                proof {
                    lemma_expr_advances(ts, pos + 1);
                }
                let count = match self.parse_expr() {
                    Ok(e) => e,
                    Err(e) => return Err(e),
                };
                let ghost q1 = self.position();
                proof {
                    lemma_block_advances(ts, q1);
                }
                let body = match self.parse_block() {
                    Ok(b) => b,
                    Err(e) => return Err(e),
                };
                Ok(Command::DoTimes(count, body))
            },
            Some(Token::To) => {
                let name = match self.consume() {
                    Some(Token::Ident(s)) => s,
                    other => {
                        return Err(self.err(ErrorKind::ExpectedProcedureName, other));
                    },
                };
                proof {
                    lemma_block_advances(ts, pos + 2);
                }
                let body = match self.parse_block() {
                    Ok(b) => b,
                    Err(e) => return Err(e),
                };
                Ok(Command::Procedure(name, body))
            },
            // Any bare identifier is a procedure call.
            Some(Token::Ident(name)) => Ok(Command::Call(name)),
            other => Err(self.err(ErrorKind::UnexpectedToken, other)),
        }
    }

    fn parse_block(&mut self) -> (r: Result<Vec<Command>, ParseError>)
        requires
            old(self).wf(),
        ensures
            final(self).wf(),
            final(self).same_input(old(self)),
            block_outcome(
                r,
                parse_block_at(old(self).token_models(), old(self).position()),
                *final(self),
                old(self).lines@,
            ),
        decreases old(self).tokens@.len() - old(self).pos,
    {
        let ghost ts = self.token_models();
        let ghost pos = self.position();
        let ghost lines = self.lines@;
        let open = self.consume();
        match open {
            Some(Token::LBrace) => {},
            other => {
                return Err(self.err(ErrorKind::ExpectedOpenBrace, other));
            },
        }
        let mut cmds: Vec<Command> = Vec::new();
        while !self.peek_is_close_or_end()
            invariant
                self.wf(),
                self.tokens@ == old(self).tokens@,
                self.lines@ == old(self).lines@,
                ts == self.token_models(),
                lines == self.lines@,
                pos == old(self).pos,
                pos + 1 <= self.pos,
                parse_block_at(ts, pos) == prepend_body(
                    commands_model(cmds@),
                    parse_body_at(ts, self.position()),
                ),
            decreases self.tokens@.len() - self.pos,
        {
            let ghost p = self.position();
            let ghost before = cmds@;
            proof {
                lemma_command_advances(ts, p);
            }
            let c = match self.parse_command() {
                Ok(c) => c,
                Err(e) => return Err(e),
            };
            let ghost cm = command_model(c);
            proof {
                lemma_body_advances(ts, self.position());
            }
            cmds.push(c);
            proof {
                assert(cmds@.drop_last() =~= before);
                assert(commands_model(cmds@) == commands_model(before).push(cm));
                match parse_body_at(ts, self.position()) {
                    Ok((cs, q)) => {
                        assert(commands_model(before) + (seq![cm] + cs) =~= commands_model(
                            cmds@,
                        ) + cs);
                    },
                    Err(_) => {},
                }
            }
        }
        let close = self.consume();
        match close {
            Some(Token::RBrace) => {},
            other => {
                return Err(self.err(ErrorKind::ExpectedCloseBrace, other));
            },
        }
        proof {
            assert(commands_model(cmds@) + Seq::<SpecCommand>::empty() =~= commands_model(cmds@));
        }
        Ok(cmds)
    }

    pub fn parse_program(&mut self) -> (r: Result<Command, String>)
        requires
            old(self).wf(),
        ensures
            final(self).wf(),
            final(self).same_input(old(self)),
            match parse_program_at(old(self).token_models(), old(self).position()) {
                Ok(c) => r matches Ok(x) && command_model(x) == c,
                Err(e) => r matches Err(m) && m@ == error_text(old(self).line_numbers(), e),
            },
    {
        let ghost ts = self.token_models();
        let ghost pos = self.position();
        let mut cmds: Vec<Command> = Vec::new();
        while self.pos < self.tokens.len()
            invariant
                self.wf(),
                self.tokens@ == old(self).tokens@,
                self.lines@ == old(self).lines@,
                ts == self.token_models(),
                pos == old(self).pos,
                parse_commands_at(ts, pos) == prepend_commands(
                    commands_model(cmds@),
                    parse_commands_at(ts, self.position()),
                ),
            decreases self.tokens@.len() - self.pos,
        {
            let ghost p = self.position();
            let ghost before = cmds@;
            proof {
                lemma_command_advances(ts, p);
            }
            let c = match self.parse_command() {
                Ok(c) => c,
                Err(e) => return Err(e.message()),
            };
            let ghost cm = command_model(c);
            cmds.push(c);
            proof {
                assert(cmds@.drop_last() =~= before);
                assert(commands_model(cmds@) == commands_model(before).push(cm));
                match parse_commands_at(ts, self.position()) {
                    Ok(cs) => {
                        assert(commands_model(before) + (seq![cm] + cs) =~= commands_model(
                            cmds@,
                        ) + cs);
                    },
                    Err(_) => {},
                }
            }
        }
        proof {
            assert(commands_model(cmds@) + Seq::<SpecCommand>::empty() =~= commands_model(cmds@));
        }
        Ok(Command::Block(cmds))
    }
}

/// `cs` followed by what a body parse read, or its error.
pub open spec fn prepend_body(
    cs: Seq<SpecCommand>,
    r: Result<(Seq<SpecCommand>, int), SpecError>,
) -> Result<(Seq<SpecCommand>, int), SpecError> {
    match r {
        Ok((rest, q)) => Ok((cs + rest, q)),
        Err(e) => Err(e),
    }
}

/// `cs` followed by what a command-list parse read, or its error.
pub open spec fn prepend_commands(
    cs: Seq<SpecCommand>,
    r: Result<Seq<SpecCommand>, SpecError>,
) -> Result<Seq<SpecCommand>, SpecError> {
    match r {
        Ok(rest) => Ok(cs + rest),
        Err(e) => Err(e),
    }
}

} // verus!
