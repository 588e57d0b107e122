//! How a list of commands is spelled in tokens, and the law that parsing
//! reads that spelling back.
use vstd::prelude::*;
use crate::ast::{Op, SpecCommand, SpecExpr};
use crate::lexer::SpecToken;
use crate::parser::{
    advanced, at, parse_block_at, parse_body_at, parse_command_at, parse_commands_at,
    parse_expr_at, parse_op_at, parse_program_at, SpecError,
};

verus! {

pub open spec fn op_token(op: Op) -> SpecToken {
    match op {
        Op::Add => SpecToken::Plus,
        Op::Sub => SpecToken::Minus,
        Op::Mul => SpecToken::Star,
        Op::Div => SpecToken::Slash,
    }
}

/// The tokens that spell an expression.
pub open spec fn expr_tokens(e: SpecExpr) -> Seq<SpecToken>
    decreases e,
{
    match e {
        SpecExpr::Literal(neg, t) => seq![SpecToken::Number(neg, t)],
        SpecExpr::Variable(s) => seq![SpecToken::Ident(s)],
        SpecExpr::BinOp(l, op, r) => seq![SpecToken::LParen] + expr_tokens(*l) + seq![op_token(op)]
            + expr_tokens(*r) + seq![SpecToken::RParen],
    }
}

/// The tokens that spell a command (a block spells its commands one after another).
pub open spec fn command_tokens(c: SpecCommand) -> Seq<SpecToken>
    decreases c,
{
    match c {
        SpecCommand::Forward(e) => seq![SpecToken::Forward] + expr_tokens(e),
        SpecCommand::Turn(e) => seq![SpecToken::Turn] + expr_tokens(e),
        SpecCommand::Pen(e) => seq![SpecToken::Pen] + expr_tokens(e),
        SpecCommand::Color(r, g, b) => seq![SpecToken::Color] + expr_tokens(r) + expr_tokens(g)
            + expr_tokens(b),
        SpecCommand::SetVar(n, e) => seq![SpecToken::SetVar, SpecToken::Ident(n)] + expr_tokens(e),
        SpecCommand::Print(e) => seq![SpecToken::Print] + expr_tokens(e),
        SpecCommand::Call(n) => seq![SpecToken::Ident(n)],
        SpecCommand::DoTimes(e, body) => seq![SpecToken::DoTimes] + expr_tokens(e) + seq![
            SpecToken::LBrace,
        ] + commands_tokens(body) + seq![SpecToken::RBrace],
        SpecCommand::Procedure(n, body) => seq![
            SpecToken::To,
            SpecToken::Ident(n),
            SpecToken::LBrace,
        ] + commands_tokens(body) + seq![SpecToken::RBrace],
        SpecCommand::Block(cs) => commands_tokens(cs),
    }
}

/// The tokens that spell a list of commands.
pub open spec fn commands_tokens(cs: Seq<SpecCommand>) -> Seq<SpecToken>
    decreases cs,
{
    if cs.len() == 0 {
        Seq::empty()
    } else {
        command_tokens(cs[0]) + commands_tokens(cs.drop_first())
    }
}

/// A command that the grammar can spell: no block except at the root.
pub open spec fn grammatical(c: SpecCommand) -> bool
    decreases c,
{
    match c {
        SpecCommand::DoTimes(_, body) => all_grammatical(body),
        SpecCommand::Procedure(_, body) => all_grammatical(body),
        SpecCommand::Block(_) => false,
        _ => true,
    }
}

pub open spec fn all_grammatical(cs: Seq<SpecCommand>) -> bool
    decreases cs,
{
    cs.len() == 0 || (grammatical(cs[0]) && all_grammatical(cs.drop_first()))
}

/// Whether the tokens `w` stand in `ts` from position `pos` on.
pub open spec fn occurs_at(ts: Seq<SpecToken>, pos: int, w: Seq<SpecToken>) -> bool {
    0 <= pos && pos + w.len() <= ts.len() && ts.subrange(pos, pos + w.len()) == w
}

proof fn lemma_occurs_split(ts: Seq<SpecToken>, pos: int, a: Seq<SpecToken>, b: Seq<SpecToken>)
    requires
        occurs_at(ts, pos, a + b),
    ensures
        occurs_at(ts, pos, a),
        occurs_at(ts, pos + a.len(), b),
{
    assert(ts.subrange(pos, pos + a.len()) =~= (a + b).subrange(0, a.len() as int));
    assert((a + b).subrange(0, a.len() as int) =~= a);
    assert(ts.subrange(pos + a.len(), pos + a.len() + b.len()) =~= (a + b).subrange(
        a.len() as int,
        (a.len() + b.len()) as int,
    ));
    assert((a + b).subrange(a.len() as int, (a.len() + b.len()) as int) =~= b);
}

proof fn lemma_occurs_one(ts: Seq<SpecToken>, pos: int, t: SpecToken)
    requires
        occurs_at(ts, pos, seq![t]),
    ensures
        at(ts, pos) == Some(t),
{
    assert(ts[pos] == ts.subrange(pos, pos + 1)[0]);
}

proof fn lemma_parse_expr_tokens(e: SpecExpr, ts: Seq<SpecToken>, pos: int)
    requires
        occurs_at(ts, pos, expr_tokens(e)),
    ensures
        parse_expr_at(ts, pos) == Ok::<(SpecExpr, int), SpecError>((e, pos + expr_tokens(e).len())),
    decreases e,
{
    match e {
        SpecExpr::Literal(neg, t) => {
            lemma_occurs_one(ts, pos, SpecToken::Number(neg, t));
        },
        SpecExpr::Variable(s) => {
            lemma_occurs_one(ts, pos, SpecToken::Ident(s));
        },
        SpecExpr::BinOp(l, op, r) => {
            let el = expr_tokens(*l);
            let er = expr_tokens(*r);
            let lp = seq![SpecToken::LParen];
            let ot = seq![op_token(op)];
            let rp = seq![SpecToken::RParen];
            assert(expr_tokens(e) == lp + el + ot + er + rp);
            lemma_occurs_split(ts, pos, lp + el + ot + er, rp);
            lemma_occurs_split(ts, pos, lp + el + ot, er);
            lemma_occurs_split(ts, pos, lp + el, ot);
            lemma_occurs_split(ts, pos, lp, el);
            lemma_occurs_one(ts, pos, SpecToken::LParen);
            lemma_occurs_one(ts, pos + 1 + el.len(), op_token(op));
            lemma_occurs_one(ts, pos + 2 + el.len() + er.len(), SpecToken::RParen);
            lemma_parse_expr_tokens(*l, ts, pos + 1);
            lemma_parse_expr_tokens(*r, ts, pos + 2 + el.len());
            assert(parse_op_at(ts, pos + 1 + el.len()) == Ok::<(Op, int), SpecError>(
                (op, pos + 2 + el.len()),
            ));
        },
    }
}

#[verifier::rlimit(50)]
proof fn lemma_parse_command_tokens(c: SpecCommand, ts: Seq<SpecToken>, pos: int)
    requires
        grammatical(c),
        occurs_at(ts, pos, command_tokens(c)),
    ensures
        parse_command_at(ts, pos) == Ok::<(SpecCommand, int), SpecError>(
            (c, pos + command_tokens(c).len()),
        ),
    decreases c,
{
    match c {
        SpecCommand::Forward(e) => {
            lemma_occurs_split(ts, pos, seq![SpecToken::Forward], expr_tokens(e));
            lemma_occurs_one(ts, pos, SpecToken::Forward);
            lemma_parse_expr_tokens(e, ts, pos + 1);
        },
        SpecCommand::Turn(e) => {
            lemma_occurs_split(ts, pos, seq![SpecToken::Turn], expr_tokens(e));
            lemma_occurs_one(ts, pos, SpecToken::Turn);
            lemma_parse_expr_tokens(e, ts, pos + 1);
        },
        SpecCommand::Pen(e) => {
            lemma_occurs_split(ts, pos, seq![SpecToken::Pen], expr_tokens(e));
            lemma_occurs_one(ts, pos, SpecToken::Pen);
            lemma_parse_expr_tokens(e, ts, pos + 1);
        },
        SpecCommand::Print(e) => {
            lemma_occurs_split(ts, pos, seq![SpecToken::Print], expr_tokens(e));
            lemma_occurs_one(ts, pos, SpecToken::Print);
            lemma_parse_expr_tokens(e, ts, pos + 1);
        },
        SpecCommand::Color(r, g, b) => {
            let kw = seq![SpecToken::Color];
            let er = expr_tokens(r);
            let eg = expr_tokens(g);
            let eb = expr_tokens(b);
            lemma_occurs_split(ts, pos, kw + er + eg, eb);
            lemma_occurs_split(ts, pos, kw + er, eg);
            lemma_occurs_split(ts, pos, kw, er);
            lemma_occurs_one(ts, pos, SpecToken::Color);
            lemma_parse_expr_tokens(r, ts, pos + 1);
            lemma_parse_expr_tokens(g, ts, pos + 1 + er.len());
            lemma_parse_expr_tokens(b, ts, pos + 1 + er.len() + eg.len());
        },
        SpecCommand::SetVar(n, e) => {
            let kw = seq![SpecToken::SetVar];
            let id = seq![SpecToken::Ident(n)];
            assert(seq![SpecToken::SetVar, SpecToken::Ident(n)] =~= kw + id);
            lemma_occurs_split(ts, pos, kw + id, expr_tokens(e));
            lemma_occurs_split(ts, pos, kw, id);
            lemma_occurs_one(ts, pos, SpecToken::SetVar);
            lemma_occurs_one(ts, pos + 1, SpecToken::Ident(n));
            lemma_parse_expr_tokens(e, ts, pos + 2);
        },
        SpecCommand::Call(n) => {
            lemma_occurs_one(ts, pos, SpecToken::Ident(n));
        },
        SpecCommand::DoTimes(e, body) => {
            let kw = seq![SpecToken::DoTimes];
            let ee = expr_tokens(e);
            let lb = seq![SpecToken::LBrace];
            let eb = commands_tokens(body);
            let rb = seq![SpecToken::RBrace];
            assert(command_tokens(c) =~= (kw + ee) + (lb + eb + rb));
            lemma_occurs_split(ts, pos, kw + ee, lb + eb + rb);
            lemma_occurs_split(ts, pos, kw, ee);
            lemma_occurs_one(ts, pos, SpecToken::DoTimes);
            lemma_parse_expr_tokens(e, ts, pos + 1);
            lemma_parse_block_tokens(body, ts, pos + 1 + ee.len());
        },
        SpecCommand::Procedure(n, body) => {
            let head = seq![SpecToken::To, SpecToken::Ident(n)];
            let lb = seq![SpecToken::LBrace];
            let eb = commands_tokens(body);
            let rb = seq![SpecToken::RBrace];
            assert(seq![SpecToken::To, SpecToken::Ident(n), SpecToken::LBrace] + eb + rb =~= head
                + (lb + eb + rb));
            lemma_occurs_split(ts, pos, head, lb + eb + rb);
            assert(head =~= seq![SpecToken::To] + seq![SpecToken::Ident(n)]);
            lemma_occurs_split(ts, pos, seq![SpecToken::To], seq![SpecToken::Ident(n)]);
            lemma_occurs_one(ts, pos, SpecToken::To);
            lemma_occurs_one(ts, pos + 1, SpecToken::Ident(n));
            lemma_parse_block_tokens(body, ts, pos + 2);
        },
        SpecCommand::Block(_) => {},
    }
}

proof fn lemma_parse_block_tokens(cs: Seq<SpecCommand>, ts: Seq<SpecToken>, pos: int)
    requires
        all_grammatical(cs),
        occurs_at(ts, pos, seq![SpecToken::LBrace] + commands_tokens(cs) + seq![SpecToken::RBrace]),
    ensures
        parse_block_at(ts, pos) == Ok::<(Seq<SpecCommand>, int), SpecError>(
            (cs, pos + commands_tokens(cs).len() + 2),
        ),
    decreases cs, 1int,
{
    let lb = seq![SpecToken::LBrace];
    let rest = commands_tokens(cs) + seq![SpecToken::RBrace];
    assert(lb + commands_tokens(cs) + seq![SpecToken::RBrace] =~= lb + rest);
    lemma_occurs_split(ts, pos, lb, rest);
    lemma_occurs_one(ts, pos, SpecToken::LBrace);
    lemma_parse_body_tokens(cs, ts, pos + 1);
}

proof fn lemma_first_token(c: SpecCommand)
    requires
        grammatical(c),
    ensures
        command_tokens(c).len() > 0,
        !(command_tokens(c)[0] is RBrace),
{
    match c {
        SpecCommand::Procedure(n, body) => {
            assert(command_tokens(c)[0] == SpecToken::To);
        },
        SpecCommand::DoTimes(e, body) => {
            assert(command_tokens(c)[0] == SpecToken::DoTimes);
        },
        SpecCommand::SetVar(n, e) => {
            assert(command_tokens(c)[0] == SpecToken::SetVar);
        },
        SpecCommand::Color(r, g, b) => {
            assert(command_tokens(c)[0] == SpecToken::Color);
        },
        _ => {},
    }
}

proof fn lemma_parse_body_tokens(cs: Seq<SpecCommand>, ts: Seq<SpecToken>, pos: int)
    requires
        all_grammatical(cs),
        occurs_at(ts, pos, commands_tokens(cs) + seq![SpecToken::RBrace]),
    ensures
        parse_body_at(ts, pos) == Ok::<(Seq<SpecCommand>, int), SpecError>(
            (cs, pos + commands_tokens(cs).len() + 1),
        ),
    decreases cs, 0int,
{
    if cs.len() == 0 {
        assert(commands_tokens(cs) + seq![SpecToken::RBrace] =~= seq![SpecToken::RBrace]);
        lemma_occurs_one(ts, pos, SpecToken::RBrace);
        assert(cs =~= Seq::<SpecCommand>::empty());
    } else {
        let c = cs[0];
        let tail = cs.drop_first();
        let ec = command_tokens(c);
        let et = commands_tokens(tail) + seq![SpecToken::RBrace];
        assert(commands_tokens(cs) + seq![SpecToken::RBrace] =~= ec + et);
        lemma_occurs_split(ts, pos, ec, et);
        lemma_first_token(c);
        assert(ts[pos] == ec[0]) by {
            assert(ts.subrange(pos, pos + ec.len())[0] == ts[pos]);
        }
        lemma_parse_command_tokens(c, ts, pos);
        lemma_parse_body_tokens(tail, ts, pos + ec.len());
        assert(seq![c] + tail =~= cs);
    }
}

proof fn lemma_parse_commands_tokens(cs: Seq<SpecCommand>, ts: Seq<SpecToken>, pos: int)
    requires
        all_grammatical(cs),
        occurs_at(ts, pos, commands_tokens(cs)),
        pos + commands_tokens(cs).len() == ts.len(),
    ensures
        parse_commands_at(ts, pos) == Ok::<Seq<SpecCommand>, SpecError>(cs),
    decreases cs,
{
    if cs.len() == 0 {
        assert(cs =~= Seq::<SpecCommand>::empty());
    } else {
        let c = cs[0];
        let tail = cs.drop_first();
        lemma_occurs_split(ts, pos, command_tokens(c), commands_tokens(tail));
        lemma_first_token(c);
        lemma_parse_command_tokens(c, ts, pos);
        lemma_parse_commands_tokens(tail, ts, pos + command_tokens(c).len());
        assert(seq![c] + tail =~= cs);
    }
}

/// Parsing reads back what printing wrote: the tokens that spell a list of
/// commands parse to a program whose root block holds exactly those commands.
pub proof fn law_parse_inverts_printing(cs: Seq<SpecCommand>)
    requires
        all_grammatical(cs),
    ensures
        parse_program_at(commands_tokens(cs), 0) == Ok::<SpecCommand, SpecError>(
            SpecCommand::Block(cs),
        ),
{
    let ts = commands_tokens(cs);
    assert(ts.subrange(0, ts.len() as int) =~= ts);
    lemma_parse_commands_tokens(cs, ts, 0);
}


// ── Parsing reads nothing but a printing ─────────────────────────────────────

proof fn lemma_occurs_join(ts: Seq<SpecToken>, pos: int, a: Seq<SpecToken>, b: Seq<SpecToken>)
    requires
        occurs_at(ts, pos, a),
        occurs_at(ts, pos + a.len(), b),
    ensures
        occurs_at(ts, pos, a + b),
{
    assert forall|i: int| 0 <= i < a.len() + b.len() implies ts.subrange(pos, pos + a.len() + b.len())[i]
        == (a + b)[i] by {
        if i < a.len() {
            assert(ts.subrange(pos, pos + a.len())[i] == a[i]);
        } else {
            assert(ts.subrange(pos + a.len(), pos + a.len() + b.len())[i - a.len()] == b[i - a.len()]);
        }
    }
    assert(ts.subrange(pos, pos + a.len() + b.len()) =~= a + b);
}

proof fn lemma_occurs_single(ts: Seq<SpecToken>, pos: int)
    requires
        0 <= pos < ts.len(),
    ensures
        occurs_at(ts, pos, seq![ts[pos]]),
{
    assert(ts.subrange(pos, pos + 1) =~= seq![ts[pos]]);
}

proof fn lemma_occurs_empty(ts: Seq<SpecToken>, pos: int)
    requires
        0 <= pos <= ts.len(),
    ensures
        occurs_at(ts, pos, Seq::empty()),
{
    assert(ts.subrange(pos, pos) =~= Seq::<SpecToken>::empty());
}

proof fn lemma_expr_parsed(ts: Seq<SpecToken>, pos: int)
    ensures
        parse_expr_at(ts, pos) matches Ok((e, q)) ==> q == pos + expr_tokens(e).len() && occurs_at(
            ts,
            pos,
            expr_tokens(e),
        ),
    decreases ts.len() - pos,
{
    if 0 <= pos < ts.len() {
        match ts[pos] {
            SpecToken::Number(neg, t) => {
                lemma_occurs_single(ts, pos);
            },
            SpecToken::Ident(n) => {
                lemma_occurs_single(ts, pos);
            },
            SpecToken::LParen => {
                lemma_expr_parsed(ts, pos + 1);
                match parse_expr_at(ts, pos + 1) {
                    Ok((l, p1)) => {
                        if advanced(ts, pos, p1) {
                            match parse_op_at(ts, p1) {
                                Ok((op, p2)) => {
                                    if advanced(ts, pos, p2) {
                                        lemma_expr_parsed(ts, p2);
                                        match parse_expr_at(ts, p2) {
                                            Ok((r, p3)) => {
                                                if advanced(ts, pos, p3) && at(ts, p3) == Some(
                                                    SpecToken::RParen,
                                                ) {
                                                    let lp = seq![SpecToken::LParen];
                                                    let el = expr_tokens(l);
                                                    let ot = seq![op_token(op)];
                                                    let er = expr_tokens(r);
                                                    let rp = seq![SpecToken::RParen];
                                                    lemma_occurs_single(ts, pos);
                                                    lemma_occurs_single(ts, p1);
                                                    assert(ts[p1] == op_token(op));
                                                    lemma_occurs_single(ts, p3);
                                                    lemma_occurs_join(ts, pos, lp, el);
                                                    lemma_occurs_join(ts, pos, lp + el, ot);
                                                    lemma_occurs_join(ts, pos, lp + el + ot, er);
                                                    lemma_occurs_join(ts, pos, lp + el + ot + er, rp);
                                                }
                                            },
                                            Err(_) => {},
                                        }
                                    }
                                },
                                Err(_) => {},
                            }
                        }
                    },
                    Err(_) => {},
                }
            },
            _ => {},
        }
    }
}

proof fn lemma_keyword_then_expr(ts: Seq<SpecToken>, pos: int)
    requires
        0 <= pos < ts.len(),
    ensures
        parse_expr_at(ts, pos + 1) matches Ok((e, q)) ==> q == pos + 1 + expr_tokens(e).len()
            && occurs_at(ts, pos, seq![ts[pos]] + expr_tokens(e)),
{
    lemma_expr_parsed(ts, pos + 1);
    lemma_occurs_single(ts, pos);
    match parse_expr_at(ts, pos + 1) {
        Ok((e, q)) => {
            lemma_occurs_join(ts, pos, seq![ts[pos]], expr_tokens(e));
        },
        Err(_) => {},
    }
}

#[verifier::rlimit(60)]
proof fn lemma_command_parsed(ts: Seq<SpecToken>, pos: int)
    ensures
        parse_command_at(ts, pos) matches Ok((c, q)) ==> q == pos + command_tokens(c).len()
            && occurs_at(ts, pos, command_tokens(c)) && grammatical(c),
    decreases ts.len() - pos, 0int,
{
    if 0 <= pos < ts.len() {
        let p1 = pos + 1;
        match ts[pos] {
            SpecToken::Forward => {
                lemma_keyword_then_expr(ts, pos);
            },
            SpecToken::Turn => {
                lemma_keyword_then_expr(ts, pos);
            },
            SpecToken::Pen => {
                lemma_keyword_then_expr(ts, pos);
            },
            SpecToken::Print => {
                lemma_keyword_then_expr(ts, pos);
            },
            SpecToken::Color => {
                lemma_keyword_then_expr(ts, pos);
                match parse_expr_at(ts, p1) {
                    Ok((r, q1)) => {
                        if advanced(ts, pos, q1) {
                            lemma_expr_parsed(ts, q1);
                            match parse_expr_at(ts, q1) {
                                Ok((g, q2)) => {
                                    if advanced(ts, pos, q2) {
                                        lemma_expr_parsed(ts, q2);
                                        match parse_expr_at(ts, q2) {
                                            Ok((b, q3)) => {
                                                let kw = seq![SpecToken::Color];
                                                lemma_occurs_join(ts, pos, kw + expr_tokens(r), expr_tokens(g));
                                                lemma_occurs_join(
                                                    ts,
                                                    pos,
                                                    kw + expr_tokens(r) + expr_tokens(g),
                                                    expr_tokens(b),
                                                );
                                            },
                                            Err(_) => {},
                                        }
                                    }
                                },
                                Err(_) => {},
                            }
                        }
                    },
                    Err(_) => {},
                }
            },
            SpecToken::SetVar => {
                match at(ts, p1) {
                    Some(SpecToken::Ident(name)) => {
                        lemma_occurs_single(ts, pos);
                        lemma_occurs_single(ts, p1);
                        lemma_expr_parsed(ts, p1 + 1);
                        let head = seq![SpecToken::SetVar, SpecToken::Ident(name)];
                        assert(head =~= seq![SpecToken::SetVar] + seq![SpecToken::Ident(name)]);
                        lemma_occurs_join(ts, pos, seq![SpecToken::SetVar], seq![SpecToken::Ident(name)]);
                        match parse_expr_at(ts, p1 + 1) {
                            Ok((e, q)) => {
                                lemma_occurs_join(ts, pos, head, expr_tokens(e));
                            },
                            Err(_) => {},
                        }
                    },
                    _ => {},
                }
            },
            SpecToken::DoTimes => {
                lemma_keyword_then_expr(ts, pos);
                match parse_expr_at(ts, p1) {
                    Ok((count, q1)) => {
                        if advanced(ts, pos, q1) {
                            lemma_block_parsed(ts, q1);
                            match parse_block_at(ts, q1) {
                                Ok((body, q2)) => {
                                    let kw = seq![SpecToken::DoTimes] + expr_tokens(count);
                                    let blk = seq![SpecToken::LBrace] + commands_tokens(body) + seq![
                                        SpecToken::RBrace,
                                    ];
                                    lemma_occurs_join(ts, pos, kw, blk);
                                    assert(kw + blk =~= command_tokens(SpecCommand::DoTimes(count, body)));
                                },
                                Err(_) => {},
                            }
                        }
                    },
                    Err(_) => {},
                }
            },
            SpecToken::To => {
                match at(ts, p1) {
                    Some(SpecToken::Ident(name)) => {
                        lemma_block_parsed(ts, p1 + 1);
                        match parse_block_at(ts, p1 + 1) {
                            Ok((body, q)) => {
                                let head = seq![SpecToken::To, SpecToken::Ident(name)];
                                lemma_occurs_single(ts, pos);
                                lemma_occurs_single(ts, p1);
                                assert(head =~= seq![SpecToken::To] + seq![SpecToken::Ident(name)]);
                                lemma_occurs_join(ts, pos, seq![SpecToken::To], seq![SpecToken::Ident(name)]);
                                let blk = seq![SpecToken::LBrace] + commands_tokens(body) + seq![
                                    SpecToken::RBrace,
                                ];
                                lemma_occurs_join(ts, pos, head, blk);
                                assert(head + blk =~= command_tokens(SpecCommand::Procedure(name, body)));
                            },
                            Err(_) => {},
                        }
                    },
                    _ => {},
                }
            },
            SpecToken::Ident(name) => {
                lemma_occurs_single(ts, pos);
            },
            _ => {},
        }
    }
}

proof fn lemma_block_parsed(ts: Seq<SpecToken>, pos: int)
    ensures
        parse_block_at(ts, pos) matches Ok((cs, q)) ==> q == pos + commands_tokens(cs).len() + 2
            && occurs_at(ts, pos, seq![SpecToken::LBrace] + commands_tokens(cs) + seq![SpecToken::RBrace])
            && all_grammatical(cs),
    decreases ts.len() - pos, 0int,
{
    if 0 <= pos < ts.len() && ts[pos] is LBrace {
        lemma_body_parsed(ts, pos + 1);
        lemma_occurs_single(ts, pos);
        match parse_body_at(ts, pos + 1) {
            Ok((cs, q)) => {
                let lb = seq![SpecToken::LBrace];
                let rest = commands_tokens(cs) + seq![SpecToken::RBrace];
                lemma_occurs_join(ts, pos, lb, rest);
                assert(lb + rest =~= lb + commands_tokens(cs) + seq![SpecToken::RBrace]);
            },
            Err(_) => {},
        }
    }
}

proof fn lemma_commands_tokens_cons(c: SpecCommand, cs: Seq<SpecCommand>)
    ensures
        commands_tokens(seq![c] + cs) == command_tokens(c) + commands_tokens(cs),
        all_grammatical(seq![c] + cs) == (grammatical(c) && all_grammatical(cs)),
{
    let all = seq![c] + cs;
    assert(all[0] == c);
    assert(all.drop_first() =~= cs);
}

proof fn lemma_body_parsed(ts: Seq<SpecToken>, pos: int)
    ensures
        parse_body_at(ts, pos) matches Ok((cs, q)) ==> q == pos + commands_tokens(cs).len() + 1
            && occurs_at(ts, pos, commands_tokens(cs) + seq![SpecToken::RBrace]) && all_grammatical(cs),
    decreases ts.len() - pos, 1int,
{
    if 0 <= pos < ts.len() {
        if ts[pos] is RBrace {
            lemma_occurs_single(ts, pos);
            let e = Seq::<SpecCommand>::empty();
            assert(commands_tokens(e) + seq![SpecToken::RBrace] =~= seq![ts[pos]]);
        } else {
            lemma_command_parsed(ts, pos);
            match parse_command_at(ts, pos) {
                Ok((c, p1)) => {
                    if pos < p1 <= ts.len() {
                        lemma_body_parsed(ts, p1);
                        match parse_body_at(ts, p1) {
                            Ok((cs, p2)) => {
                                lemma_commands_tokens_cons(c, cs);
                                let rest = commands_tokens(cs) + seq![SpecToken::RBrace];
                                lemma_occurs_join(ts, pos, command_tokens(c), rest);
                                assert(command_tokens(c) + rest =~= commands_tokens(seq![c] + cs)
                                    + seq![SpecToken::RBrace]);
                            },
                            Err(_) => {},
                        }
                    }
                },
                Err(_) => {},
            }
        }
    }
}

proof fn lemma_commands_parsed(ts: Seq<SpecToken>, pos: int)
    requires
        0 <= pos <= ts.len(),
    ensures
        parse_commands_at(ts, pos) matches Ok(cs) ==> pos + commands_tokens(cs).len() == ts.len()
            && occurs_at(ts, pos, commands_tokens(cs)) && all_grammatical(cs),
    decreases ts.len() - pos,
{
    if pos == ts.len() {
        lemma_occurs_empty(ts, pos);
    } else {
        lemma_command_parsed(ts, pos);
        match parse_command_at(ts, pos) {
            Ok((c, p1)) => {
                if pos < p1 <= ts.len() {
                    lemma_commands_parsed(ts, p1);
                    match parse_commands_at(ts, p1) {
                        Ok(cs) => {
                            lemma_commands_tokens_cons(c, cs);
                            lemma_occurs_join(ts, pos, command_tokens(c), commands_tokens(cs));
                        },
                        Err(_) => {},
                    }
                }
            },
            Err(_) => {},
        }
    }
}

/// Parsing accepts nothing but a printing: a token list that parses to a
/// program with the commands `cs` is exactly the tokens that spell `cs`, and
/// `cs` can be spelled.  (So every `(` is closed, every block is closed, and
/// nothing is left over or made up.)
pub proof fn law_parse_reads_only_printing(ts: Seq<SpecToken>, cs: Seq<SpecCommand>)
    ensures
        parse_program_at(ts, 0) == Ok::<SpecCommand, SpecError>(SpecCommand::Block(cs)) ==> ts
            == commands_tokens(cs) && all_grammatical(cs),
{
    lemma_commands_parsed(ts, 0);
    if parse_program_at(ts, 0) == Ok::<SpecCommand, SpecError>(SpecCommand::Block(cs)) {
        assert(ts.subrange(0, ts.len() as int) =~= ts);
    }
}

} // verus!
