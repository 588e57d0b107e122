//! How a token sequence is written as text, and the law that lexing that
//! text gives the tokens back; with the token-level law of `printing`, a
//! command list written out as text parses back to itself.
use vstd::prelude::*;
use crate::ast::SpecCommand;
use crate::lexer::{
    is_digit, is_number_char, keyword, lex, lex_text, lowered, number_len, numeral_text, starts_word,
    symbol_token, word_char, word_len, word_token, SpecToken, Token, TokenStream,
};
use crate::parser::{parse_program_at, SpecError};
use crate::printing::{all_grammatical, commands_tokens, law_parse_inverts_printing};
use crate::text::{all_ascii, ascii_lower, ascii_lowercase, is_ascii_char, is_ascii_letter};

verus! {

/// The text that spells a token; keywords in their lower-case main form.
pub open spec fn token_text(t: SpecToken) -> Seq<char> {
    match t {
        SpecToken::Forward => "forward"@,
        SpecToken::Turn => "turn"@,
        SpecToken::Pen => "pen"@,
        SpecToken::Color => "color"@,
        SpecToken::SetVar => "set"@,
        SpecToken::Print => "print"@,
        SpecToken::DoTimes => "dotimes"@,
        SpecToken::To => "to"@,
        SpecToken::LBrace => seq!['{'],
        SpecToken::RBrace => seq!['}'],
        SpecToken::LParen => seq!['('],
        SpecToken::RParen => seq![')'],
        SpecToken::Plus => seq!['+'],
        SpecToken::Minus => seq!['-'],
        SpecToken::Star => seq!['*'],
        SpecToken::Slash => seq!['/'],
        SpecToken::Number(neg, digits) => if neg {
            seq!['-'] + digits
        } else {
            digits
        },
        SpecToken::Ident(name) => name,
    }
}

/// The text of a token sequence: each token followed by a space.
pub open spec fn tokens_text(ts: Seq<SpecToken>) -> Seq<char>
    decreases ts.len(),
{
    if ts.len() == 0 {
        Seq::empty()
    } else {
        token_text(ts[0]) + seq![' '] + tokens_text(ts.drop_first())
    }
}

/// A character of an identifier: an ASCII letter or digit, or `_`.
pub open spec fn ident_char(c: char) -> bool {
    is_ascii_letter(c) || is_digit(c) || c == '_'
}

/// An identifier: an ASCII letter or `_`, then identifier characters, and
/// no keyword in any case.
pub open spec fn identifier_text(n: Seq<char>) -> bool {
    &&& n.len() > 0
    &&& (is_ascii_letter(n[0]) || n[0] == '_')
    &&& forall|k: int| 0 <= k < n.len() ==> ident_char(#[trigger] n[k])
    &&& keyword(ascii_lowercase(n)) is None
}

/// A token whose text lexes back to it.
pub open spec fn printable(t: SpecToken) -> bool {
    match t {
        SpecToken::Number(_, x) => numeral_text(x),
        SpecToken::Ident(n) => identifier_text(n),
        _ => true,
    }
}

pub open spec fn all_printable(ts: Seq<SpecToken>) -> bool {
    forall|k: int| 0 <= k < ts.len() ==> printable(#[trigger] ts[k])
}

/// The tokens, without their line numbers, that lexing `s` gives.
pub open spec fn lexed_tokens(s: Seq<char>) -> Seq<SpecToken> {
    lex_text(s).map_values(|p: (SpecToken, nat)| p.0)
}

/// Whether `t` is one of the keyword tokens.
pub open spec fn is_keyword_token(t: SpecToken) -> bool {
    match t {
        SpecToken::Forward | SpecToken::Turn | SpecToken::Pen | SpecToken::Color
        | SpecToken::SetVar | SpecToken::Print | SpecToken::DoTimes | SpecToken::To => true,
        _ => false,
    }
}

proof fn lemma_keyword_text(t: SpecToken)
    requires
        is_keyword_token(t),
    ensures
        token_text(t).len() > 0,
        forall|k: int| 0 <= k < token_text(t).len() ==> 'a' <= #[trigger] token_text(t)[k] <= 'z',
        keyword(token_text(t)) == Some(t),
{
    reveal_strlit("forward");
    reveal_strlit("fd");
    reveal_strlit("turn");
    reveal_strlit("rt");
    reveal_strlit("right");
    reveal_strlit("pen");
    reveal_strlit("color");
    reveal_strlit("colour");
    reveal_strlit("set");
    reveal_strlit("print");
    reveal_strlit("dotimes");
    reveal_strlit("repeat");
    reveal_strlit("to");
    reveal_strlit("define");
    let w = token_text(t);
    assert(w.len() != "forward"@.len() || w[0] != 'f' || w == "forward"@);
    assert(w.len() != "fd"@.len() || w[0] != 'f' || w[1] != 'd' || w == "fd"@);
    assert(w.len() != "turn"@.len() || w[0] != 't' || w == "turn"@);
    assert(w.len() != "rt"@.len() || w[0] != 'r' || w == "rt"@);
    assert(w.len() != "right"@.len() || w[0] != 'r');
    assert(w.len() != "pen"@.len() || w[0] != 'p' || w == "pen"@);
    assert(w.len() != "color"@.len() || w[0] != 'c' || w == "color"@);
    assert(w.len() != "colour"@.len() || w[0] != 'c');
    assert(w.len() != "set"@.len() || w[0] != 's' || w == "set"@);
    assert(w.len() != "print"@.len() || w[0] != 'p' || w == "print"@);
    assert(w.len() != "dotimes"@.len() || w[0] != 'd' || w == "dotimes"@);
    assert(w.len() != "repeat"@.len() || w[0] != 'r');
    assert(w.len() != "to"@.len() || w[0] != 't' || w[1] != 'o' || w == "to"@);
    assert(w.len() != "define"@.len() || w[0] != 'd');
}


/// Whether `w` stands in `s` at position `i`, followed by a space.
pub open spec fn spelled_at(s: Seq<char>, i: int, w: Seq<char>) -> bool {
    0 <= i && i + w.len() < s.len() && s.subrange(i, i + w.len()) == w && s[i + w.len()] == ' '
}

proof fn lemma_spelled_char(s: Seq<char>, i: int, w: Seq<char>, k: int)
    requires
        spelled_at(s, i, w),
        0 <= k < w.len(),
    ensures
        s[i + k] == w[k],
{
    assert(s.subrange(i, i + w.len())[k] == s[i + k]);
}

proof fn lemma_number_len_text(s: Seq<char>, i: int, x: Seq<char>, k: int, seen_dot: bool)
    requires
        numeral_text(x),
        spelled_at(s, i, x),
        0 <= k <= x.len(),
        seen_dot ==> forall|m: int| k <= m < x.len() ==> #[trigger] x[m] != '.',
    ensures
        number_len(s, i + k, seen_dot) == x.len() - k,
    decreases x.len() - k,
{
    if k < x.len() {
        lemma_spelled_char(s, i, x, k);
        assert(is_number_char(x[k]));
        if x[k] == '.' && !seen_dot {
            assert forall|m: int| k + 1 <= m < x.len() implies #[trigger] x[m] != '.' by {
                assert(x[k] == '.');
            }
            lemma_number_len_text(s, i, x, k + 1, true);
        } else {
            lemma_number_len_text(s, i, x, k + 1, seen_dot);
        }
    } else {
        assert(s[i + x.len()] == ' ');
    }
}

proof fn lemma_word_len_text(s: Seq<char>, i: int, w: Seq<char>, k: int)
    requires
        spelled_at(s, i, w),
        forall|m: int| 0 <= m < w.len() ==> ident_char(#[trigger] w[m]),
        0 <= k <= w.len(),
    ensures
        word_len(s, i + k) == w.len() - k,
    decreases w.len() - k,
{
    if k < w.len() {
        lemma_spelled_char(s, i, w, k);
        assert(ident_char(w[k]));
        if is_ascii_letter(w[k]) || is_digit(w[k]) {
            assert(is_ascii_char(w[k]));
        }
        assert(word_char(w[k]));
        lemma_word_len_text(s, i, w, k + 1);
    } else {
        assert(s[i + w.len()] == ' ');
        assert(is_ascii_char(' '));
    }
}

proof fn lemma_lowercase_word(w: Seq<char>)
    requires
        forall|k: int| 0 <= k < w.len() ==> ident_char(#[trigger] w[k]),
    ensures
        all_ascii(w),
        lowered(w) == ascii_lowercase(w),
{
    assert forall|k: int| 0 <= k < w.len() implies is_ascii_char(#[trigger] w[k]) by {
        assert(ident_char(w[k]));
    }
}

proof fn lemma_lex_word(s: Seq<char>, i: int, w: Seq<char>, line: nat)
    requires
        spelled_at(s, i, w),
        w.len() > 0,
        is_ascii_letter(w[0]) || w[0] == '_',
        forall|m: int| 0 <= m < w.len() ==> ident_char(#[trigger] w[m]),
    ensures
        lex(s, i, line) == seq![(word_token(w), line)] + lex(s, i + w.len() + 1, line),
{
    lemma_spelled_char(s, i, w, 0);
    let c = s[i];
    assert(is_ascii_char(c));
    assert(starts_word(c));
    assert(!is_number_char(c));
    assert(symbol_token(c) is None);
    lemma_word_len_text(s, i, w, 1);
    assert(s.subrange(i, i + w.len()) == w);
    assert(lex(s, i + w.len(), line) == lex(s, i + w.len() + 1, line));
}

proof fn lemma_lex_token(s: Seq<char>, i: int, t: SpecToken, line: nat)
    requires
        printable(t),
        spelled_at(s, i, token_text(t)),
    ensures
        lex(s, i, line) == seq![(t, line)] + lex(s, i + token_text(t).len() + 1, line),
{
    let w = token_text(t);
    if is_keyword_token(t) {
        lemma_keyword_text(t);
    }
    assert(w.len() > 0);
    lemma_spelled_char(s, i, w, 0);
    if is_keyword_token(t) {
        assert forall|m: int| 0 <= m < w.len() implies ident_char(#[trigger] w[m]) by {
            assert('a' <= w[m] <= 'z');
        }
        lemma_lowercase_word(w);
        assert(ascii_lowercase(w) =~= w) by {
            assert forall|m: int| 0 <= m < w.len() implies ascii_lower(#[trigger] w[m]) == w[m] by {
                assert('a' <= w[m] <= 'z');
            }
        }
        lemma_lex_word(s, i, w, line);
    } else {
        match t {
            SpecToken::Ident(n) => {
                lemma_lowercase_word(n);
                lemma_lex_word(s, i, n, line);
            },
            SpecToken::Number(neg, x) => {
                if neg {
                    assert(s[i] == '-');
                    lemma_spelled_char(s, i, w, 1);
                    assert(s[i + 1] == x[0]);
                    assert(is_number_char(x[0]));
                    let x_at = i + 1;
                    assert(spelled_at(s, x_at, x)) by {
                        assert(s.subrange(x_at, x_at + x.len()) =~= w.subrange(1, w.len() as int));
                        assert(w.subrange(1, w.len() as int) =~= x);
                    }
                    lemma_number_len_text(s, x_at, x, 0, false);
                    assert(lex(s, i + w.len(), line) == lex(s, i + w.len() + 1, line));
                } else {
                    assert(is_number_char(x[0]));
                    assert(symbol_token(s[i]) is None);
                    lemma_number_len_text(s, i, x, 0, false);
                    assert(lex(s, i + w.len(), line) == lex(s, i + w.len() + 1, line));
                }
            },
            SpecToken::Minus => {
                assert(s[i + 1] == ' ');
                assert(lex(s, i + 1, line) == lex(s, i + 2, line));
            },
            _ => {
                assert(symbol_token(s[i]) == Some(t));
                assert(lex(s, i + 1, line) == lex(s, i + 2, line));
            },
        }
    }
}

/// The pairs of `ts` with every token on line `line`.
pub open spec fn on_line(ts: Seq<SpecToken>, line: nat) -> Seq<(SpecToken, nat)> {
    ts.map_values(|t: SpecToken| (t, line))
}

proof fn lemma_lex_tokens_text(ts: Seq<SpecToken>, s: Seq<char>, i: int, line: nat)
    requires
        all_printable(ts),
        0 <= i <= s.len(),
        s.subrange(i, s.len() as int) == tokens_text(ts),
    ensures
        lex(s, i, line) == on_line(ts, line),
    decreases ts.len(),
{
    if ts.len() == 0 {
        assert(s.subrange(i, s.len() as int).len() == 0);
        assert(on_line(ts, line) =~= Seq::<(SpecToken, nat)>::empty());
    } else {
        let t = ts[0];
        let tail = ts.drop_first();
        let w = token_text(t);
        let rest = tokens_text(tail);
        let suffix = s.subrange(i, s.len() as int);
        assert(suffix == w + seq![' '] + rest);
        assert(spelled_at(s, i, w)) by {
            assert(s.subrange(i, i + w.len()) =~= suffix.subrange(0, w.len() as int));
            assert(suffix.subrange(0, w.len() as int) =~= w);
            assert(s[i + w.len()] == suffix[w.len() as int]);
        }
        assert(printable(t));
        lemma_lex_token(s, i, t, line);
        assert(all_printable(tail)) by {
            assert forall|k: int| 0 <= k < tail.len() implies printable(#[trigger] tail[k]) by {
                assert(tail[k] == ts[k + 1]);
            }
        }
        let j = i + w.len() + 1;
        assert(s.subrange(j, s.len() as int) =~= suffix.subrange(w.len() + 1int, suffix.len() as int));
        assert(suffix.subrange(w.len() + 1int, suffix.len() as int) =~= rest);
        lemma_lex_tokens_text(tail, s, j, line);
        assert(seq![(t, line)] + on_line(tail, line) =~= on_line(ts, line));
    }
}

/// Lexing reads back what writing out wrote: the text of a sequence of
/// printable tokens lexes to those tokens, all on line 1.
pub proof fn law_lex_reads_tokens_text(ts: Seq<SpecToken>)
    requires
        all_printable(ts),
    ensures
        lex_text(tokens_text(ts)) == on_line(ts, 1),
        lexed_tokens(tokens_text(ts)) == ts,
{
    let s = tokens_text(ts);
    assert(s.subrange(0, s.len() as int) =~= s);
    lemma_lex_tokens_text(ts, s, 0, 1);
    assert(lexed_tokens(s) =~= ts);
}

/// A command list written out as text, token by token, lexes and parses
/// back to a program whose root block holds exactly those commands.
pub proof fn law_text_round_trip(cs: Seq<SpecCommand>)
    requires
        all_grammatical(cs),
        all_printable(commands_tokens(cs)),
    ensures
        lexed_tokens(tokens_text(commands_tokens(cs))) == commands_tokens(cs),
        parse_program_at(lexed_tokens(tokens_text(commands_tokens(cs))), 0) == Ok::<
            SpecCommand,
            SpecError,
        >(SpecCommand::Block(cs)),
{
    law_lex_reads_tokens_text(commands_tokens(cs));
    law_parse_inverts_printing(cs);
}

/// What `tokenize` gives for a text hands the parser the tokens of
/// `lexed_tokens`: with `law_text_round_trip`, parsing the tokenized text of
/// a written-out command list gives that list back.
pub proof fn law_stream_tokens(ts: TokenStream, s: Seq<char>)
    requires
        ts.wf(),
        ts.pairs() == lex_text(s),
    ensures
        ts.tokens@.map_values(|t: Token| t@) == lexed_tokens(s),
{
    assert forall|k: int| 0 <= k < ts.tokens@.len() implies ts.tokens@.map_values(|t: Token| t@)[k]
        == #[trigger] lexed_tokens(s)[k] by {
        assert(ts.pairs()[k].0 == ts.tokens@[k]@);
    }
    assert(ts.tokens@.map_values(|t: Token| t@) =~= lexed_tokens(s));
}

} // verus!
