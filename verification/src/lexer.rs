//! Lexer for the Turtle Graphics language.
//!
//! Produces a `TokenStream`: a parallel list of tokens and the 1-based source
//! line number on which each token appears.  The parser uses line numbers to
//! produce useful error messages.
//!
//! Keywords are case-insensitive.  Comments start with `#`.
//!
//! A number token keeps the characters of its literal (digits with at most one
//! `.`) and its sign; turning that text into a value is left to the code that
//! evaluates programs.
use vstd::prelude::*;
use crate::text::{
    all_ascii, ascii_lowercase, char_is_alphabetic, char_is_alphanumeric, chars_of,
    is_alphabetic_char, is_alphanumeric_char, is_ascii_char, is_ascii_letter, lowercase,
    string_from_chars, to_lowercase,
};

verus! {

/// The literal text of a number: its sign and the digits (with at most one
/// `.`) that were read for it.
#[derive(Debug, Clone, PartialEq)]
pub struct Numeral {
    pub negative: bool,
    pub text: String,
}

/// The mathematical model of a token: the same variants, with text as `Seq<char>`.
pub enum SpecToken {
    Forward,
    Turn,
    Pen,
    Color,
    SetVar,
    Print,
    DoTimes,
    To,
    LBrace,
    RBrace,
    LParen,
    RParen,
    Plus,
    Minus,
    Star,
    Slash,
    Number(bool, Seq<char>),
    Ident(Seq<char>),
}

/// One token of the language.  (`SetVar` is the keyword `set`.)
#[derive(Debug, Clone, PartialEq)]
pub enum Token {
    // --- Drawing commands ---
    Forward,
    Turn,
    Pen,
    Color,
    // --- Variables and I/O ---
    SetVar,
    Print,
    // --- Control flow ---
    DoTimes,
    // --- Procedure support ---
    To,
    // --- Block delimiters ---
    LBrace,
    RBrace,
    // --- Expression delimiters ---
    LParen,
    RParen,
    // --- Arithmetic operators ---
    Plus,
    Minus,
    Star,
    Slash,
    // --- Value tokens ---
    Number(Numeral),
    Ident(String),
}

impl View for Token {
    type V = SpecToken;

    open spec fn view(&self) -> SpecToken {
        match self {
            Token::Forward => SpecToken::Forward,
            Token::Turn => SpecToken::Turn,
            Token::Pen => SpecToken::Pen,
            Token::Color => SpecToken::Color,
            Token::SetVar => SpecToken::SetVar,
            Token::Print => SpecToken::Print,
            Token::DoTimes => SpecToken::DoTimes,
            Token::To => SpecToken::To,
            Token::LBrace => SpecToken::LBrace,
            Token::RBrace => SpecToken::RBrace,
            Token::LParen => SpecToken::LParen,
            Token::RParen => SpecToken::RParen,
            Token::Plus => SpecToken::Plus,
            Token::Minus => SpecToken::Minus,
            Token::Star => SpecToken::Star,
            Token::Slash => SpecToken::Slash,
            Token::Number(n) => SpecToken::Number(n.negative, n.text@),
            Token::Ident(s) => SpecToken::Ident(s@),
        }
    }
}

impl Token {
    /// A copy of this token with the same view.
    pub fn duplicate(&self) -> (t: Token)
        ensures
            t@ == self@,
    {
        match self {
            Token::Forward => Token::Forward,
            Token::Turn => Token::Turn,
            Token::Pen => Token::Pen,
            Token::Color => Token::Color,
            Token::SetVar => Token::SetVar,
            Token::Print => Token::Print,
            Token::DoTimes => Token::DoTimes,
            Token::To => Token::To,
            Token::LBrace => Token::LBrace,
            Token::RBrace => Token::RBrace,
            Token::LParen => Token::LParen,
            Token::RParen => Token::RParen,
            Token::Plus => Token::Plus,
            Token::Minus => Token::Minus,
            Token::Star => Token::Star,
            Token::Slash => Token::Slash,
            Token::Number(n) => Token::Number(Numeral { negative: n.negative, text: n.text.clone() }),
            Token::Ident(s) => Token::Ident(s.clone()),
        }
    }
}

/// Output of the lexer.
pub struct TokenStream {
    pub tokens: Vec<Token>,
    /// `lines[i]` is the 1-based source line of `tokens[i]`.
    pub lines: Vec<usize>,
}

/// Tokens and lines paired up, as a sequence of (token, line) models.
pub open spec fn pairs_of(tokens: Seq<Token>, lines: Seq<usize>) -> Seq<(SpecToken, nat)> {
    Seq::new(tokens.len(), |k: int| (tokens[k]@, lines[k] as nat))
}

impl TokenStream {
    /// The stream as a sequence of (token, line) pairs.
    pub open spec fn pairs(&self) -> Seq<(SpecToken, nat)> {
        pairs_of(self.tokens@, self.lines@)
    }

    /// Both lists have one entry per token.
    pub open spec fn wf(&self) -> bool {
        self.tokens@.len() == self.lines@.len()
    }
}

// ── Specification ─────────────────────────────────────────────────────────────

pub open spec fn is_digit(c: char) -> bool {
    '0' <= c && c <= '9'
}

/// A character that starts (or continues) a number literal.
pub open spec fn is_number_char(c: char) -> bool {
    is_digit(c) || c == '.'
}

/// How many characters from `k` on belong to a number literal: digits, and
/// one `.` unless `seen_dot` says one was read already.
pub open spec fn number_len(s: Seq<char>, k: int, seen_dot: bool) -> nat
    decreases s.len() - k,
{
    if k < 0 || k >= s.len() {
        0
    } else if s[k] == '.' && !seen_dot {
        1 + number_len(s, k + 1, true)
    } else if is_digit(s[k]) {
        1 + number_len(s, k + 1, seen_dot)
    } else {
        0
    }
}

/// A character that starts a word: alphabetic, or `_`.  (On ASCII the
/// alphabetic characters are the letters.)
pub open spec fn starts_word(c: char) -> bool {
    (if is_ascii_char(c) {
        is_ascii_letter(c)
    } else {
        is_alphabetic_char(c)
    }) || c == '_'
}

/// A character that continues a word: alphanumeric, or `_`.  (On ASCII the
/// alphanumeric characters are the letters and digits.)
pub open spec fn word_char(c: char) -> bool {
    (if is_ascii_char(c) {
        is_ascii_letter(c) || is_digit(c)
    } else {
        is_alphanumeric_char(c)
    }) || c == '_'
}

/// The lower-cased form of a word: ASCII lower-casing for an ASCII word,
/// Unicode lower-casing otherwise.
pub open spec fn lowered(w: Seq<char>) -> Seq<char> {
    if all_ascii(w) {
        ascii_lowercase(w)
    } else {
        lowercase(w)
    }
}

/// How many characters from `k` on belong to a word (alphanumeric or `_`).
pub open spec fn word_len(s: Seq<char>, k: int) -> nat
    decreases s.len() - k,
{
    if k < 0 || k >= s.len() {
        0
    } else if word_char(s[k]) {
        1 + word_len(s, k + 1)
    } else {
        0
    }
}

/// How many characters from `k` on come before the end of the line.
pub open spec fn comment_len(s: Seq<char>, k: int) -> nat
    decreases s.len() - k,
{
    if k < 0 || k >= s.len() {
        0
    } else if s[k] == '\n' {
        0
    } else {
        1 + comment_len(s, k + 1)
    }
}

/// The keyword that a lower-cased word spells, if any.
pub open spec fn keyword(lower: Seq<char>) -> Option<SpecToken> {
    if lower == "forward"@ || lower == "fd"@ {
        Some(SpecToken::Forward)
    } else if lower == "turn"@ || lower == "rt"@ || lower == "right"@ {
        Some(SpecToken::Turn)
    } else if lower == "pen"@ {
        Some(SpecToken::Pen)
    } else if lower == "color"@ || lower == "colour"@ {
        Some(SpecToken::Color)
    } else if lower == "set"@ {
        Some(SpecToken::SetVar)
    } else if lower == "print"@ {
        Some(SpecToken::Print)
    } else if lower == "dotimes"@ || lower == "repeat"@ {
        Some(SpecToken::DoTimes)
    } else if lower == "to"@ || lower == "define"@ {
        Some(SpecToken::To)
    } else {
        None
    }
}

/// The token for a word: a keyword (compared case-insensitively) or an identifier.
pub open spec fn word_token(w: Seq<char>) -> SpecToken {
    match keyword(lowered(w)) {
        Some(t) => t,
        None => SpecToken::Ident(w),
    }
}

/// The token for a one-character symbol.
pub open spec fn symbol_token(c: char) -> Option<SpecToken> {
    if c == '{' {
        Some(SpecToken::LBrace)
    } else if c == '}' {
        Some(SpecToken::RBrace)
    } else if c == '(' {
        Some(SpecToken::LParen)
    } else if c == ')' {
        Some(SpecToken::RParen)
    } else if c == '+' {
        Some(SpecToken::Plus)
    } else if c == '*' {
        Some(SpecToken::Star)
    } else if c == '/' {
        Some(SpecToken::Slash)
    } else {
        None
    }
}

pub proof fn lemma_number_len_bound(s: Seq<char>, k: int, seen_dot: bool)
    requires
        0 <= k <= s.len(),
    ensures
        number_len(s, k, seen_dot) <= s.len() - k,
    decreases s.len() - k,
{
    if k < s.len() {
        if s[k] == '.' && !seen_dot {
            lemma_number_len_bound(s, k + 1, true);
        } else if is_digit(s[k]) {
            lemma_number_len_bound(s, k + 1, seen_dot);
        }
    }
}

pub proof fn lemma_word_len_bound(s: Seq<char>, k: int)
    requires
        0 <= k <= s.len(),
    ensures
        word_len(s, k) <= s.len() - k,
    decreases s.len() - k,
{
    if k < s.len() {
        lemma_word_len_bound(s, k + 1);
    }
}

pub proof fn lemma_comment_len_bound(s: Seq<char>, k: int)
    requires
        0 <= k <= s.len(),
    ensures
        comment_len(s, k) <= s.len() - k,
    decreases s.len() - k,
{
    if k < s.len() && s[k] != '\n' {
        lemma_comment_len_bound(s, k + 1);
    }
}

/// The (token, line) pairs that lexing `s` from position `i`, on line `line`, yields.
pub open spec fn lex(s: Seq<char>, i: int, line: nat) -> Seq<(SpecToken, nat)>
    decreases s.len() - i,
{
    if i < 0 || i >= s.len() {
        Seq::empty()
    } else {
        let c = s[i];
        if c == '\n' {
            lex(s, i + 1, line + 1)
        } else if c == ' ' || c == '\t' || c == '\r' {
            lex(s, i + 1, line)
        } else if c == '#' {
            proof {
                lemma_comment_len_bound(s, i + 1);
            }
            lex(s, i + 1 + comment_len(s, i + 1), line)
        } else if symbol_token(c) is Some {
            seq![(symbol_token(c).unwrap(), line)] + lex(s, i + 1, line)
        } else if c == '-' {
            if i + 1 < s.len() && is_number_char(s[i + 1]) {
                let n = number_len(s, i + 1, false);
                proof {
                    lemma_number_len_bound(s, i + 1, false);
                }
                seq![(SpecToken::Number(true, s.subrange(i + 1, i + 1 + n)), line)] + lex(
                    s,
                    i + 1 + n,
                    line,
                )
            } else {
                seq![(SpecToken::Minus, line)] + lex(s, i + 1, line)
            }
        } else if is_number_char(c) {
            let n = number_len(s, i, false);
            proof {
                lemma_number_len_bound(s, i, false);
            }
            seq![(SpecToken::Number(false, s.subrange(i, i + n)), line)] + lex(s, i + n, line)
        } else if starts_word(c) {
            let n = 1 + word_len(s, i + 1);
            proof {
                lemma_word_len_bound(s, i + 1);
            }
            seq![(word_token(s.subrange(i, i + n)), line)] + lex(s, i + n, line)
        } else {
            lex(s, i + 1, line)
        }
    }
}

/// What `tokenize` yields for the text `s`.
pub open spec fn lex_text(s: Seq<char>) -> Seq<(SpecToken, nat)> {
    lex(s, 0, 1)
}

/// The number of newlines in `s` from position `i` on.
pub open spec fn newlines_from(s: Seq<char>, i: int) -> nat
    decreases s.len() - i,
{
    if i < 0 || i >= s.len() {
        0
    } else {
        (if s[i] == '\n' {
            1nat
        } else {
            0nat
        }) + newlines_from(s, i + 1)
    }
}

/// Whether the line numbers of `ps` never decrease and lie in `lo..=hi`.
pub open spec fn lines_ordered_within(ps: Seq<(SpecToken, nat)>, lo: nat, hi: nat) -> bool {
    &&& forall|k: int| 0 <= k < ps.len() ==> lo <= (#[trigger] ps[k]).1 <= hi
    &&& forall|j: int, k: int| 0 <= j <= k < ps.len() ==> (#[trigger] ps[j]).1 <= (#[trigger] ps[k]).1
}

proof fn lemma_newlines_skip(s: Seq<char>, i: int, n: int)
    requires
        0 <= i,
        0 <= n,
        i + n <= s.len(),
    ensures
        newlines_from(s, i + n) <= newlines_from(s, i),
    decreases n,
{
    if n > 0 {
        lemma_newlines_skip(s, i + 1, n - 1);
    }
}

proof fn lemma_lex_lines(s: Seq<char>, i: int, line: nat)
    requires
        0 <= i <= s.len(),
    ensures
        lines_ordered_within(lex(s, i, line), line, line + newlines_from(s, i)),
    decreases s.len() - i,
{
    if i < s.len() {
        let c = s[i];
        if c == '\n' {
            lemma_lex_lines(s, i + 1, line + 1);
        } else if c == ' ' || c == '\t' || c == '\r' {
            lemma_lex_lines(s, i + 1, line);
        } else if c == '#' {
            lemma_comment_len_bound(s, i + 1);
            let j = i + 1 + comment_len(s, i + 1);
            lemma_lex_lines(s, j, line);
            lemma_newlines_skip(s, i, j - i);
        } else {
            // a token on `line`, then lexing goes on from some later position on the same line
            let j: int = if symbol_token(c) is Some {
                i + 1
            } else if c == '-' {
                if i + 1 < s.len() && is_number_char(s[i + 1]) {
                    i + 1 + number_len(s, i + 1, false)
                } else {
                    i + 1
                }
            } else if is_number_char(c) {
                i + number_len(s, i, false)
            } else if starts_word(c) {
                i + 1 + word_len(s, i + 1)
            } else {
                i + 1
            };
            lemma_number_len_bound(s, i + 1, false);
            lemma_number_len_bound(s, i, false);
            lemma_word_len_bound(s, i + 1);
            assert(i < j <= s.len());
            lemma_lex_lines(s, j, line);
            lemma_newlines_skip(s, i, j - i);
            let rest = lex(s, j, line);
            let ps = lex(s, i, line);
            if symbol_token(c) is Some || c == '-' || is_number_char(c) || starts_word(c) {
                assert(ps.len() == rest.len() + 1);
                assert(ps[0].1 == line);
                assert forall|k: int| 1 <= k < ps.len() implies ps[k] == rest[k - 1] by {}
            } else {
                assert(ps == rest);
            }
        }
    }
}

/// The line numbers of the tokens start at 1, never decrease, and never pass
/// the number of lines of the text.
pub proof fn law_token_lines(s: Seq<char>)
    ensures
        lines_ordered_within(lex_text(s), 1, 1 + newlines_from(s, 0)),
{
    lemma_lex_lines(s, 0, 1);
}

/// The number of newlines among the characters of `s` at positions `i..j`.
pub open spec fn newlines_between(s: Seq<char>, i: int, j: int) -> nat
    decreases j - i,
{
    if i >= j || i < 0 || i >= s.len() {
        0
    } else {
        (if s[i] == '\n' {
            1nat
        } else {
            0nat
        }) + newlines_between(s, i + 1, j)
    }
}

/// Whether a token can begin with `c`: no blank, newline or comment sign.
pub open spec fn token_begins(c: char) -> bool {
    c != ' ' && c != '\t' && c != '\r' && c != '\n' && c != '#'
}

/// The positions in `s` at which the tokens that lexing from `i` yields
/// begin, in order.
pub open spec fn token_starts(s: Seq<char>, i: int) -> Seq<int>
    decreases s.len() - i,
{
    if i < 0 || i >= s.len() {
        Seq::empty()
    } else {
        let c = s[i];
        if c == '\n' || c == ' ' || c == '\t' || c == '\r' {
            token_starts(s, i + 1)
        } else if c == '#' {
            proof {
                lemma_comment_len_bound(s, i + 1);
            }
            token_starts(s, i + 1 + comment_len(s, i + 1))
        } else if symbol_token(c) is Some {
            seq![i] + token_starts(s, i + 1)
        } else if c == '-' {
            if i + 1 < s.len() && is_number_char(s[i + 1]) {
                proof {
                    lemma_number_len_bound(s, i + 1, false);
                }
                seq![i] + token_starts(s, i + 1 + number_len(s, i + 1, false))
            } else {
                seq![i] + token_starts(s, i + 1)
            }
        } else if is_number_char(c) {
            proof {
                lemma_number_len_bound(s, i, false);
            }
            seq![i] + token_starts(s, i + number_len(s, i, false))
        } else if starts_word(c) {
            proof {
                lemma_word_len_bound(s, i + 1);
            }
            seq![i] + token_starts(s, i + 1 + word_len(s, i + 1))
        } else {
            token_starts(s, i + 1)
        }
    }
}

proof fn lemma_number_chars(s: Seq<char>, k: int, seen_dot: bool)
    requires
        0 <= k <= s.len(),
    ensures
        forall|m: int| k <= m < k + number_len(s, k, seen_dot) ==> #[trigger] s[m] != '\n',
    decreases s.len() - k,
{
    if k < s.len() {
        if s[k] == '.' && !seen_dot {
            lemma_number_chars(s, k + 1, true);
        } else if is_digit(s[k]) {
            lemma_number_chars(s, k + 1, seen_dot);
        }
    }
}

proof fn lemma_word_chars(s: Seq<char>, k: int)
    requires
        0 <= k <= s.len(),
    ensures
        forall|m: int| k <= m < k + word_len(s, k) ==> #[trigger] s[m] != '\n',
    decreases s.len() - k,
{
    if k < s.len() {
        assert(is_ascii_char('\n'));
        lemma_word_chars(s, k + 1);
    }
}

proof fn lemma_comment_chars(s: Seq<char>, k: int)
    requires
        0 <= k <= s.len(),
    ensures
        forall|m: int| k <= m < k + comment_len(s, k) ==> #[trigger] s[m] != '\n',
    decreases s.len() - k,
{
    if k < s.len() && s[k] != '\n' {
        lemma_comment_chars(s, k + 1);
    }
}

proof fn lemma_newlines_between_skip(s: Seq<char>, i: int, j: int, p: int)
    requires
        0 <= i <= j <= p <= s.len(),
        forall|m: int| i <= m < j ==> #[trigger] s[m] != '\n',
    ensures
        newlines_between(s, i, p) == newlines_between(s, j, p),
    decreases j - i,
{
    if i < j {
        lemma_newlines_between_skip(s, i + 1, j, p);
    }
}

proof fn lemma_lex_starts(s: Seq<char>, i: int, line: nat)
    requires
        0 <= i <= s.len(),
    ensures
        ({
            let ps = lex(s, i, line);
            let st = token_starts(s, i);
            &&& ps.len() == st.len()
            &&& forall|k: int|
                0 <= k < st.len() ==> i <= #[trigger] st[k] < s.len() && ps[k].1 == line
                    + newlines_between(s, i, st[k]) && token_begins(s[st[k]])
            &&& forall|j: int, k: int| 0 <= j < k < st.len() ==> st[j] < st[k]
        }),
    decreases s.len() - i,
{
    if i < s.len() {
        let c = s[i];
        let ps = lex(s, i, line);
        let st = token_starts(s, i);
        if c == '\n' {
            lemma_lex_starts(s, i + 1, line + 1);
        } else if c == ' ' || c == '\t' || c == '\r' {
            lemma_lex_starts(s, i + 1, line);
        } else if c == '#' {
            lemma_comment_len_bound(s, i + 1);
            lemma_comment_chars(s, i + 1);
            let j = i + 1 + comment_len(s, i + 1);
            lemma_lex_starts(s, j, line);
            assert forall|k: int| 0 <= k < st.len() implies ps[k].1 == line + newlines_between(
                s,
                i,
                #[trigger] st[k],
            ) by {
                lemma_newlines_between_skip(s, i, j, st[k]);
            }
        } else {
            let is_tok = symbol_token(c) is Some || c == '-' || is_number_char(c) || starts_word(c);
            let j: int = if symbol_token(c) is Some {
                i + 1
            } else if c == '-' {
                if i + 1 < s.len() && is_number_char(s[i + 1]) {
                    i + 1 + number_len(s, i + 1, false)
                } else {
                    i + 1
                }
            } else if is_number_char(c) {
                i + number_len(s, i, false)
            } else if starts_word(c) {
                i + 1 + word_len(s, i + 1)
            } else {
                i + 1
            };
            lemma_number_len_bound(s, i + 1, false);
            lemma_number_len_bound(s, i, false);
            lemma_word_len_bound(s, i + 1);
            lemma_number_chars(s, i + 1, false);
            lemma_number_chars(s, i, false);
            lemma_word_chars(s, i + 1);
            assert(i < j <= s.len());
            assert forall|m: int| i <= m < j implies #[trigger] s[m] != '\n' by {
                if m > i {
                    if c == '-' {
                        assert(s[m] != '\n');
                    }
                }
            }
            lemma_lex_starts(s, j, line);
            let rest = lex(s, j, line);
            let rst = token_starts(s, j);
            if is_tok {
                assert(ps == seq![ps[0]] + rest);
                assert(st == seq![i] + rst);
                assert(ps[0].1 == line);
                assert forall|k: int| 0 <= k < st.len() implies i <= #[trigger] st[k] < s.len()
                    && ps[k].1 == line + newlines_between(s, i, st[k]) && token_begins(s[st[k]]) by {
                    if k > 0 {
                        assert(st[k] == rst[k - 1]);
                        assert(ps[k] == rest[k - 1]);
                        lemma_newlines_between_skip(s, i, j, st[k]);
                    }
                }
                assert forall|a: int, b: int| 0 <= a < b < st.len() implies st[a] < st[b] by {
                    assert(st[b] == rst[b - 1]);
                    if a > 0 {
                        assert(st[a] == rst[a - 1]);
                    }
                }
            } else {
                assert(ps == rest);
                assert(st == rst);
                assert forall|k: int| 0 <= k < st.len() implies ps[k].1 == line + newlines_between(
                    s,
                    i,
                    #[trigger] st[k],
                ) by {
                    lemma_newlines_between_skip(s, i, j, st[k]);
                }
            }
        }
    }
}

/// Each token's line number is 1 plus the number of newlines before the
/// position at which the token begins; those positions hold no blank,
/// newline or comment sign, and increase from one token to the next.
pub proof fn law_token_line_numbers(s: Seq<char>)
    ensures
        lex_text(s).len() == token_starts(s, 0).len(),
        forall|k: int|
            0 <= k < lex_text(s).len() ==> (#[trigger] lex_text(s)[k]).1 == 1 + newlines_between(
                s,
                0,
                token_starts(s, 0)[k],
            ),
        forall|k: int|
            0 <= k < token_starts(s, 0).len() ==> 0 <= #[trigger] token_starts(s, 0)[k] < s.len()
                && token_begins(s[token_starts(s, 0)[k]]),
        forall|j: int, k: int|
            0 <= j < k < token_starts(s, 0).len() ==> token_starts(s, 0)[j] < token_starts(s, 0)[k],
{
    lemma_lex_starts(s, 0, 1);
}

/// The text of a number literal: digits with at most one `.`.
pub open spec fn numeral_text(x: Seq<char>) -> bool {
    &&& x.len() > 0
    &&& forall|k: int| 0 <= k < x.len() ==> is_number_char(#[trigger] x[k])
    &&& forall|j: int, k: int| 0 <= j < k < x.len() && #[trigger] x[j] == '.' ==> #[trigger] x[k] != '.'
}

/// The text of a word: a character that starts a word, then characters that
/// continue one.
pub open spec fn word_text(w: Seq<char>) -> bool {
    &&& w.len() > 0
    &&& starts_word(w[0])
    &&& forall|k: int| 1 <= k < w.len() ==> word_char(#[trigger] w[k])
}

/// What every token that lexing yields satisfies: a number keeps the text
/// of a literal, an identifier the text of a word.
pub open spec fn token_well_formed(t: SpecToken) -> bool {
    match t {
        SpecToken::Number(_, x) => numeral_text(x),
        SpecToken::Ident(w) => word_text(w),
        _ => true,
    }
}

proof fn lemma_number_text(s: Seq<char>, k: int, seen_dot: bool)
    requires
        0 <= k <= s.len(),
    ensures
        ({
            let x = s.subrange(k, k + number_len(s, k, seen_dot));
            &&& forall|m: int| 0 <= m < x.len() ==> is_number_char(#[trigger] x[m])
            &&& forall|j: int, m: int| 0 <= j < m < x.len() && #[trigger] x[j] == '.' ==> #[trigger] x[m] != '.'
            &&& seen_dot ==> forall|m: int| 0 <= m < x.len() ==> #[trigger] x[m] != '.'
            &&& k < s.len() && is_number_char(s[k]) && !(seen_dot && s[k] == '.') ==> x.len() > 0
        }),
    decreases s.len() - k,
{
    lemma_number_len_bound(s, k, seen_dot);
    if k < s.len() {
        let n = number_len(s, k, seen_dot);
        let x = s.subrange(k, k + n);
        if s[k] == '.' && !seen_dot {
            lemma_number_text(s, k + 1, true);
            lemma_number_len_bound(s, k + 1, true);
            let y = s.subrange(k + 1, k + n);
            assert forall|m: int| 0 <= m < x.len() implies is_number_char(#[trigger] x[m]) by {
                if m > 0 {
                    assert(x[m] == y[m - 1]);
                }
            }
            assert forall|j: int, m: int| 0 <= j < m < x.len() && #[trigger] x[j] == '.' implies #[trigger] x[m] != '.' by {
                assert(x[m] == y[m - 1]);
            }
        } else if is_digit(s[k]) {
            lemma_number_text(s, k + 1, seen_dot);
            lemma_number_len_bound(s, k + 1, seen_dot);
            let y = s.subrange(k + 1, k + n);
            assert forall|m: int| 0 <= m < x.len() implies is_number_char(#[trigger] x[m]) by {
                if m > 0 {
                    assert(x[m] == y[m - 1]);
                }
            }
            assert forall|j: int, m: int| 0 <= j < m < x.len() && #[trigger] x[j] == '.' implies #[trigger] x[m] != '.' by {
                assert(x[m] == y[m - 1]);
                if j > 0 {
                    assert(x[j] == y[j - 1]);
                }
            }
            assert forall|m: int| seen_dot && 0 <= m < x.len() implies #[trigger] x[m] != '.' by {
                if m > 0 {
                    assert(x[m] == y[m - 1]);
                }
            }
        }
    }
}

proof fn lemma_word_text(s: Seq<char>, k: int)
    requires
        0 <= k <= s.len(),
    ensures
        forall|m: int| k <= m < k + word_len(s, k) ==> word_char(#[trigger] s[m]),
    decreases s.len() - k,
{
    if k < s.len() && word_char(s[k]) {
        lemma_word_text(s, k + 1);
    }
}

proof fn lemma_lex_well_formed(s: Seq<char>, i: int, line: nat)
    requires
        0 <= i <= s.len(),
    ensures
        forall|k: int| 0 <= k < lex(s, i, line).len() ==> token_well_formed(#[trigger] lex(s, i, line)[k].0),
    decreases s.len() - i,
{
    if i < s.len() {
        let c = s[i];
        let ps = lex(s, i, line);
        if c == '\n' {
            lemma_lex_well_formed(s, i + 1, line + 1);
            assert(ps == lex(s, i + 1, line + 1));
        } else if c == ' ' || c == '\t' || c == '\r' {
            lemma_lex_well_formed(s, i + 1, line);
            assert(ps == lex(s, i + 1, line));
        } else if c == '#' {
            lemma_comment_len_bound(s, i + 1);
            lemma_lex_well_formed(s, i + 1 + comment_len(s, i + 1), line);
            assert(ps == lex(s, i + 1 + comment_len(s, i + 1), line));
        } else {
            let j: int = if symbol_token(c) is Some {
                i + 1
            } else if c == '-' {
                if i + 1 < s.len() && is_number_char(s[i + 1]) {
                    i + 1 + number_len(s, i + 1, false)
                } else {
                    i + 1
                }
            } else if is_number_char(c) {
                i + number_len(s, i, false)
            } else if starts_word(c) {
                i + 1 + word_len(s, i + 1)
            } else {
                i + 1
            };
            lemma_number_len_bound(s, i + 1, false);
            lemma_number_len_bound(s, i, false);
            lemma_word_len_bound(s, i + 1);
            lemma_number_text(s, i + 1, false);
            lemma_number_text(s, i, false);
            lemma_word_text(s, i + 1);
            lemma_lex_well_formed(s, j, line);
            let rest = lex(s, j, line);
            if symbol_token(c) is Some || c == '-' || is_number_char(c) || starts_word(c) {
                assert(token_well_formed(ps[0].0)) by {
                    if !(symbol_token(c) is Some) && c != '-' && !is_number_char(c) && starts_word(c) {
                        let w = s.subrange(i, j);
                        assert forall|m: int| 1 <= m < w.len() implies word_char(#[trigger] w[m]) by {
                            assert(w[m] == s[i + m]);
                        }
                    }
                }
                assert forall|k: int| 0 <= k < ps.len() implies token_well_formed(#[trigger] ps[k].0) by {
                    if k > 0 {
                        assert(ps[k] == rest[k - 1]);
                    }
                }
            } else {
                assert(ps == rest);
            }
        }
    }
}

/// Every token that lexing yields is well formed: a number keeps the text
/// of a literal (digits with at most one `.`, not empty), an identifier the
/// text of a word.
pub proof fn law_lexed_tokens_well_formed(s: Seq<char>)
    ensures
        forall|k: int| 0 <= k < lex_text(s).len() ==> token_well_formed(#[trigger] lex_text(s)[k].0),
{
    lemma_lex_well_formed(s, 0, 1);
}

/// A non-empty word of ASCII letters.
pub open spec fn ascii_word(w: Seq<char>) -> bool {
    w.len() > 0 && forall|k: int| 0 <= k < w.len() ==> is_ascii_letter(#[trigger] w[k])
}

proof fn lemma_word_len_letters(s: Seq<char>, k: int)
    requires
        0 <= k <= s.len(),
        forall|j: int| k <= j < s.len() ==> is_ascii_letter(#[trigger] s[j]),
    ensures
        word_len(s, k) == s.len() - k,
    decreases s.len() - k,
{
    if k < s.len() {
        assert(is_ascii_letter(s[k]));
        lemma_word_len_letters(s, k + 1);
    }
}

/// A text that is one ASCII word lexes to that word's token alone.
pub proof fn lemma_lex_ascii_word(w: Seq<char>)
    requires
        ascii_word(w),
    ensures
        lex_text(w) == seq![(word_token(w), 1nat)],
{
    let c = w[0];
    assert(is_ascii_letter(c));
    assert(is_ascii_char(c));
    assert(starts_word(c));
    assert(!is_number_char(c));
    assert(symbol_token(c) is None);
    lemma_word_len_letters(w, 1);
    assert(w.subrange(0, w.len() as int) =~= w);
    assert(lex(w, w.len() as int, 1) == Seq::<(SpecToken, nat)>::empty());
    assert(lex(w, 0, 1) =~= seq![(word_token(w), 1nat)] + lex(w, w.len() as int, 1));
    assert(all_ascii(w)) by {
        assert forall|k: int| 0 <= k < w.len() implies is_ascii_char(#[trigger] w[k]) by {
            assert(is_ascii_letter(w[k]));
        }
    }
}

/// Keywords are case-insensitive: two ASCII words that differ only in case
/// lex alike when they spell a keyword, and a word that spells none lexes to
/// an identifier that keeps its case.
pub proof fn law_keywords_ignore_case(w1: Seq<char>, w2: Seq<char>)
    requires
        ascii_word(w1),
        ascii_word(w2),
        ascii_lowercase(w1) == ascii_lowercase(w2),
    ensures
        keyword(ascii_lowercase(w1)) is Some ==> lex_text(w1) == lex_text(w2),
        keyword(ascii_lowercase(w1)) is Some ==> lex_text(w1) == seq![
            (keyword(ascii_lowercase(w1)).unwrap(), 1nat),
        ],
        keyword(ascii_lowercase(w1)) is None ==> lex_text(w1) == seq![
            (SpecToken::Ident(w1), 1nat),
        ],
{
    lemma_lex_ascii_word(w1);
    lemma_lex_ascii_word(w2);
    assert(all_ascii(w1)) by {
        assert forall|k: int| 0 <= k < w1.len() implies is_ascii_char(#[trigger] w1[k]) by {
            assert(is_ascii_letter(w1[k]));
        }
    }
    assert(all_ascii(w2)) by {
        assert forall|k: int| 0 <= k < w2.len() implies is_ascii_char(#[trigger] w2[k]) by {
            assert(is_ascii_letter(w2[k]));
        }
    }
}

proof fn lemma_keyword_table()
    ensures
        keyword("forward"@) == Some(SpecToken::Forward),
        keyword("fd"@) == Some(SpecToken::Forward),
        keyword("turn"@) == Some(SpecToken::Turn),
        keyword("rt"@) == Some(SpecToken::Turn),
        keyword("right"@) == Some(SpecToken::Turn),
        keyword("pen"@) == Some(SpecToken::Pen),
        keyword("color"@) == Some(SpecToken::Color),
        keyword("colour"@) == Some(SpecToken::Color),
        keyword("set"@) == Some(SpecToken::SetVar),
        keyword("print"@) == Some(SpecToken::Print),
        keyword("dotimes"@) == Some(SpecToken::DoTimes),
        keyword("repeat"@) == Some(SpecToken::DoTimes),
        keyword("to"@) == Some(SpecToken::To),
        keyword("define"@) == Some(SpecToken::To),
{
    reveal_strlit("forward");
    reveal_strlit("fd");
    reveal_strlit("turn");
    reveal_strlit("rt");
    reveal_strlit("right");
    reveal_strlit("pen");
    reveal_strlit("color");
    reveal_strlit("colour");
    reveal_strlit("set");
    reveal_strlit("print");
    reveal_strlit("dotimes");
    reveal_strlit("repeat");
    reveal_strlit("to");
    reveal_strlit("define");
    assert("fd"@.len() != "forward"@.len());
    assert("turn"@.len() != "forward"@.len());
    assert("turn"@.len() != "fd"@.len());
    assert("rt"@.len() != "forward"@.len());
    assert("rt"@[0] != "fd"@[0]);
    assert("rt"@.len() != "turn"@.len());
    assert("right"@.len() != "forward"@.len());
    assert("right"@.len() != "fd"@.len());
    assert("right"@.len() != "turn"@.len());
    assert("right"@.len() != "rt"@.len());
    assert("pen"@.len() != "forward"@.len());
    assert("pen"@.len() != "fd"@.len());
    assert("pen"@.len() != "turn"@.len());
    assert("pen"@.len() != "rt"@.len());
    assert("pen"@.len() != "right"@.len());
    assert("color"@.len() != "forward"@.len());
    assert("color"@.len() != "fd"@.len());
    assert("color"@.len() != "turn"@.len());
    assert("color"@.len() != "rt"@.len());
    assert("color"@[0] != "right"@[0]);
    assert("color"@.len() != "pen"@.len());
    assert("colour"@.len() != "forward"@.len());
    assert("colour"@.len() != "fd"@.len());
    assert("colour"@.len() != "turn"@.len());
    assert("colour"@.len() != "rt"@.len());
    assert("colour"@.len() != "right"@.len());
    assert("colour"@.len() != "pen"@.len());
    assert("colour"@.len() != "color"@.len());
    assert("set"@.len() != "forward"@.len());
    assert("set"@.len() != "fd"@.len());
    assert("set"@.len() != "turn"@.len());
    assert("set"@.len() != "rt"@.len());
    assert("set"@.len() != "right"@.len());
    assert("set"@[0] != "pen"@[0]);
    assert("set"@.len() != "color"@.len());
    assert("set"@.len() != "colour"@.len());
    assert("print"@.len() != "forward"@.len());
    assert("print"@.len() != "fd"@.len());
    assert("print"@.len() != "turn"@.len());
    assert("print"@.len() != "rt"@.len());
    assert("print"@[0] != "right"@[0]);
    assert("print"@.len() != "pen"@.len());
    assert("print"@[0] != "color"@[0]);
    assert("print"@.len() != "colour"@.len());
    assert("print"@.len() != "set"@.len());
    assert("dotimes"@[0] != "forward"@[0]);
    assert("dotimes"@.len() != "fd"@.len());
    assert("dotimes"@.len() != "turn"@.len());
    assert("dotimes"@.len() != "rt"@.len());
    assert("dotimes"@.len() != "right"@.len());
    assert("dotimes"@.len() != "pen"@.len());
    assert("dotimes"@.len() != "color"@.len());
    assert("dotimes"@.len() != "colour"@.len());
    assert("dotimes"@.len() != "set"@.len());
    assert("dotimes"@.len() != "print"@.len());
    assert("repeat"@.len() != "forward"@.len());
    assert("repeat"@.len() != "fd"@.len());
    assert("repeat"@.len() != "turn"@.len());
    assert("repeat"@.len() != "rt"@.len());
    assert("repeat"@.len() != "right"@.len());
    assert("repeat"@.len() != "pen"@.len());
    assert("repeat"@.len() != "color"@.len());
    assert("repeat"@[0] != "colour"@[0]);
    assert("repeat"@.len() != "set"@.len());
    assert("repeat"@.len() != "print"@.len());
    assert("repeat"@.len() != "dotimes"@.len());
    assert("to"@.len() != "forward"@.len());
    assert("to"@[0] != "fd"@[0]);
    assert("to"@.len() != "turn"@.len());
    assert("to"@[0] != "rt"@[0]);
    assert("to"@.len() != "right"@.len());
    assert("to"@.len() != "pen"@.len());
    assert("to"@.len() != "color"@.len());
    assert("to"@.len() != "colour"@.len());
    assert("to"@.len() != "set"@.len());
    assert("to"@.len() != "print"@.len());
    assert("to"@.len() != "dotimes"@.len());
    assert("to"@.len() != "repeat"@.len());
    assert("define"@.len() != "forward"@.len());
    assert("define"@.len() != "fd"@.len());
    assert("define"@.len() != "turn"@.len());
    assert("define"@.len() != "rt"@.len());
    assert("define"@.len() != "right"@.len());
    assert("define"@.len() != "pen"@.len());
    assert("define"@.len() != "color"@.len());
    assert("define"@[0] != "colour"@[0]);
    assert("define"@.len() != "set"@.len());
    assert("define"@.len() != "print"@.len());
    assert("define"@.len() != "dotimes"@.len());
    assert("define"@[0] != "repeat"@[0]);
    assert("define"@.len() != "to"@.len());
}

/// The keyword table, aliases included, in any case: an ASCII word whose
/// lower-cased form is a keyword or one of its aliases lexes to that
/// keyword's token alone.
pub proof fn law_keyword_aliases(w: Seq<char>)
    requires
        ascii_word(w),
    ensures
        ({
            let l = ascii_lowercase(w);
            &&& (l == "forward"@ || l == "fd"@) ==> lex_text(w) == seq![(SpecToken::Forward, 1nat)]
            &&& (l == "turn"@ || l == "rt"@ || l == "right"@) ==> lex_text(w) == seq![
                (SpecToken::Turn, 1nat),
            ]
            &&& l == "pen"@ ==> lex_text(w) == seq![(SpecToken::Pen, 1nat)]
            &&& (l == "color"@ || l == "colour"@) ==> lex_text(w) == seq![(SpecToken::Color, 1nat)]
            &&& l == "set"@ ==> lex_text(w) == seq![(SpecToken::SetVar, 1nat)]
            &&& l == "print"@ ==> lex_text(w) == seq![(SpecToken::Print, 1nat)]
            &&& (l == "dotimes"@ || l == "repeat"@) ==> lex_text(w) == seq![
                (SpecToken::DoTimes, 1nat),
            ]
            &&& (l == "to"@ || l == "define"@) ==> lex_text(w) == seq![(SpecToken::To, 1nat)]
        }),
{
    lemma_lex_ascii_word(w);
    assert(all_ascii(w)) by {
        assert forall|k: int| 0 <= k < w.len() implies is_ascii_char(#[trigger] w[k]) by {
            assert(is_ascii_letter(w[k]));
        }
    }
    lemma_keyword_table();
}

/// A comment that runs to the end of the text: `#` and no newline after it.
pub open spec fn trailing_comment(t: Seq<char>) -> bool {
    t.len() > 0 && t[0] == '#' && forall|k: int| 0 <= k < t.len() ==> #[trigger] t[k] != '\n'
}

proof fn lemma_number_len_stops(s: Seq<char>, t: Seq<char>, k: int, seen_dot: bool)
    requires
        0 <= k <= s.len(),
        trailing_comment(t),
    ensures
        number_len(s + t, k, seen_dot) == number_len(s, k, seen_dot),
    decreases s.len() - k,
{
    let st = s + t;
    if k < s.len() {
        assert(st[k] == s[k]);
        if s[k] == '.' && !seen_dot {
            lemma_number_len_stops(s, t, k + 1, true);
        } else if is_digit(s[k]) {
            lemma_number_len_stops(s, t, k + 1, seen_dot);
        }
    } else {
        assert(st[k] == t[0]);
    }
}

proof fn lemma_word_len_stops(s: Seq<char>, t: Seq<char>, k: int)
    requires
        0 <= k <= s.len(),
        trailing_comment(t),
    ensures
        word_len(s + t, k) == word_len(s, k),
    decreases s.len() - k,
{
    let st = s + t;
    if k < s.len() {
        assert(st[k] == s[k]);
        lemma_word_len_stops(s, t, k + 1);
    } else {
        assert(st[k] == t[0]);
        assert(is_ascii_char('#'));
    }
}

proof fn lemma_comment_len_to_end(s: Seq<char>, k: int)
    requires
        0 <= k <= s.len(),
        forall|j: int| k <= j < s.len() ==> #[trigger] s[j] != '\n',
    ensures
        comment_len(s, k) == s.len() - k,
    decreases s.len() - k,
{
    if k < s.len() {
        lemma_comment_len_to_end(s, k + 1);
    }
}

proof fn lemma_lex_trailing_comment(s: Seq<char>, t: Seq<char>, i: int, line: nat)
    requires
        0 <= i <= s.len(),
        trailing_comment(t),
    ensures
        lex(s + t, i, line) == lex(s, i, line),
    decreases s.len() - i,
{
    let st = s + t;
    if i == s.len() {
        assert(st[i] == '#');
        assert forall|j: int| i + 1 <= j < st.len() implies #[trigger] st[j] != '\n' by {
            assert(st[j] == t[j - s.len()]);
        }
        lemma_comment_len_to_end(st, i + 1);
        assert(lex(st, st.len() as int, line) == Seq::<(SpecToken, nat)>::empty());
    } else {
        let c = s[i];
        assert(st[i] == c);
        if c == '\n' {
            lemma_lex_trailing_comment(s, t, i + 1, line + 1);
        } else if c == ' ' || c == '\t' || c == '\r' {
            lemma_lex_trailing_comment(s, t, i + 1, line);
        } else if c == '#' {
            // the comment in `s` reaches into `t`, up to the end of both texts
            lemma_comment_len_bound(s, i + 1);
            let j = i + 1 + comment_len(s, i + 1);
            if j < s.len() {
                assert(comment_len(st, i + 1) == comment_len(s, i + 1)) by {
                    lemma_comment_prefix(s, t, i + 1);
                }
                lemma_lex_trailing_comment(s, t, j, line);
            } else {
                lemma_comment_prefix(s, t, i + 1);
                assert forall|k: int| i + 1 <= k < st.len() implies #[trigger] st[k] != '\n' by {
                    if k < s.len() {
                        assert(st[k] == s[k]);
                    } else {
                        assert(st[k] == t[k - s.len()]);
                    }
                }
                lemma_comment_len_to_end(st, i + 1);
                assert(lex(st, st.len() as int, line) == Seq::<(SpecToken, nat)>::empty());
                assert(lex(s, s.len() as int, line) == Seq::<(SpecToken, nat)>::empty());
            }
        } else if symbol_token(c) is Some {
            lemma_lex_trailing_comment(s, t, i + 1, line);
        } else if c == '-' {
            if i + 1 < s.len() {
                assert(st[i + 1] == s[i + 1]);
                if is_number_char(s[i + 1]) {
                    lemma_number_len_stops(s, t, i + 1, false);
                    lemma_number_len_bound(s, i + 1, false);
                    assert(st.subrange(i + 1, i + 1 + number_len(s, i + 1, false)) =~= s.subrange(
                        i + 1,
                        i + 1 + number_len(s, i + 1, false),
                    ));
                    lemma_lex_trailing_comment(s, t, i + 1 + number_len(s, i + 1, false), line);
                } else {
                    lemma_lex_trailing_comment(s, t, i + 1, line);
                }
            } else {
                assert(st[i + 1] == '#');
                lemma_lex_trailing_comment(s, t, i + 1, line);
            }
        } else if is_number_char(c) {
            lemma_number_len_stops(s, t, i, false);
            lemma_number_len_bound(s, i, false);
            let n = number_len(s, i, false);
            assert(st.subrange(i, i + n) =~= s.subrange(i, i + n));
            lemma_lex_trailing_comment(s, t, i + n, line);
        } else if starts_word(c) {
            lemma_word_len_stops(s, t, i + 1);
            lemma_word_len_bound(s, i + 1);
            let n = 1 + word_len(s, i + 1);
            assert(st.subrange(i, i + n) =~= s.subrange(i, i + n));
            lemma_lex_trailing_comment(s, t, i + n, line);
        } else {
            lemma_lex_trailing_comment(s, t, i + 1, line);
        }
    }
}

proof fn lemma_comment_prefix(s: Seq<char>, t: Seq<char>, k: int)
    requires
        0 <= k <= s.len(),
        trailing_comment(t),
    ensures
        k + comment_len(s, k) < s.len() ==> comment_len(s + t, k) == comment_len(s, k),
        k + comment_len(s, k) >= s.len() ==> forall|j: int|
            k <= j < s.len() ==> #[trigger] s[j] != '\n',
    decreases s.len() - k,
{
    if k < s.len() {
        assert((s + t)[k] == s[k]);
        if s[k] != '\n' {
            lemma_comment_prefix(s, t, k + 1);
        }
    }
}

/// Comments start with `#` and run to the end of the line: a text followed
/// by a comment lexes exactly as the text alone.
pub proof fn law_trailing_comment_ignored(s: Seq<char>, t: Seq<char>)
    requires
        trailing_comment(t),
    ensures
        lex_text(s + t) == lex_text(s),
{
    lemma_lex_trailing_comment(s, t, 0, 1);
}

// ── Implementation ────────────────────────────────────────────────────────────

/// Whether `k` (a lower-cased word) is the text `w`.
fn is_text(k: &String, w: &str) -> (b: bool)
    ensures
        b == (k@ == w@),
{
    let t = String::from_str(w);
    *k == t
}

/// The keyword token that the lower-cased word `lower` spells, if any.
fn keyword_of(lower: &String) -> (r: Option<Token>)
    ensures
        match keyword(lower@) {
            Some(t) => r is Some && r.unwrap()@ == t,
            None => r is None,
        },
{
    if is_text(lower, "forward") || is_text(lower, "fd") {
        Some(Token::Forward)
    } else if is_text(lower, "turn") || is_text(lower, "rt") || is_text(lower, "right") {
        Some(Token::Turn)
    } else if is_text(lower, "pen") {
        Some(Token::Pen)
    } else if is_text(lower, "color") || is_text(lower, "colour") {
        Some(Token::Color)
    } else if is_text(lower, "set") {
        Some(Token::SetVar)
    } else if is_text(lower, "print") {
        Some(Token::Print)
    } else if is_text(lower, "dotimes") || is_text(lower, "repeat") {
        Some(Token::DoTimes)
    } else if is_text(lower, "to") || is_text(lower, "define") {
        Some(Token::To)
    } else {
        None
    }
}

/// The token for the word `chars[start..end]`.
fn word_token_of(chars: &Vec<char>, start: usize, end: usize) -> (t: Token)
    requires
        start <= end <= chars@.len(),
    ensures
        t@ == word_token(chars@.subrange(start as int, end as int)),
{
    let word = string_from_chars(chars, start, end);
    let lower = to_lowercase(word.as_str());
    match keyword_of(&lower) {
        Some(t) => t,
        None => Token::Ident(word),
    }
}

/// The one-character symbol token for `c`, if `c` is one.
fn symbol_token_of(c: char) -> (r: Option<Token>)
    ensures
        match symbol_token(c) {
            Some(t) => r is Some && r.unwrap()@ == t,
            None => r is None,
        },
{
    if c == '{' {
        Some(Token::LBrace)
    } else if c == '}' {
        Some(Token::RBrace)
    } else if c == '(' {
        Some(Token::LParen)
    } else if c == ')' {
        Some(Token::RParen)
    } else if c == '+' {
        Some(Token::Plus)
    } else if c == '*' {
        Some(Token::Star)
    } else if c == '/' {
        Some(Token::Slash)
    } else {
        None
    }
}

/// The length of the number literal that starts at `start`.
fn number_length(chars: &Vec<char>, start: usize) -> (n: usize)
    requires
        start <= chars@.len(),
    ensures
        n == number_len(chars@, start as int, false),
        start + n <= chars@.len(),
{
    let mut seen_dot = false;
    let mut j = start;
    while j < chars.len()
        invariant_except_break
            start <= j <= chars@.len(),
            number_len(chars@, start as int, false) == (j - start) + number_len(
                chars@,
                j as int,
                seen_dot,
            ),
        ensures
            start <= j <= chars@.len(),
            number_len(chars@, start as int, false) == j - start,
        decreases chars@.len() - j,
    {
        let c = chars[j];
        if c == '.' && !seen_dot {
            seen_dot = true;
            j += 1;
        } else if '0' <= c && c <= '9' {
            j += 1;
        } else {
            break;
        }
    }
    j - start
}

/// The number of word characters (alphanumeric or `_`) from `start` on.
fn word_length(chars: &Vec<char>, start: usize) -> (n: usize)
    requires
        start <= chars@.len(),
    ensures
        n == word_len(chars@, start as int),
        start + n <= chars@.len(),
{
    let mut j = start;
    while j < chars.len()
        invariant_except_break
            start <= j <= chars@.len(),
            word_len(chars@, start as int) == (j - start) + word_len(chars@, j as int),
        ensures
            start <= j <= chars@.len(),
            word_len(chars@, start as int) == j - start,
        decreases chars@.len() - j,
    {
        let c = chars[j];
        if char_is_alphanumeric(c) || c == '_' {
            j += 1;
        } else {
            break;
        }
    }
    j - start
}

/// The number of characters from `start` on that come before the next newline.
fn comment_length(chars: &Vec<char>, start: usize) -> (n: usize)
    requires
        start <= chars@.len(),
    ensures
        n == comment_len(chars@, start as int),
        start + n <= chars@.len(),
{
    let mut j = start;
    while j < chars.len() && chars[j] != '\n'
        invariant
            start <= j <= chars@.len(),
            comment_len(chars@, start as int) == (j - start) + comment_len(chars@, j as int),
        decreases chars@.len() - j,
    {
        j += 1;
    }
    j - start
}

/// Tokenize `input` into a `TokenStream`.
pub fn tokenize(input: &str) -> (ts: TokenStream)
    requires
        input@.len() < usize::MAX,
    ensures
        ts.wf(),
        ts.pairs() == lex_text(input@),
{
    let chars = chars_of(input);
    let mut tokens: Vec<Token> = Vec::new();
    let mut lines_vec: Vec<usize> = Vec::new();
    let mut i: usize = 0;
    let mut line: usize = 1;

    while i < chars.len()
        invariant
            chars@ == input@,
            chars@.len() < usize::MAX,
            i <= chars@.len(),
            1 <= line <= i + 1,
            tokens@.len() == lines_vec@.len(),
            pairs_of(tokens@, lines_vec@) + lex(chars@, i as int, line as nat) == lex_text(
                input@,
            ),
        decreases chars@.len() - i,
    {
        let ghost s = chars@;
        let ghost old_pairs = pairs_of(tokens@, lines_vec@);
        let tok_line = line;
        let c = chars[i];
        let mut emitted: Option<Token> = None;

        if c == '\n' {
            line += 1;
            i += 1;
        } else if c == ' ' || c == '\t' || c == '\r' {
            i += 1;
        } else if c == '#' {
            let n = comment_length(&chars, i + 1);
            i = i + 1 + n;
        } else if let Some(t) = symbol_token_of(c) {
            emitted = Some(t);
            i += 1;
        } else if c == '-' {
            if i + 1 < chars.len() && (('0' <= chars[i + 1] && chars[i + 1] <= '9') || chars[i
                + 1] == '.') {
                let n = number_length(&chars, i + 1);
                let text = string_from_chars(&chars, i + 1, i + 1 + n);
                emitted = Some(Token::Number(Numeral { negative: true, text }));
                i = i + 1 + n;
            } else {
                emitted = Some(Token::Minus);
                i += 1;
            }
        } else if ('0' <= c && c <= '9') || c == '.' {
            let n = number_length(&chars, i);
            let text = string_from_chars(&chars, i, i + n);
            emitted = Some(Token::Number(Numeral { negative: false, text }));
            i = i + n;
        } else if char_is_alphabetic(c) || c == '_' {
            let rest = word_length(&chars, i + 1);
            let end = i + 1 + rest;
            emitted = Some(word_token_of(&chars, i, end));
            i = end;
        } else {
            i += 1;
        }

        match emitted {
            Some(t) => {
                let ghost tv = t@;
                tokens.push(t);
                lines_vec.push(tok_line);
                assert(pairs_of(tokens@, lines_vec@) =~= old_pairs + seq![(tv, tok_line as nat)]);
            },
            None => {},
        }
    }

    TokenStream { tokens, lines: lines_vec }
}

} // verus!
