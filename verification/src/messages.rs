//! The text of parse errors: `Line <n>: <what was expected><what was found>`.
use vstd::prelude::*;
use crate::lexer::{SpecToken, Token};
use crate::parser::{line_at, option_token_model, ErrorKind, ParseError, SpecError};
use crate::text::{char_escape_debug, chars_of, debug_escaped, string_from_chars};

verus! {

/// The text of one decimal digit.
pub open spec fn digit_text(d: nat) -> Seq<char> {
    if d == 0 {
        "0"@
    } else if d == 1 {
        "1"@
    } else if d == 2 {
        "2"@
    } else if d == 3 {
        "3"@
    } else if d == 4 {
        "4"@
    } else if d == 5 {
        "5"@
    } else if d == 6 {
        "6"@
    } else if d == 7 {
        "7"@
    } else if d == 8 {
        "8"@
    } else {
        "9"@
    }
}

/// The decimal text of `n`.
pub open spec fn decimal(n: nat) -> Seq<char>
    decreases n,
{
    if n < 10 {
        digit_text(n)
    } else {
        decimal(n / 10) + digit_text(n % 10)
    }
}

/// What the message says was expected.
pub open spec fn kind_text(k: ErrorKind) -> Seq<char> {
    match k {
        ErrorKind::ExpectedVariableName => "Expected variable name after 'set', got "@,
        ErrorKind::ExpectedProcedureName => "Expected procedure name after 'to', got "@,
        ErrorKind::UnexpectedToken => "Unexpected token: "@,
        ErrorKind::ExpectedOpenBrace => "Expected '{' to open block, got "@,
        ErrorKind::ExpectedCloseBrace => "Expected '}' to close block, got "@,
        ErrorKind::ExpectedCloseParen => "Expected ')' to close expression, got "@,
        ErrorKind::ExpectedExpression => "Expected expression (number / variable / '('), got "@,
        ErrorKind::ExpectedOperator => "Expected operator (+,-,*,/), got "@,
    }
}

/// The position of the first `.` in `t` at or after `k`, or the length of `t`.
pub open spec fn dot_from(t: Seq<char>, k: int) -> int
    decreases t.len() - k,
{
    if k < 0 || k >= t.len() {
        t.len() as int
    } else if t[k] == '.' {
        k
    } else {
        dot_from(t, k + 1)
    }
}

/// `s` without its leading `0`s.
pub open spec fn strip_leading_zeros(s: Seq<char>) -> Seq<char>
    decreases s.len(),
{
    if s.len() > 0 && s[0] == '0' {
        strip_leading_zeros(s.drop_first())
    } else {
        s
    }
}

/// `s` without its trailing `0`s.
pub open spec fn strip_trailing_zeros(s: Seq<char>) -> Seq<char>
    decreases s.len(),
{
    if s.len() > 0 && s.last() == '0' {
        strip_trailing_zeros(s.drop_last())
    } else {
        s
    }
}

/// `s`, or `0` if `s` is empty.
pub open spec fn or_zero(s: Seq<char>) -> Seq<char> {
    if s.len() == 0 {
        "0"@
    } else {
        s
    }
}

/// The digits of a literal's text before its `.`.
pub open spec fn whole_part(text: Seq<char>) -> Seq<char> {
    text.subrange(0, dot_from(text, 0))
}

/// The digits of a literal's text after its `.` (none without one).
pub open spec fn fraction_part(text: Seq<char>) -> Seq<char> {
    let d = dot_from(text, 0);
    if d < text.len() {
        text.subrange(d + 1, text.len() as int)
    } else {
        Seq::empty()
    }
}

/// The significant digits of a literal: its digits without leading or
/// trailing zeros (none for zero).
pub open spec fn significant_digits(text: Seq<char>) -> Seq<char> {
    strip_trailing_zeros(strip_leading_zeros(whole_part(text) + fraction_part(text)))
}

/// The power of ten of a literal's first significant digit.
pub open spec fn leading_power(text: Seq<char>) -> int {
    let digits = whole_part(text) + fraction_part(text);
    whole_part(text).len() - 1 - (digits.len() - strip_leading_zeros(digits).len())
}

/// Whether a message shows the literal in exponent form: a value other than
/// zero whose first significant digit stands for less than `1e-4` or at
/// least `1e16`.
pub open spec fn exponent_form(text: Seq<char>) -> bool {
    significant_digits(text).len() > 0 && (leading_power(text) < -4 || leading_power(text) >= 16)
}

/// `d.ddd…` of the significant digits `sig` (no `.` for a single digit).
pub open spec fn mantissa_text(sig: Seq<char>) -> Seq<char> {
    if sig.len() > 1 {
        seq![sig[0]] + "."@ + sig.drop_first()
    } else {
        sig
    }
}

/// `e` and the power of ten, with `-` when negative.
pub open spec fn power_text(p: int) -> Seq<char> {
    if p < 0 {
        "e-"@ + decimal((-p) as nat)
    } else {
        "e"@ + decimal(p as nat)
    }
}

/// How a message shows a number literal, as `{:?}` shows the value: its sign;
/// then, in exponent form, the significant digits and the power of ten, as
/// in `1e-5` or `1.25e16`; else the whole part and the fraction with their
/// redundant zeros removed, as in `-7.5`, `42.0` or `0.25`.
///
/// This is the literal's own digits, not a rounded float: it agrees with
/// `{:?}` of the parsed `f64` for literals of at most 15 significant digits
/// within the range of normal `f64` values.  Beyond that `{:?}` shows the
/// float's shortest round-trip form, which may differ: for
/// `12345678901234567` it shows `1.2345678901234568e16` where this text is
/// `1.2345678901234567e16`; out of range it shows `inf` or `0.0`.
pub open spec fn number_text(negative: bool, text: Seq<char>) -> Seq<char> {
    let whole = whole_part(text);
    let fraction = fraction_part(text);
    (if negative {
        "-"@
    } else {
        ""@
    }) + if exponent_form(text) {
        mantissa_text(significant_digits(text)) + power_text(leading_power(text))
    } else {
        or_zero(strip_leading_zeros(whole)) + "."@ + or_zero(strip_trailing_zeros(fraction))
    }
}

/// A text as `{:?}` writes the inside of a string: each character as
/// `char::escape_debug` gives it.  (The two differ only on `'`, which no
/// identifier holds.)
pub open spec fn escaped_text(s: Seq<char>) -> Seq<char>
    decreases s.len(),
{
    if s.len() == 0 {
        Seq::empty()
    } else {
        escaped_text(s.drop_last()) + debug_escaped(s.last())
    }
}

/// How a message shows a token: its variant, and a number's literal text or
/// an identifier's escaped name.
pub open spec fn token_text(t: SpecToken) -> Seq<char> {
    match t {
        SpecToken::Forward => "Forward"@,
        SpecToken::Turn => "Turn"@,
        SpecToken::Pen => "Pen"@,
        SpecToken::Color => "Color"@,
        SpecToken::SetVar => "Set"@,
        SpecToken::Print => "Print"@,
        SpecToken::DoTimes => "DoTimes"@,
        SpecToken::To => "To"@,
        SpecToken::LBrace => "LBrace"@,
        SpecToken::RBrace => "RBrace"@,
        SpecToken::LParen => "LParen"@,
        SpecToken::RParen => "RParen"@,
        SpecToken::Plus => "Plus"@,
        SpecToken::Minus => "Minus"@,
        SpecToken::Star => "Star"@,
        SpecToken::Slash => "Slash"@,
        SpecToken::Number(neg, text) => "Number("@ + number_text(neg, text) + ")"@,
        SpecToken::Ident(name) => "Ident(\""@ + escaped_text(name) + "\")"@,
    }
}

/// How a message shows the token that was found, or its absence.
pub open spec fn found_text(t: Option<SpecToken>) -> Seq<char> {
    match t {
        Some(t) => "Some("@ + token_text(t) + ")"@,
        None => "None"@,
    }
}

/// `Line <line>: <what was expected><what was found>`.
pub open spec fn message_text(line: nat, kind: ErrorKind, found: Option<SpecToken>) -> Seq<char> {
    "Line "@ + decimal(line) + ": "@ + kind_text(kind) + found_text(found)
}

/// The message for the error `e`, given the tokens' line numbers.
pub open spec fn error_text(lines: Seq<usize>, e: SpecError) -> Seq<char> {
    message_text(line_at(lines, e.pos), e.kind, e.found)
}

fn digit_str(d: usize) -> (s: &'static str)
    requires
        d < 10,
    ensures
        s@ == digit_text(d as nat),
{
    if d == 0 {
        "0"
    } else if d == 1 {
        "1"
    } else if d == 2 {
        "2"
    } else if d == 3 {
        "3"
    } else if d == 4 {
        "4"
    } else if d == 5 {
        "5"
    } else if d == 6 {
        "6"
    } else if d == 7 {
        "7"
    } else if d == 8 {
        "8"
    } else {
        "9"
    }
}

fn append_decimal(out: &mut String, n: usize)
    ensures
        final(out)@ == old(out)@ + decimal(n as nat),
    decreases n,
{
    if n < 10 {
        out.append(digit_str(n));
    } else {
        append_decimal(out, n / 10);
        out.append(digit_str(n % 10));
        assert(final(out)@ =~= old(out)@ + decimal(n as nat));
    }
}

fn kind_str(k: ErrorKind) -> (s: &'static str)
    ensures
        s@ == kind_text(k),
{
    match k {
        ErrorKind::ExpectedVariableName => "Expected variable name after 'set', got ",
        ErrorKind::ExpectedProcedureName => "Expected procedure name after 'to', got ",
        ErrorKind::UnexpectedToken => "Unexpected token: ",
        ErrorKind::ExpectedOpenBrace => "Expected '{' to open block, got ",
        ErrorKind::ExpectedCloseBrace => "Expected '}' to close block, got ",
        ErrorKind::ExpectedCloseParen => "Expected ')' to close expression, got ",
        ErrorKind::ExpectedExpression => "Expected expression (number / variable / '('), got ",
        ErrorKind::ExpectedOperator => "Expected operator (+,-,*,/), got ",
    }
}

proof fn lemma_strip_leading(s: Seq<char>, k: int)
    requires
        0 <= k <= s.len(),
        forall|j: int| 0 <= j < k ==> s[j] == '0',
    ensures
        strip_leading_zeros(s) == strip_leading_zeros(s.subrange(k, s.len() as int)),
    decreases k,
{
    if k > 0 {
        assert(s.drop_first().subrange(k - 1, s.drop_first().len() as int) =~= s.subrange(
            k,
            s.len() as int,
        ));
        lemma_strip_leading(s.drop_first(), k - 1);
    } else {
        assert(s.subrange(0, s.len() as int) =~= s);
    }
}

proof fn lemma_strip_trailing(s: Seq<char>, k: int)
    requires
        0 <= k <= s.len(),
        forall|j: int| k <= j < s.len() ==> s[j] == '0',
    ensures
        strip_trailing_zeros(s) == strip_trailing_zeros(s.subrange(0, k)),
    decreases s.len() - k,
{
    if k < s.len() {
        assert(s.drop_last().subrange(0, k) =~= s.subrange(0, k));
        lemma_strip_trailing(s.drop_last(), k);
    } else {
        assert(s.subrange(0, k) =~= s);
    }
}

/// Append the characters `v[start..end]`.
fn append_range(out: &mut String, v: &Vec<char>, start: usize, end: usize)
    requires
        start <= end <= v@.len(),
    ensures
        final(out)@ == old(out)@ + v@.subrange(start as int, end as int),
{
    let piece = string_from_chars(v, start, end);
    out.append(piece.as_str());
}

/// In exponent form, append the significant digits and the power of ten of
/// the literal `t`, whose `.` stands at `d` (or `d` is its length), and say so.
fn append_exponent_form(out: &mut String, t: &Vec<char>, d: usize, frac_start: usize) -> (done: bool)
    requires
        d == dot_from(t@, 0),
        d <= t@.len(),
        frac_start == (if d < t@.len() {
            d + 1
        } else {
            d as int
        }),
    ensures
        done == exponent_form(t@),
        done ==> final(out)@ == old(out)@ + mantissa_text(significant_digits(t@)) + power_text(
            leading_power(t@),
        ),
        !done ==> final(out)@ == old(out)@,
{
    let ghost ts = t@;
    let mut digits: Vec<char> = Vec::new();
    let mut i: usize = 0;
    while i < d
        invariant
            i <= d <= ts.len(),
            t@ == ts,
            digits@ == ts.subrange(0, i as int),
        decreases d - i,
    {
        digits.push(t[i]);
        i += 1;
        assert(digits@ =~= ts.subrange(0, i as int));
    }
    let mut j: usize = frac_start;
    while j < t.len()
        invariant
            frac_start <= j <= ts.len(),
            d <= frac_start,
            t@ == ts,
            digits@ == ts.subrange(0, d as int) + ts.subrange(frac_start as int, j as int),
        decreases ts.len() - j,
    {
        digits.push(t[j]);
        j += 1;
        assert(digits@ =~= ts.subrange(0, d as int) + ts.subrange(frac_start as int, j as int));
    }
    let ghost all = digits@;
    proof {
        assert(whole_part(ts) == ts.subrange(0, d as int));
        assert(fraction_part(ts) =~= ts.subrange(frac_start as int, ts.len() as int));
        assert(all == whole_part(ts) + fraction_part(ts));
    }
    let mut a: usize = 0;
    while a < digits.len() && digits[a] == '0'
        invariant
            a <= all.len(),
            digits@ == all,
            forall|k: int| 0 <= k < a ==> all[k] == '0',
        decreases all.len() - a,
    {
        a += 1;
    }
    let mut b: usize = digits.len();
    while b > a && digits[b - 1] == '0'
        invariant
            a <= b <= all.len(),
            digits@ == all,
            forall|k: int| b <= k < all.len() ==> all[k] == '0',
        decreases b - a,
    {
        b -= 1;
    }
    let ghost lead = all.subrange(a as int, all.len() as int);
    proof {
        lemma_strip_leading(all, a as int);
        if a < all.len() {
            assert(lead[0] != '0');
        }
        assert(strip_leading_zeros(lead) == lead);
        lemma_strip_trailing(lead, b - a);
        assert(lead.subrange(0, b - a) =~= all.subrange(a as int, b as int));
        if b > a {
            assert(all.subrange(a as int, b as int).last() != '0');
        }
        assert(strip_trailing_zeros(all.subrange(a as int, b as int)) == all.subrange(a as int, b as int));
        assert(significant_digits(ts) == all.subrange(a as int, b as int));
        assert(leading_power(ts) == d - 1 - a);
    }
    if a < b && ((a > 3 && a - 3 > d) || (d >= 17 && d - 17 >= a)) {
        let ghost sig = all.subrange(a as int, b as int);
        let ghost before = out@;
        append_range(out, &digits, a, a + 1);
        if b - a > 1 {
            out.append(".");
            append_range(out, &digits, a + 1, b);
            assert(out@ =~= before + mantissa_text(sig));
        } else {
            assert(out@ =~= before + mantissa_text(sig));
        }
        let ghost mid = out@;
        if a + 1 > d {
            out.append("e-");
            append_decimal(out, a + 1 - d);
        } else {
            out.append("e");
            append_decimal(out, d - 1 - a);
        }
        assert(out@ =~= mid + power_text(leading_power(ts)));
        true
    } else {
        false
    }
}

/// Append how a message shows a number literal.
fn append_number(out: &mut String, negative: bool, text: &String)
    ensures
        final(out)@ == old(out)@ + number_text(negative, text@),
{
    let t = chars_of(text.as_str());
    let ghost ts = t@;
    let mut d: usize = 0;
    while d < t.len() && t[d] != '.'
        invariant
            d <= ts.len(),
            t@ == ts,
            dot_from(ts, 0) == dot_from(ts, d as int),
        decreases ts.len() - d,
    {
        d += 1;
    }
    let mut a: usize = 0;
    while a < d && t[a] == '0'
        invariant
            a <= d <= ts.len(),
            t@ == ts,
            forall|j: int| 0 <= j < a ==> ts[j] == '0',
        decreases d - a,
    {
        a += 1;
    }
    let frac_start = if d < t.len() {
        d + 1
    } else {
        d
    };
    if negative {
        out.append("-");
    } else {
        out.append("");
    }
    if append_exponent_form(out, &t, d, frac_start) {
        assert(final(out)@ =~= old(out)@ + number_text(negative, text@));
        return;
    }
    let mut b: usize = t.len();
    while b > frac_start && t[b - 1] == '0'
        invariant
            frac_start <= b <= ts.len(),
            t@ == ts,
            forall|j: int| b <= j < ts.len() ==> ts[j] == '0',
        decreases b - frac_start,
    {
        b -= 1;
    }
    let ghost whole = ts.subrange(0, d as int);
    let ghost fraction = if d < ts.len() {
        ts.subrange(d + 1, ts.len() as int)
    } else {
        Seq::empty()
    };
    proof {
        lemma_strip_leading(whole, a as int);
        assert(whole.subrange(a as int, whole.len() as int) =~= ts.subrange(a as int, d as int));
        if a < d {
            assert(ts.subrange(a as int, d as int)[0] != '0');
        }
        assert(strip_leading_zeros(ts.subrange(a as int, d as int)) == ts.subrange(a as int, d as int));
        lemma_strip_trailing(fraction, b - frac_start);
        assert(fraction.subrange(0, b - frac_start) =~= ts.subrange(frac_start as int, b as int));
        if b > frac_start {
            assert(ts.subrange(frac_start as int, b as int).last() != '0');
        }
        assert(strip_trailing_zeros(ts.subrange(frac_start as int, b as int)) == ts.subrange(
            frac_start as int,
            b as int,
        ));
    }
    if a < d {
        append_range(out, &t, a, d);
    } else {
        out.append("0");
    }
    out.append(".");
    if frac_start < b {
        append_range(out, &t, frac_start, b);
    } else {
        out.append("0");
    }
    assert(final(out)@ =~= old(out)@ + number_text(negative, text@));
}

/// Append the escaped form of `name`.
fn append_escaped(out: &mut String, name: &String)
    ensures
        final(out)@ == old(out)@ + escaped_text(name@),
{
    let cs = chars_of(name.as_str());
    let ghost start = out@;
    let mut i: usize = 0;
    while i < cs.len()
        invariant
            i <= cs@.len(),
            cs@ == name@,
            out@ == start + escaped_text(cs@.take(i as int)),
        decreases cs@.len() - i,
    {
        let e = char_escape_debug(cs[i]);
        out.append(e.as_str());
        proof {
            assert(cs@.take(i + 1).drop_last() =~= cs@.take(i as int));
        }
        i += 1;
    }
    assert(cs@.take(cs@.len() as int) =~= cs@);
}

fn append_token(out: &mut String, t: &Token)
    ensures
        final(out)@ == old(out)@ + token_text(t@),
{
    match t {
        Token::Forward => out.append("Forward"),
        Token::Turn => out.append("Turn"),
        Token::Pen => out.append("Pen"),
        Token::Color => out.append("Color"),
        Token::SetVar => out.append("Set"),
        Token::Print => out.append("Print"),
        Token::DoTimes => out.append("DoTimes"),
        Token::To => out.append("To"),
        Token::LBrace => out.append("LBrace"),
        Token::RBrace => out.append("RBrace"),
        Token::LParen => out.append("LParen"),
        Token::RParen => out.append("RParen"),
        Token::Plus => out.append("Plus"),
        Token::Minus => out.append("Minus"),
        Token::Star => out.append("Star"),
        Token::Slash => out.append("Slash"),
        Token::Number(n) => {
            out.append("Number(");
            append_number(out, n.negative, &n.text);
            out.append(")");
            assert(final(out)@ =~= old(out)@ + token_text(t@));
        },
        Token::Ident(name) => {
            out.append("Ident(\"");
            append_escaped(out, name);
            out.append("\")");
            assert(final(out)@ =~= old(out)@ + token_text(t@));
        },
    }
}

impl ParseError {
    /// The error as text: `Line <n>: <what was expected><what was found>`.
    pub fn message(&self) -> (m: String)
        ensures
            m@ == message_text(self.line as nat, self.kind, option_token_model(self.found)),
    {
        let mut m = String::new();
        m.append("Line ");
        append_decimal(&mut m, self.line);
        m.append(": ");
        m.append(kind_str(self.kind));
        match &self.found {
            Some(t) => {
                m.append("Some(");
                append_token(&mut m, t);
                m.append(")");
            },
            None => {
                m.append("None");
            },
        }
        assert(m@ =~= message_text(self.line as nat, self.kind, option_token_model(self.found)));
        m
    }
}

} // verus!
