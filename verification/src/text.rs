//! Characters and strings: the few facts of std's Unicode tables that the
//! lexer relies on, and conversions between `String` and `Vec<char>`.
use vstd::prelude::*;

verus! {

pub open spec fn is_ascii_letter(c: char) -> bool {
    ('a' <= c && c <= 'z') || ('A' <= c && c <= 'Z')
}

pub open spec fn is_ascii_char(c: char) -> bool {
    (c as u32) < 128
}

pub open spec fn all_ascii(s: Seq<char>) -> bool {
    forall|k: int| 0 <= k < s.len() ==> is_ascii_char(#[trigger] s[k])
}

/// ASCII lower-casing of one character.
pub open spec fn ascii_lower(c: char) -> char {
    if 'A' <= c && c <= 'Z' {
        ((c as u32) + 32) as char
    } else {
        c
    }
}

/// ASCII lower-casing of a text.
pub open spec fn ascii_lowercase(s: Seq<char>) -> Seq<char> {
    s.map_values(|c: char| ascii_lower(c))
}

/// Whether `char::is_alphabetic` holds of `c` (the Unicode `Alphabetic` property).
pub uninterp spec fn is_alphabetic_char(c: char) -> bool;

/// Whether `char::is_alphanumeric` holds of `c` (`Alphabetic` or `Numeric`).
pub uninterp spec fn is_alphanumeric_char(c: char) -> bool;

/// What `str::to_lowercase` gives for the text `s`.
pub uninterp spec fn lowercase(s: Seq<char>) -> Seq<char>;

/// `char::is_alphabetic`.  Claimed: the result is the Unicode `Alphabetic`
/// property of `c`, which on ASCII characters holds of the letters alone.
#[verifier::external_body]
pub(crate) fn char_is_alphabetic(c: char) -> (r: bool)
    ensures
        r == is_alphabetic_char(c),
        is_ascii_char(c) ==> (r <==> is_ascii_letter(c)),
{
    c.is_alphabetic()
}

/// `char::is_alphanumeric`.  Claimed: the result holds of every alphabetic
/// character (std documents it as `is_alphabetic() || is_numeric()`), and on
/// ASCII characters it holds of the letters and digits alone.
#[verifier::external_body]
pub(crate) fn char_is_alphanumeric(c: char) -> (r: bool)
    ensures
        r == is_alphanumeric_char(c),
        is_alphabetic_char(c) ==> r,
        is_ascii_char(c) ==> (r <==> (is_ascii_letter(c) || ('0' <= c && c <= '9'))),
{
    c.is_alphanumeric()
}

/// `str::to_lowercase`.  Claimed: the result is named by `lowercase`; on an
/// all-ASCII text it is the ASCII lower-casing, character for character.
#[verifier::external_body]
pub(crate) fn to_lowercase(s: &str) -> (r: String)
    ensures
        r@ == lowercase(s@),
        all_ascii(s@) ==> r@ == ascii_lowercase(s@),
{
    s.to_lowercase()
}

/// Collects `chars[start..end]` into a `String` (`FromIterator<&char>`).
#[verifier::external_body]
pub(crate) fn string_from_chars(chars: &Vec<char>, start: usize, end: usize) -> (r: String)
    requires
        start <= end <= chars@.len(),
    ensures
        r@ == chars@.subrange(start as int, end as int),
{
    chars[start..end].iter().collect()
}

/// What `char::escape_debug` yields for `c`, as a text.
pub uninterp spec fn debug_escaped(c: char) -> Seq<char>;

/// `char::escape_debug`, collected into a `String`.  Claimed: the result is
/// named by `debug_escaped`; nothing more is stated of it.
#[verifier::external_body]
pub(crate) fn char_escape_debug(c: char) -> (r: String)
    ensures
        r@ == debug_escaped(c),
{
    c.escape_debug().collect()
}

/// The characters of `s`, in order.
pub fn chars_of(s: &str) -> (v: Vec<char>)
    ensures
        v@ == s@,
{
    let mut v: Vec<char> = Vec::new();
    for c in it: s.chars()
        invariant
            v@ == it.seq().take(it.index() as int),
    {
        v.push(c);
    }
    v
}

} // verus!
