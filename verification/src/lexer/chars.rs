//! Character classes and small text helpers used by the lexer.

use vstd::prelude::*;

verus! {

/// What `char::is_numeric` answers for a character outside ASCII (general categories
/// `Nd`, `Nl`, `No`).
pub uninterp spec fn non_ascii_numeric(c: char) -> bool;

/// What `char::is_alphanumeric` answers for a character outside ASCII (alphabetic or
/// numeric).
pub uninterp spec fn non_ascii_alphanumeric(c: char) -> bool;

/// An ASCII character.
pub open spec fn is_ascii_char(c: char) -> bool {
    (c as u32) < 128
}

/// What `char::is_whitespace` answers: the characters with the Unicode `White_Space`
/// property. Among ASCII characters these are the space and the characters from tab
/// to carriage return.
pub open spec fn is_whitespace(c: char) -> bool {
    ||| c == ' '
    ||| ('\t' <= c && c <= '\r')
    ||| c == '\u{85}'
    ||| c == '\u{a0}'
    ||| c == '\u{1680}'
    ||| ('\u{2000}' <= c && c <= '\u{200a}')
    ||| c == '\u{2028}'
    ||| c == '\u{2029}'
    ||| c == '\u{202f}'
    ||| c == '\u{205f}'
    ||| c == '\u{3000}'
}

/// What `char::is_numeric` answers: among ASCII characters, the digits.
pub open spec fn is_numeric(c: char) -> bool {
    if is_ascii_char(c) {
        '0' <= c && c <= '9'
    } else {
        non_ascii_numeric(c)
    }
}

/// What `char::is_alphanumeric` answers: among ASCII characters, the letters and the
/// digits.
pub open spec fn is_alphanumeric(c: char) -> bool {
    if is_ascii_char(c) {
        ('0' <= c && c <= '9') || ('a' <= c && c <= 'z') || ('A' <= c && c <= 'Z')
    } else {
        non_ascii_alphanumeric(c)
    }
}

/// Whether `c` is whitespace, as `char::is_whitespace` answers it.
pub(crate) fn char_is_whitespace(c: char) -> (r: bool)
    ensures
        r == is_whitespace(c),
{
    c == ' ' || ('\t' <= c && c <= '\r') || c == '\u{85}' || c == '\u{a0}' || c == '\u{1680}'
        || ('\u{2000}' <= c && c <= '\u{200a}') || c == '\u{2028}' || c == '\u{2029}'
        || c == '\u{202f}' || c == '\u{205f}' || c == '\u{3000}'
}

/// Calls `char::is_numeric`. For ASCII its result is as the documentation gives it;
/// outside ASCII it is named `non_ascii_numeric(c)`, and nothing more is claimed of
/// the Unicode table behind it.
#[verifier::external_body]
pub(crate) fn char_is_numeric(c: char) -> (r: bool)
    ensures
        r == is_numeric(c),
        !is_ascii_char(c) ==> r == non_ascii_numeric(c),
{
    c.is_numeric()
}

/// Calls `char::is_alphanumeric`. For ASCII its result is as the documentation gives
/// it; outside ASCII it is named `non_ascii_alphanumeric(c)`, and nothing more is
/// claimed of the Unicode tables behind it.
#[verifier::external_body]
pub(crate) fn char_is_alphanumeric(c: char) -> (r: bool)
    ensures
        r == is_alphanumeric(c),
        !is_ascii_char(c) ==> r == non_ascii_alphanumeric(c),
{
    c.is_alphanumeric()
}

/// Builds a `String` from its characters by `FromIterator<char>`: the string holds
/// exactly those characters, in order.
#[verifier::external_body]
pub(crate) fn string_from_chars(chars: &[char]) -> (s: String)
    ensures
        s@ == chars@,
{
    chars.iter().collect()
}

/// Identifiers are made of alphanumeric characters and underscores.
pub open spec fn is_identifier_char(c: char) -> bool {
    is_alphanumeric(c) || c == '_'
}

/// Return whether the given character is allowed inside an identifier.
///
/// Identifiers can contain alphanumeric characters and underscores `_`.
pub fn valid_identifier_char(c: char) -> (r: bool)
    ensures
        r == is_identifier_char(c),
{
    char_is_alphanumeric(c) || c == '_'
}

/// The characters of a string, in order.
pub fn chars_of(s: &str) -> (v: Vec<char>)
    ensures
        v@ == s@,
{
    broadcast use vstd::string::group_string_axioms;

    let mut v: Vec<char> = Vec::new();
    for c in it: s.chars()
        invariant
            v@ == it.seq().take(it.index() as int),
            it.seq() == s@,
    {
        v.push(c);
    }
    v
}

/// Get all prefixes for a given string, excluding the empty prefix `""` and including
/// the entire string itself, shortest first.
pub fn string_prefixes(s: &String) -> (r: Vec<String>)
    ensures
        r@.len() == s@.len(),
        forall|i: int| 0 <= i < r@.len() ==> #[trigger] r@[i]@ == s@.take(i + 1),
{
    let chars = chars_of(s.as_str());
    let mut prefix: Vec<char> = Vec::new();
    let mut r: Vec<String> = Vec::new();
    let mut i: usize = 0;
    while i < chars.len()
        invariant
            i <= chars@.len(),
            chars@ == s@,
            prefix@ == s@.take(i as int),
            r@.len() == i,
            forall|k: int| 0 <= k < i ==> #[trigger] r@[k]@ == s@.take(k + 1),
        decreases chars@.len() - i,
    {
        prefix.push(chars[i]);
        assert(prefix@ == s@.take(i + 1));
        let p = string_from_chars(prefix.as_slice());
        r.push(p);
        i = i + 1;
    }
    r
}

} // verus!
