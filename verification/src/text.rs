//! Character-sequence utilities shared by the number printer and the lexer.
use vstd::prelude::*;

verus! {

/// Append one character to a string.
///
/// Trusted: calls `String::push`, which appends the character at the end.
#[verifier::external_body]
pub(crate) fn push_char(s: &mut String, c: char)
    ensures
        final(s)@ == old(s)@.push(c),
{
    s.push(c);
}

/// Are two strings the same sequence of characters?
///
/// Trusted: calls `<str as PartialEq>::eq`, which compares the contents.
#[verifier::external_body]
pub(crate) fn str_eq(a: &str, b: &str) -> (r: bool)
    ensures
        r == (a@ == b@),
{
    a == b
}

/// Append a string slice.
pub(crate) fn push_str(s: &mut String, t: &str)
    ensures
        final(s)@ == old(s)@ + t@,
{
    s.append(t);
}

/// The Unicode `White_Space` property of a character: tab, line feed,
/// vertical tab, form feed, carriage return, space, next line, no-break
/// space, ogham space mark, the spaces from en quad to hair space, line and
/// paragraph separator, narrow no-break space, medium mathematical space
/// and ideographic space.
pub open spec fn unicode_white_space(c: char) -> bool {
    ||| ('\u{0009}' <= c && c <= '\u{000D}')
    ||| c == '\u{0020}'
    ||| c == '\u{0085}'
    ||| c == '\u{00A0}'
    ||| c == '\u{1680}'
    ||| ('\u{2000}' <= c && c <= '\u{200A}')
    ||| c == '\u{2028}'
    ||| c == '\u{2029}'
    ||| c == '\u{202F}'
    ||| c == '\u{205F}'
    ||| c == '\u{3000}'
}

/// The Unicode `Alphabetic` property of a character beyond ASCII.
pub uninterp spec fn alphabetic_beyond_ascii(c: char) -> bool;

/// The Unicode numeric property (general categories Nd, Nl, No) of a
/// character beyond ASCII.
pub uninterp spec fn numeric_beyond_ascii(c: char) -> bool;

/// The Unicode `Alphabetic` property of a character: within ASCII exactly
/// the Latin letters.
pub open spec fn unicode_alphabetic(c: char) -> bool {
    if c <= '\u{7F}' {
        ('a' <= c && c <= 'z') || ('A' <= c && c <= 'Z')
    } else {
        alphabetic_beyond_ascii(c)
    }
}

/// The Unicode numeric property of a character: within ASCII exactly the
/// digits.
pub open spec fn unicode_numeric(c: char) -> bool {
    if c <= '\u{7F}' {
        '0' <= c && c <= '9'
    } else {
        numeric_beyond_ascii(c)
    }
}

/// The `Debug` spelling of a character: quoted, with escapes.
pub uninterp spec fn char_debug_text(c: char) -> Seq<char>;

/// Does the character have the `White_Space` property?
///
/// Trusted: calls `char::is_whitespace`, documented as true exactly for the
/// characters with the Unicode `White_Space` property, the code points that
/// `unicode_white_space` lists.
#[verifier::external_body]
pub(crate) fn char_is_whitespace(c: char) -> (r: bool)
    ensures
        r == unicode_white_space(c),
{
    c.is_whitespace()
}

/// Does the character have the `Alphabetic` property?
///
/// Trusted: calls `char::is_alphabetic`; within ASCII the property holds of
/// the letters alone, beyond it the answer is named, not stated.
#[verifier::external_body]
pub(crate) fn char_is_alphabetic(c: char) -> (r: bool)
    ensures
        c <= '\u{7F}' ==> r == (('a' <= c && c <= 'z') || ('A' <= c && c <= 'Z')),
        c > '\u{7F}' ==> r == alphabetic_beyond_ascii(c),
{
    c.is_alphabetic()
}

/// Is the character alphabetic or numeric?
///
/// Trusted: calls `char::is_alphanumeric`, documented as true exactly when
/// `is_alphabetic()` or `is_numeric()` holds; within ASCII these are the
/// letters and the digits.
#[verifier::external_body]
pub(crate) fn char_is_alphanumeric(c: char) -> (r: bool)
    ensures
        c <= '\u{7F}' ==> r == (('a' <= c && c <= 'z') || ('A' <= c && c <= 'Z') || ('0' <= c && c <= '9')),
        c > '\u{7F}' ==> r == (alphabetic_beyond_ascii(c) || numeric_beyond_ascii(c)),
{
    c.is_alphanumeric()
}

/// The `Debug` spelling of a character, e.g. `'x'` or `'\n'`.
///
/// Trusted: formats the character with `{:?}`; its contents are named, not stated.
#[verifier::external_body]
pub(crate) fn char_debug(c: char) -> (r: String)
    ensures
        r@ == char_debug_text(c),
{
    format!("{:?}", c)
}

/// The characters of `s`, in order.
pub fn chars_of(s: &str) -> (res: Vec<char>)
    ensures
        res@ == s@,
{
    let mut out: Vec<char> = Vec::new();
    for c in it: s.chars()
        invariant
            out@ == it.seq().take(it.index() as int),
            it.seq() == s@,
    {
        out.push(c);
    }
    out
}

} // verus!
