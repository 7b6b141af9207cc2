//! Properties of characters, and the case of text.

use vstd::prelude::*;
use vstd::utf8::is_ascii_chars;

verus! {

/// The characters with the Unicode property `White_Space`.
pub open spec fn white_space(c: char) -> bool {
    ||| '\u{9}' <= c <= '\u{d}'
    ||| c == ' '
    ||| c == '\u{85}'
    ||| c == '\u{a0}'
    ||| c == '\u{1680}'
    ||| '\u{2000}' <= c <= '\u{200a}'
    ||| c == '\u{2028}'
    ||| c == '\u{2029}'
    ||| c == '\u{202f}'
    ||| c == '\u{205f}'
    ||| c == '\u{3000}'
}

/// Whether a character is white space.
pub fn is_white_space(c: char) -> (r: bool)
    ensures
        r == white_space(c),
{
    ('\u{9}' <= c && c <= '\u{d}') || c == ' ' || c == '\u{85}' || c == '\u{a0}' || c == '\u{1680}'
        || ('\u{2000}' <= c && c <= '\u{200a}') || c == '\u{2028}' || c == '\u{2029}' || c
        == '\u{202f}' || c == '\u{205f}' || c == '\u{3000}'
}

/// `A` to `Z`.
pub open spec fn ascii_upper(c: char) -> bool {
    'A' <= c <= 'Z'
}

/// `a` to `z`.
pub open spec fn ascii_lower(c: char) -> bool {
    'a' <= c <= 'z'
}

/// `0` to `9`.
pub open spec fn ascii_digit(c: char) -> bool {
    '0' <= c <= '9'
}

/// An ASCII letter or digit.
pub open spec fn ascii_alphanumeric(c: char) -> bool {
    ascii_upper(c) || ascii_lower(c) || ascii_digit(c)
}

/// A character with `A` to `Z` replaced by `a` to `z`.
pub open spec fn ascii_lower_char(c: char) -> char {
    if ascii_upper(c) {
        ((c as u32 + 32) as u32) as char
    } else {
        c
    }
}

/// A text with `A` to `Z` replaced by `a` to `z`.
pub open spec fn ascii_lowered(s: Seq<char>) -> Seq<char> {
    Seq::new(s.len(), |i: int| ascii_lower_char(s[i]))
}

/// No character of `s` is one of `A` to `Z`.
pub open spec fn no_ascii_upper(s: Seq<char>) -> bool {
    forall|i: int| 0 <= i < s.len() ==> !ascii_upper(#[trigger] s[i])
}

/// Whether a character is an ASCII letter or digit.
pub fn is_ascii_alphanumeric(c: char) -> (r: bool)
    ensures
        r == ascii_alphanumeric(c),
{
    ('A' <= c && c <= 'Z') || ('a' <= c && c <= 'z') || ('0' <= c && c <= '9')
}

/// What `str::to_lowercase` makes of a text that is not all ASCII.
pub uninterp spec fn unicode_lowercased(s: Seq<char>) -> Seq<char>;

/// Whether `char::is_alphanumeric` holds of a character outside ASCII.
pub uninterp spec fn unicode_alphanumeric(c: char) -> bool;

/// The lowercase form of a text.
pub open spec fn lowercased(s: Seq<char>) -> Seq<char> {
    if is_ascii_chars(s) {
        ascii_lowered(s)
    } else {
        unicode_lowercased(s)
    }
}

/// A letter or a number.
pub open spec fn alphanumeric(c: char) -> bool {
    if c <= '\u{7f}' {
        ascii_alphanumeric(c)
    } else {
        unicode_alphanumeric(c)
    }
}

/// `str::to_lowercase`: the lowercase form of a text. Of a text in ASCII it is
/// the text with `A` to `Z` replaced by `a` to `z`; of any other text
/// `unicode_lowercased` names it. Either way no upper-case ASCII letter is left.
#[verifier::external_body]
pub(crate) fn to_lowercase(s: &str) -> (r: String)
    ensures
        r@ == (if is_ascii_chars(s@) {
            ascii_lowered(s@)
        } else {
            unicode_lowercased(s@)
        }),
        no_ascii_upper(r@),
{
    s.to_lowercase()
}

/// `char::is_alphanumeric`: whether a character is a letter or a number. In
/// ASCII these are the letters and the digits; elsewhere
/// `unicode_alphanumeric` names the answer.
#[verifier::external_body]
pub(crate) fn is_alphanumeric(c: char) -> (r: bool)
    ensures
        r == (if c <= '\u{7f}' {
            ascii_alphanumeric(c)
        } else {
            unicode_alphanumeric(c)
        }),
{
    c.is_alphanumeric()
}

/// Two texts that differ at most in the case of their ASCII letters.
pub open spec fn same_ignoring_ascii_case(a: Seq<char>, b: Seq<char>) -> bool {
    ascii_lowered(a) == ascii_lowered(b)
}

} // verus!
