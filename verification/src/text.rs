//! Characters and strings: what the standard library decides, and the
//! character classes of the command syntax.

use vstd::prelude::*;

verus! {

/// Whether the standard library counts `c` as alphanumeric: `c` has the
/// Unicode property Alphabetic or one of the general categories for numbers.
pub uninterp spec fn unicode_alphanumeric(c: char) -> bool;

/// `char::is_alphanumeric` of the standard library. It depends on the
/// character alone; its table is not restated here, so all that is claimed is
/// that the answer is the one named `unicode_alphanumeric`.
pub assume_specification[ char::is_alphanumeric ](c: char) -> (b: bool)
    ensures
        b == unicode_alphanumeric(c),
;

/// `String::push` of the standard library appends one character to the end of
/// the string and leaves the rest as it was.
pub assume_specification[ String::push ](s: &mut String, ch: char)
    ensures
        final(s)@ == old(s)@.push(ch),
;

/// The last character of the ASCII range.
pub const ASCII_MAX: char = '\u{7f}';

/// An ASCII letter or digit.
pub open spec fn is_ascii_alphanumeric(c: char) -> bool {
    ||| '0' <= c <= '9'
    ||| 'A' <= c <= 'Z'
    ||| 'a' <= c <= 'z'
}

/// A character that may begin a literal: an ASCII letter, an ASCII digit or an
/// underscore.
pub open spec fn starts_literal(c: char) -> bool {
    is_ascii_alphanumeric(c) || c == '_'
}

/// A character that may continue a literal: an alphanumeric character. Within
/// ASCII these are the letters and digits; beyond it the standard library
/// decides.
pub open spec fn continues_literal(c: char) -> bool {
    if c <= ASCII_MAX {
        is_ascii_alphanumeric(c)
    } else {
        unicode_alphanumeric(c)
    }
}

/// An upper-case ASCII letter.
pub open spec fn is_upper(c: char) -> bool {
    'A' <= c <= 'Z'
}

/// A word of the grammar: one or more upper-case ASCII letters.
pub open spec fn is_upper_word(s: Seq<char>) -> bool {
    s.len() > 0 && forall|i: int| 0 <= i < s.len() ==> is_upper(#[trigger] s[i])
}

/// Decides `starts_literal`.
pub fn char_starts_literal(c: char) -> (b: bool)
    ensures
        b == starts_literal(c),
{
    ('0' <= c && c <= '9') || ('A' <= c && c <= 'Z') || ('a' <= c && c <= 'z') || c == '_'
}

/// Decides `continues_literal`.
pub fn char_continues_literal(c: char) -> (b: bool)
    ensures
        b == continues_literal(c),
{
    if c <= ASCII_MAX {
        ('0' <= c && c <= '9') || ('A' <= c && c <= 'Z') || ('a' <= c && c <= 'z')
    } else {
        c.is_alphanumeric()
    }
}

/// Whether two string slices hold the same characters.
pub fn str_eq(a: &str, b: &str) -> (same: bool)
    ensures
        same == (a@ == b@),
{
    let x = a.to_owned();
    let y = b.to_owned();
    x == y
}

/// Whether `s` is a word of the grammar.
pub fn str_is_upper_word(s: &str) -> (b: bool)
    ensures
        b == is_upper_word(s@),
{
    let mut nonempty = false;
    for c in it: s.chars()
        invariant
            it.seq() == s@,
            nonempty == (it.index() > 0),
            forall|i: int| 0 <= i < it.index() ==> is_upper(#[trigger] s@[i]),
    {
        if !('A' <= c && c <= 'Z') {
            assert(!is_upper(s@[it.index() as int]));
            return false;
        }
        nonempty = true;
    }
    nonempty
}

} // verus!
