//! What this library takes from std's text handling without proof:
//! appending a character to a `String`, and the text std's `Debug`
//! formatting gives a character or a string (quoted, with escapes chosen by
//! Unicode tables, as `char::escape_debug` does), which is named here, not
//! restated.

use vstd::prelude::*;

verus! {

/// Appending one character to a `String` (std's `String::push`): the new
/// content is the old content followed by `ch`.
pub assume_specification[ String::push ](string: &mut String, ch: char)
    ensures
        final(string)@ == old(string)@.push(ch),
;

/// What `format!("{:?}", c)` writes for the character `c`.
pub uninterp spec fn char_debug_text(c: char) -> Seq<char>;

/// What `format!("{:?}", s)` writes for a string whose characters are `s`.
pub uninterp spec fn str_debug_text(s: Seq<char>) -> Seq<char>;

/// A printable ASCII character that `Debug` formatting writes as itself:
/// ' ' to '~', except the quotes and the backslash, which it escapes.
pub open spec fn is_plain_ascii(c: char) -> bool {
    ' ' <= c <= '~' && c != '\'' && c != '"' && c != '\\'
}

/// The `Debug` text of `c`, as far as it is stated: a plain printable ASCII
/// character between single quotes, else `char_debug_text(c)`.
pub open spec fn char_shown(c: char) -> Seq<char> {
    if is_plain_ascii(c) {
        seq!['\'', c, '\'']
    } else {
        char_debug_text(c)
    }
}

/// The `Debug` text of a string, as far as it is stated: text of plain
/// printable ASCII characters between double quotes, else
/// `str_debug_text(s)`.
pub open spec fn str_shown(s: Seq<char>) -> Seq<char> {
    if forall|i: int| 0 <= i < s.len() ==> is_plain_ascii(#[trigger] s[i]) {
        seq!['"'] + s + seq!['"']
    } else {
        str_debug_text(s)
    }
}

/// Calls std's `Debug` formatting of a `char` (`format!("{:?}", c)`). The
/// contract ties the result to `c` through `char_debug_text`, and states it
/// for a plain printable ASCII character: the character between single
/// quotes. The escapes std chooses for other characters (from its Unicode
/// tables) are left unsaid.
#[verifier::external_body]
pub(crate) fn debug_char(c: char) -> (s: String)
    ensures
        s@ == char_debug_text(c),
        is_plain_ascii(c) ==> s@ == seq!['\'', c, '\''],
{
    format!("{:?}", c)
}

/// Calls std's `Debug` formatting of a `str` (`format!("{:?}", s)`). The
/// contract ties the result to the characters of `s` through
/// `str_debug_text`, and states it for text of plain printable ASCII
/// characters: the text between double quotes. The escapes std chooses for
/// other characters (from its Unicode tables) are left unsaid.
#[verifier::external_body]
pub(crate) fn debug_str(s: &str) -> (r: String)
    ensures
        r@ == str_debug_text(s@),
        (forall|i: int| 0 <= i < s@.len() ==> is_plain_ascii(#[trigger] s@[i])) ==> r@ == seq!['"']
            + s@ + seq!['"'],
{
    format!("{:?}", s)
}

} // verus!
