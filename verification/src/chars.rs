//! Character classes the query lexer distinguishes, and the contracts under
//! which the standard library's classification functions are called.

use vstd::prelude::*;

verus! {

/// Whether `c` has the Unicode `White_Space` property: the controls from
/// tab to carriage return, the space, the next-line control, the no-break
/// space, the ogham space mark, the spaces from en quad to hair space, the
/// line and the paragraph separator, the narrow no-break space, the medium
/// mathematical space and the ideographic space.
pub open spec fn whitespace(c: char) -> bool {
    let u = c as u32;
    ||| 0x09 <= u <= 0x0d
    ||| u == 0x20
    ||| u == 0x85
    ||| u == 0xa0
    ||| u == 0x1680
    ||| 0x2000 <= u <= 0x200a
    ||| u == 0x2028
    ||| u == 0x2029
    ||| u == 0x202f
    ||| u == 0x205f
    ||| u == 0x3000
}

/// Whether an ASCII character is a digit or a letter.
pub open spec fn ascii_alphanumeric(c: char) -> bool {
    let u = c as u32;
    ||| 0x30 <= u <= 0x39
    ||| 0x41 <= u <= 0x5a
    ||| 0x61 <= u <= 0x7a
}

/// Whether a character beyond ASCII is alphabetic or numeric in the sense of
/// Unicode, as decided by [`char::is_alphanumeric`].
pub uninterp spec fn alphanumeric_beyond_ascii(c: char) -> bool;

/// Whether `c` is alphabetic or numeric in the sense of Unicode: in ASCII
/// the digits and the letters, beyond it what
/// [`alphanumeric_beyond_ascii`] names.
pub open spec fn alphanumeric(c: char) -> bool {
    if c as u32 <= 0x7f {
        ascii_alphanumeric(c)
    } else {
        alphanumeric_beyond_ascii(c)
    }
}

/// [`char::is_whitespace`] tells whether the character has the Unicode
/// `White_Space` property, which [`whitespace`] spells out.
pub assume_specification[ char::is_whitespace ](c: char) -> (r: bool)
    ensures
        r == whitespace(c),
;

/// [`char::is_alphanumeric`] tells whether the character is alphabetic or
/// numeric. In ASCII those are the digits and the letters; beyond ASCII the
/// result is a function of the character alone, which
/// [`alphanumeric_beyond_ascii`] names, and nothing else is assumed of it.
pub assume_specification[ char::is_alphanumeric ](c: char) -> (r: bool)
    ensures
        r == alphanumeric(c),
        c as u32 > 0x7f ==> r == alphanumeric_beyond_ascii(c),
;

/// [`char::len_utf8`] returns the number of bytes that the character takes
/// when encoded as UTF-8.
pub assume_specification[ char::len_utf8 ](c: char) -> (r: usize)
    ensures
        r == vstd::utf8::encode_scalar(c as u32).len(),
;

/// Whether `c` is one of the two quote characters that open a text token.
pub open spec fn is_quote(c: char) -> bool {
    c == '"' || c == '\''
}

} // verus!
