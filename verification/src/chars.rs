//! Character-level classification and folding primitives used by the
//! normalization pipeline: Unicode whitespace and control detection, ASCII
//! punctuation, combining diacritical marks, ASCII lowercasing, and the
//! UTF-8 width of a single character.

use vstd::prelude::*;
use vstd::utf8::encode_scalar;

verus! {

/// The Unicode `White_Space` code points.
pub open spec fn is_whitespace_char(c: char) -> bool {
    let u = c as u32;
    ||| (0x09 <= u && u <= 0x0d)
    ||| u == 0x20
    ||| u == 0x85
    ||| u == 0xa0
    ||| u == 0x1680
    ||| (0x2000 <= u && u <= 0x200a)
    ||| u == 0x2028
    ||| u == 0x2029
    ||| u == 0x202f
    ||| u == 0x205f
    ||| u == 0x3000
}

/// The Unicode control code points (the C0 and C1 blocks).
pub open spec fn is_control_char(c: char) -> bool {
    let u = c as u32;
    u <= 0x1f || (0x7f <= u && u <= 0x9f)
}

/// The ASCII punctuation code points.
pub open spec fn is_ascii_punct_char(c: char) -> bool {
    let u = c as u32;
    ||| (0x21 <= u && u <= 0x2f)
    ||| (0x3a <= u && u <= 0x40)
    ||| (0x5b <= u && u <= 0x60)
    ||| (0x7b <= u && u <= 0x7e)
}

/// A character that never contributes to a token: whitespace, a control
/// character, or ASCII punctuation.
pub open spec fn is_skippable_char(c: char) -> bool {
    is_whitespace_char(c) || is_control_char(c) || is_ascii_punct_char(c)
}

/// A combining diacritical mark, dropped during canonicalization.
pub open spec fn is_diacritic_char(c: char) -> bool {
    0x300 <= c as u32 && c as u32 <= 0x36f
}

/// An ASCII character.
pub open spec fn is_ascii_char(c: char) -> bool {
    c as u32 <= 0x7f
}

/// An ASCII uppercase letter.
pub open spec fn is_ascii_upper_char(c: char) -> bool {
    0x41 <= c as u32 && c as u32 <= 0x5a
}

/// The ASCII lowercase image of a character: uppercase letters move down by
/// 32 code points, everything else is unchanged.
pub open spec fn ascii_lower_char(c: char) -> char {
    if is_ascii_upper_char(c) {
        (((c as u32) + 32) as u8) as char
    } else {
        c
    }
}

/// The number of bytes in the UTF-8 encoding of a character.
pub open spec fn char_utf8_len(c: char) -> nat {
    encode_scalar(c as u32).len()
}

/// Whether a character is whitespace, a control character, or ASCII
/// punctuation, so that a span made only of such characters is dropped.
pub fn is_skippable(c: char) -> (r: bool)
    ensures
        r == is_skippable_char(c),
{
    let u: u32 = c as u32;
    let ws: bool = (0x09 <= u && u <= 0x0d) || u == 0x20 || u == 0x85 || u == 0xa0 || u == 0x1680
        || (0x2000 <= u && u <= 0x200a) || u == 0x2028 || u == 0x2029 || u == 0x202f || u == 0x205f
        || u == 0x3000;
    let ctl: bool = u <= 0x1f || (0x7f <= u && u <= 0x9f);
    let punct: bool = (0x21 <= u && u <= 0x2f) || (0x3a <= u && u <= 0x40) || (0x5b <= u && u
        <= 0x60) || (0x7b <= u && u <= 0x7e);
    ws || ctl || punct
}

/// Whether a character is a combining diacritical mark.
pub fn is_diacritic(c: char) -> (r: bool)
    ensures
        r == is_diacritic_char(c),
{
    '\u{0300}' <= c && c <= '\u{036f}'
}

/// Lowercases an ASCII uppercase letter and leaves every other character
/// unchanged.
pub fn to_ascii_lower(c: char) -> (r: char)
    ensures
        r == ascii_lower_char(c),
{
    let u: u32 = c as u32;
    if 0x41 <= u && u <= 0x5a {
        ((u + 32) as u8) as char
    } else {
        c
    }
}

/// The number of bytes the UTF-8 encoding of `c` occupies.
pub fn utf8_width(c: char) -> (r: usize)
    ensures
        r == char_utf8_len(c),
        1 <= r <= 4,
{
    let u: u32 = c as u32;
    if u < 0x80 {
        1
    } else if u < 0x800 {
        2
    } else if u < 0x10000 {
        3
    } else {
        4
    }
}

} // verus!
