//! Character classes that the repair rules are written in.

use vstd::prelude::*;

verus! {

/// The characters with the Unicode property `White_Space`.
pub open spec fn is_white(c: char) -> bool {
    ||| '\u{9}' <= c <= '\u{d}'
    ||| c == ' '
    ||| c == '\u{85}'
    ||| c == '\u{a0}'
    ||| c == '\u{1680}'
    ||| '\u{2000}' <= c <= '\u{200a}'
    ||| c == '\u{2028}'
    ||| c == '\u{2029}'
    ||| c == '\u{202f}'
    ||| c == '\u{205f}'
    ||| c == '\u{3000}'
}

/// `char::is_whitespace` holds of exactly the characters with the Unicode property
/// `White_Space`.
pub assume_specification[ char::is_whitespace ](c: char) -> (r: bool)
    ensures
        r == is_white(c),
;

/// What `char::is_alphabetic` answers for a character outside ASCII: the Unicode property
/// `Alphabetic`.
pub uninterp spec fn unicode_alphabetic(c: char) -> bool;

/// What `char::is_alphanumeric` answers for a character outside ASCII: alphabetic or numeric.
pub uninterp spec fn unicode_alphanumeric(c: char) -> bool;

/// The ASCII characters.
pub open spec fn is_basic(c: char) -> bool {
    c <= '\u{7f}'
}

pub open spec fn is_ascii_letter(c: char) -> bool {
    'a' <= c <= 'z' || 'A' <= c <= 'Z'
}

pub open spec fn is_ascii_digit(c: char) -> bool {
    '0' <= c <= '9'
}

/// A letter: an ASCII letter, or a character beyond ASCII that Unicode calls alphabetic.
pub open spec fn is_letter(c: char) -> bool {
    if is_basic(c) {
        is_ascii_letter(c)
    } else {
        unicode_alphabetic(c)
    }
}

/// A letter or a digit, in the same reading.
pub open spec fn is_letter_or_digit(c: char) -> bool {
    if is_basic(c) {
        is_ascii_letter(c) || is_ascii_digit(c)
    } else {
        unicode_alphanumeric(c)
    }
}

/// `char::is_alphabetic`: the ASCII characters with the property are the letters, and for the
/// others the answer is a function of the character alone.
pub assume_specification[ char::is_alphabetic ](c: char) -> (r: bool)
    ensures
        r == (if is_basic(c) { is_ascii_letter(c) } else { unicode_alphabetic(c) }),
;

/// `char::is_alphanumeric`: the ASCII characters with the property are the letters and the
/// digits, and for the others the answer is a function of the character alone.
pub assume_specification[ char::is_alphanumeric ](c: char) -> (r: bool)
    ensures
        r == (if is_basic(c) { is_ascii_letter(c) || is_ascii_digit(c) } else {
            unicode_alphanumeric(c)
        }),
;

/// A number is a Unicode scalar value if it is a code point and no surrogate.
pub open spec fn is_scalar(code: int) -> bool {
    0 <= code <= 0xd7ff || 0xe000 <= code <= 0x10ffff
}

/// The character with the given code, for a Unicode scalar value.
pub open spec fn char_of(code: int) -> Option<char> {
    if is_scalar(code) {
        Some(code as char)
    } else {
        None
    }
}

/// `char::from_u32` gives the character with that code, and nothing for a number that is no
/// Unicode scalar value.
pub assume_specification[ char::from_u32 ](code: u32) -> (r: Option<char>)
    ensures
        r == char_of(code as int),
;

/// The quotation marks that open a string.
pub open spec fn is_quote(c: char) -> bool {
    c == '"' || c == '\'' || c == '\u{201c}'
}

pub(crate) fn opens_quote(c: char) -> (r: bool)
    ensures
        r == is_quote(c),
{
    c == '"' || c == '\'' || c == '\u{201c}'
}

/// The quotation mark that closes a string opened by `open`.
pub open spec fn closing_quote(open: char) -> char {
    if open == '\u{201c}' {
        '\u{201d}'
    } else {
        open
    }
}

pub(crate) fn matching_quote(open: char) -> (r: char)
    ensures
        r == closing_quote(open),
{
    match open {
        '\u{201c}' => '\u{201d}',
        other => other,
    }
}

/// The characters that a bare number starts with.
pub open spec fn starts_number(c: char) -> bool {
    c == '-' || c == '.' || is_ascii_digit(c)
}

pub(crate) fn number_can_start(c: char) -> (r: bool)
    ensures
        r == starts_number(c),
{
    c == '-' || c == '.' || ('0' <= c && c <= '9')
}

/// The characters that a bare value starts with.
pub open spec fn starts_bare_value(c: char) -> bool {
    starts_number(c) || c == '_' || is_letter(c)
}

pub(crate) fn bare_value_can_start(c: char) -> (r: bool)
    ensures
        r == starts_bare_value(c),
{
    number_can_start(c) || c == '_' || c.is_alphabetic()
}

/// The characters that any value starts with: a bare one, a string or a container.
pub open spec fn starts_value(c: char) -> bool {
    starts_bare_value(c) || is_quote(c) || c == '{' || c == '[' || c == '('
}

pub(crate) fn value_can_start(c: char) -> (r: bool)
    ensures
        r == starts_value(c),
{
    bare_value_can_start(c) || opens_quote(c) || c == '{' || c == '[' || c == '('
}

/// The characters of a name that is written without quotes.
pub open spec fn is_name_char(c: char) -> bool {
    is_letter_or_digit(c) || c == '_' || c == '-'
}

pub(crate) fn name_can_hold(c: char) -> (r: bool)
    ensures
        r == is_name_char(c),
{
    c.is_alphanumeric() || c == '_' || c == '-'
}

/// The value of a hexadecimal digit.
pub open spec fn hex_digit(c: char) -> Option<int> {
    if '0' <= c <= '9' {
        Some(c as int - '0' as int)
    } else if 'a' <= c <= 'f' {
        Some(c as int - 'a' as int + 10)
    } else if 'A' <= c <= 'F' {
        Some(c as int - 'A' as int + 10)
    } else {
        None
    }
}

pub(crate) fn hex_digit_value(c: char) -> (r: Option<u32>)
    ensures
        match r {
            Some(d) => hex_digit(c) == Some(d as int) && d < 16,
            None => hex_digit(c) is None,
        },
{
    if '0' <= c && c <= '9' {
        Some(c as u32 - '0' as u32)
    } else if 'a' <= c && c <= 'f' {
        Some(c as u32 - 'a' as u32 + 10)
    } else if 'A' <= c && c <= 'F' {
        Some(c as u32 - 'A' as u32 + 10)
    } else {
        None
    }
}

} // verus!
