//! JSON text as the standard defines it, and why every text that is written here is such a text.

use crate::chars::{hex_digit, is_ascii_digit};
use crate::number::{
    all_digits, digit_run, digits_value, ends_with_exponent, integer_of, is_float_text,
};
use crate::scan::at;
use crate::value::{number_in_range, well_formed, Json, Num};
use crate::writer::{
    digits_text, escaped, escaped_char, hex_char, is_written, number_text, rendered, rendered_items,
    rendered_member, rendered_members, string_text, unicode_escape,
};
use vstd::prelude::*;

verus! {

/// The first place at or after `i` that holds no whitespace of JSON.
pub open spec fn skip_blank(s: Seq<char>, i: int) -> int
    decreases s.len() - i,
{
    if 0 <= i < s.len() && (s[i] == ' ' || s[i] == '\t' || s[i] == '\n' || s[i] == '\r') {
        skip_blank(s, i + 1)
    } else {
        i
    }
}

/// Whether a text stands at `i`.
pub open spec fn stands(s: Seq<char>, i: int, t: Seq<char>) -> bool {
    0 <= i && i + t.len() <= s.len() && s.subrange(i, i + t.len()) == t
}

/// The code that four hexadecimal digits at `i` write.
pub open spec fn read_code(s: Seq<char>, i: int) -> Option<int> {
    if 0 <= i && i + 4 <= s.len() {
        match (hex_digit(s[i]), hex_digit(s[i + 1]), hex_digit(s[i + 2]), hex_digit(s[i + 3])) {
            (Some(a), Some(b), Some(c), Some(d)) => Some(((a * 16 + b) * 16 + c) * 16 + d),
            _ => None,
        }
    } else {
        None
    }
}

/// The character that the escape at `i`, after the backslash, writes, and the place after it.
pub open spec fn read_escape(s: Seq<char>, i: int) -> Option<(char, int)> {
    match at(s, i) {
        Some('"') => Some(('"', i + 1)),
        Some('\\') => Some(('\\', i + 1)),
        Some('/') => Some(('/', i + 1)),
        Some('b') => Some(('\u{8}', i + 1)),
        Some('f') => Some(('\u{c}', i + 1)),
        Some('n') => Some(('\n', i + 1)),
        Some('r') => Some(('\r', i + 1)),
        Some('t') => Some(('\t', i + 1)),
        Some('u') => match read_code(s, i + 1) {
            None => None,
            Some(high) => if 0xd800 <= high <= 0xdbff {
                match read_code(s, i + 7) {
                    Some(low) => if s[i + 5] == '\\' && s[i + 6] == 'u' && 0xdc00 <= low <= 0xdfff {
                        let code = 0x10000 + (high - 0xd800) * 1024 + (low - 0xdc00);
                        Some((code as char, i + 11))
                    } else {
                        None
                    },
                    None => None,
                }
            } else if 0xdc00 <= high <= 0xdfff {
                None
            } else {
                Some((high as char, i + 5))
            },
        },
        _ => None,
    }
}

/// The text of the string whose rest starts at `i`, and the place after its closing quote.
pub open spec fn read_string(s: Seq<char>, i: int, start: Seq<char>) -> Option<(Seq<char>, int)>
    decreases s.len() - i,
{
    if !(0 <= i < s.len()) {
        None
    } else if s[i] == '"' {
        Some((start, i + 1))
    } else if s[i] == '\\' {
        match read_escape(s, i + 1) {
            Some((c, next)) if i < next <= s.len() => read_string(s, next, start.push(c)),
            _ => None,
        }
    } else if s[i] <= '\u{1f}' {
        None
    } else {
        read_string(s, i + 1, start.push(s[i]))
    }
}

/// The characters that numbers are made of.
pub open spec fn is_number_char(c: char) -> bool {
    is_ascii_digit(c) || c == '-' || c == '+' || c == '.' || c == 'e' || c == 'E'
}

/// The first place at or after `i` that holds no character of a number.
pub open spec fn number_end(s: Seq<char>, i: int) -> int
    decreases s.len() - i,
{
    if 0 <= i < s.len() && is_number_char(s[i]) {
        number_end(s, i + 1)
    } else {
        i
    }
}

/// Whether a text is a JSON number without a fraction or an exponent.
pub open spec fn is_integer_text(t: Seq<char>) -> bool {
    let digits = if t.len() > 0 && t[0] == '-' {
        t.skip(1)
    } else {
        t
    };
    digits.len() > 0 && all_digits(digits) && (digits[0] == '0' ==> digits.len() == 1)
}

/// The number that a text writes: an integer if it has 64 bits at most. Any other number is
/// held by its text, and so is the negative zero, which is no integer.
pub open spec fn read_number(t: Seq<char>) -> Option<Num> {
    if is_float_text(t) {
        Some(Num::Float(t))
    } else if is_integer_text(t) {
        match integer_of(t) {
            Some(n) if !(n == 0 && t[0] == '-') => Some(Num::Int(n)),
            _ => Some(Num::Float(t)),
        }
    } else {
        None
    }
}

/// The value at `i`, and the place after it.
pub open spec fn read_value(s: Seq<char>, i: int) -> Option<(Json, int)>
    decreases s.len() - i, 0int,
{
    if !(0 <= i < s.len()) {
        None
    } else if s[i] == '[' {
        let first = skip_blank(s, i + 1);
        if at(s, first) == Some(']') {
            Some((Json::Array(Seq::empty()), first + 1))
        } else if i < first <= s.len() {
            read_items(s, first, Seq::empty())
        } else {
            None
        }
    } else if s[i] == '{' {
        let first = skip_blank(s, i + 1);
        if at(s, first) == Some('}') {
            Some((Json::Object(Seq::empty()), first + 1))
        } else if i < first <= s.len() {
            read_members(s, first, Seq::empty())
        } else {
            None
        }
    } else if s[i] == '"' {
        match read_string(s, i + 1, Seq::empty()) {
            Some((t, next)) => Some((Json::String(t), next)),
            None => None,
        }
    } else if stands(s, i, seq!['n', 'u', 'l', 'l']) {
        Some((Json::Null, i + 4))
    } else if stands(s, i, seq!['t', 'r', 'u', 'e']) {
        Some((Json::Bool(true), i + 4))
    } else if stands(s, i, seq!['f', 'a', 'l', 's', 'e']) {
        Some((Json::Bool(false), i + 5))
    } else {
        let end = number_end(s, i);
        match read_number(s.subrange(i, end)) {
            Some(n) => Some((Json::Number(n), end)),
            None => None,
        }
    }
}

/// The array whose next item starts at `i`, and the place after its closing bracket.
pub open spec fn read_items(s: Seq<char>, i: int, start: Seq<Json>) -> Option<(Json, int)>
    decreases s.len() - i, 1int,
{
    match read_value(s, i) {
        None => None,
        Some((v, next)) => {
            let end = skip_blank(s, next);
            let after = skip_blank(s, end + 1);
            if at(s, end) == Some(']') {
                Some((Json::Array(start.push(v)), end + 1))
            } else if at(s, end) == Some(',') && i < after <= s.len() {
                read_items(s, after, start.push(v))
            } else {
                None
            }
        },
    }
}

/// The object whose next member starts at `i`, and the place after its closing brace.
pub open spec fn read_members(
    s: Seq<char>,
    i: int,
    start: Seq<(Seq<char>, Json)>,
) -> Option<(Json, int)>
    decreases s.len() - i, 1int,
{
    match (if at(s, i) == Some('"') {
        read_string(s, i + 1, Seq::empty())
    } else {
        None
    }) {
        None => None,
        Some((key, next)) => {
            let colon = skip_blank(s, next);
            let from = skip_blank(s, colon + 1);
            if at(s, colon) == Some(':') && i < from <= s.len() {
                match read_value(s, from) {
                    None => None,
                    Some((v, next)) => {
                        let end = skip_blank(s, next);
                        let after = skip_blank(s, end + 1);
                        if at(s, end) == Some('}') {
                            Some((Json::Object(start.push((key, v))), end + 1))
                        } else if at(s, end) == Some(',') && i < after <= s.len() {
                            read_members(s, after, start.push((key, v)))
                        } else {
                            None
                        }
                    },
                }
            } else {
                None
            }
        },
    }
}

/// The value that a JSON text writes. A text that is no JSON text writes none.
pub open spec fn read_text(s: Seq<char>) -> Option<Json> {
    match read_value(s, skip_blank(s, 0)) {
        Some((v, next)) if skip_blank(s, next) == s.len() => Some(v),
        _ => None,
    }
}

pub proof fn lemma_part_stands(s: Seq<char>, i: int, t: Seq<char>, from: int, to: int)
    requires
        stands(s, i, t),
        0 <= from <= to <= t.len(),
    ensures
        stands(s, i + from, t.subrange(from, to)),
        forall|k: int| from <= k < to ==> s[i + k] == #[trigger] t[k],
{
    assert(s.subrange(i + from, i + to) =~= t.subrange(from, to)) by {
        assert forall|k: int| from <= k < to implies s[i + k] == t[k] by {
            assert(s.subrange(i, i + t.len())[k] == t[k]);
        }
    }
    assert forall|k: int| from <= k < to implies s[i + k] == #[trigger] t[k] by {
        assert(s.subrange(i, i + t.len())[k] == t[k]);
    }
}

proof fn lemma_skip_blank(s: Seq<char>, i: int)
    requires
        0 <= i < s.len(),
    ensures
        s[i] == ' ' ==> skip_blank(s, i) == skip_blank(s, i + 1),
        s[i] != ' ' && s[i] != '\t' && s[i] != '\n' && s[i] != '\r' ==> skip_blank(s, i) == i,
{
}

proof fn lemma_hex_char(d: int)
    requires
        0 <= d < 16,
    ensures
        hex_digit(hex_char(d)) == Some(d),
{
}

/// An escape of a code is read as that code.
proof fn lemma_read_code(s: Seq<char>, i: int, code: int)
    requires
        0 <= code <= 0xffff,
        stands(s, i, unicode_escape(code)),
    ensures
        s[i] == '\\',
        s[i + 1] == 'u',
        read_code(s, i + 2) == Some(code),
{
    let t = unicode_escape(code);
    lemma_part_stands(s, i, t, 0, 6);
    assert(t[0] == '\\' && t[1] == 'u');
    assert(s[i + 2] == t[2] && s[i + 3] == t[3] && s[i + 4] == t[4] && s[i + 5] == t[5]);
    lemma_hex_char(code / 4096 % 16);
    lemma_hex_char(code / 256 % 16);
    lemma_hex_char(code / 16 % 16);
    lemma_hex_char(code % 16);
    assert(code == (((code / 4096 % 16) * 16 + code / 256 % 16) * 16 + code / 16 % 16) * 16 + code
        % 16);
}

/// One step of reading a string takes a written character for what it writes.
proof fn lemma_read_char(s: Seq<char>, i: int, c: char, ensure_ascii: bool, start: Seq<char>)
    requires
        stands(s, i, escaped_char(c, ensure_ascii)),
    ensures
        escaped_char(c, ensure_ascii).len() > 0,
        read_string(s, i, start) == read_string(
            s,
            i + escaped_char(c, ensure_ascii).len(),
            start.push(c),
        ),
{
    let t = escaped_char(c, ensure_ascii);
    let code = c as int;
    lemma_part_stands(s, i, t, 0, t.len() as int);
    assert(s[i + 0] == t[0]);
    if c == '"' || c == '\\' || c == '\n' || c == '\r' || c == '\t' || c == '\u{8}' || c
        == '\u{c}' {
        assert(s[i + 1] == t[1]);
    } else if c <= '\u{1f}' {
        lemma_read_code(s, i, code);
    } else if ensure_ascii && !(c <= '\u{7f}') {
        if code <= 0xffff {
            lemma_read_code(s, i, code);
        } else {
            let high = 0xd800 + (code - 0x10000) / 1024;
            let low = 0xdc00 + (code - 0x10000) % 1024;
            lemma_part_stands(s, i, t, 0, 6);
            lemma_part_stands(s, i, t, 6, 12);
            assert(t.subrange(0, 6) =~= unicode_escape(high));
            assert(t.subrange(6, 12) =~= unicode_escape(low));
            lemma_read_code(s, i, high);
            lemma_read_code(s, i + 6, low);
            assert(0x10000 + (high - 0xd800) * 1024 + (low - 0xdc00) == code);
        }
    }
}

/// A text that starts with another: what the first part of a text is written as comes first.
proof fn lemma_escaped_prefix(t: Seq<char>, ensure_ascii: bool, k: int)
    requires
        0 <= k <= t.len(),
    ensures
        ({
            let whole = escaped(t, ensure_ascii);
            let part = escaped(t.take(k), ensure_ascii);
            part.len() <= whole.len() && whole.take(part.len() as int) == part
        }),
    decreases t.len(),
{
    let whole = escaped(t, ensure_ascii);
    let part = escaped(t.take(k), ensure_ascii);
    if k == t.len() {
        assert(t.take(k) =~= t);
        assert(whole.take(part.len() as int) =~= part);
    } else {
        lemma_escaped_prefix(t.drop_last(), ensure_ascii, k);
        assert(t.drop_last().take(k) =~= t.take(k));
        let before = escaped(t.drop_last(), ensure_ascii);
        assert(whole.take(part.len() as int) =~= before.take(part.len() as int));
    }
}

/// The rest of a written string is read as the rest of its text.
proof fn lemma_read_string_rest(
    s: Seq<char>,
    i: int,
    t: Seq<char>,
    ensure_ascii: bool,
    k: int,
)
    requires
        0 <= k <= t.len(),
        stands(s, i, escaped(t, ensure_ascii)),
        at(s, i + escaped(t, ensure_ascii).len()) == Some('"'),
    ensures
        read_string(s, i + escaped(t.take(k), ensure_ascii).len(), t.take(k)) == Some(
            (t, i + escaped(t, ensure_ascii).len() + 1),
        ),
    decreases t.len() - k,
{
    let whole = escaped(t, ensure_ascii);
    let from = escaped(t.take(k), ensure_ascii).len() as int;
    if k == t.len() {
        assert(t.take(k) =~= t);
    } else {
        let c = t[k];
        let next = escaped(t.take(k + 1), ensure_ascii);
        assert(t.take(k + 1).drop_last() =~= t.take(k));
        assert(next == escaped(t.take(k), ensure_ascii) + escaped_char(c, ensure_ascii));
        lemma_escaped_prefix(t, ensure_ascii, k + 1);
        let to = next.len() as int;
        assert(whole.subrange(from, to) =~= escaped_char(c, ensure_ascii)) by {
            assert(whole.subrange(from, to) =~= whole.take(to).subrange(from, to));
        }
        lemma_part_stands(s, i, whole, from, to);
        lemma_read_char(s, i + from, c, ensure_ascii, t.take(k));
        assert(t.take(k).push(c) =~= t.take(k + 1));
        lemma_read_string_rest(s, i, t, ensure_ascii, k + 1);
    }
}

/// A written string is read as its text.
proof fn lemma_read_string(s: Seq<char>, i: int, t: Seq<char>, ensure_ascii: bool)
    requires
        stands(s, i, string_text(t, ensure_ascii)),
    ensures
        s[i] == '"',
        read_string(s, i + 1, Seq::empty()) == Some(
            (t, i + string_text(t, ensure_ascii).len()),
        ),
{
    let whole = string_text(t, ensure_ascii);
    let inner = escaped(t, ensure_ascii);
    lemma_part_stands(s, i, whole, 0, whole.len() as int);
    assert(s[i + 0] == whole[0]);
    assert(s[i + (whole.len() - 1)] == whole[whole.len() - 1]);
    lemma_part_stands(s, i, whole, 1, whole.len() - 1);
    assert(whole.subrange(1, whole.len() - 1) =~= inner);
    assert(t.take(0) =~= Seq::empty());
    lemma_read_string_rest(s, i + 1, t, ensure_ascii, 0);
}

proof fn lemma_digit_run(t: Seq<char>, i: int)
    requires
        0 <= i <= t.len(),
    ensures
        i <= digit_run(t, i) <= t.len(),
        forall|k: int| i <= k < digit_run(t, i) ==> is_ascii_digit(#[trigger] t[k]),
    decreases t.len() - i,
{
    if i < t.len() && is_ascii_digit(t[i]) {
        lemma_digit_run(t, i + 1);
    }
}

proof fn lemma_all_digits_run(t: Seq<char>, i: int)
    requires
        0 <= i <= t.len(),
        forall|k: int| i <= k < t.len() ==> is_ascii_digit(#[trigger] t[k]),
    ensures
        digit_run(t, i) == t.len(),
    decreases t.len() - i,
{
    if i < t.len() {
        lemma_all_digits_run(t, i + 1);
    }
}

proof fn lemma_exponent_chars(t: Seq<char>, i: int)
    requires
        ends_with_exponent(t, i),
    ensures
        forall|k: int| i <= k < t.len() ==> is_number_char(#[trigger] t[k]),
{
    let from = if i + 1 < t.len() && (t[i + 1] == '+' || t[i + 1] == '-') {
        i + 2
    } else {
        i + 1
    };
    lemma_digit_run(t, from);
}

/// The text of a double is made of the characters of numbers, the first of them a digit or a
/// minus sign.
proof fn lemma_float_chars(t: Seq<char>)
    requires
        is_float_text(t),
    ensures
        t.len() > 0,
        t[0] == '-' || is_ascii_digit(t[0]),
        forall|k: int| 0 <= k < t.len() ==> is_number_char(#[trigger] t[k]),
{
    let start = if t.len() > 0 && t[0] == '-' {
        1int
    } else {
        0
    };
    let whole = digit_run(t, start);
    assert(t.len() > 0);
    lemma_digit_run(t, start);
    assert(is_ascii_digit(t[start]));
    if t[whole] == '.' {
        let end = digit_run(t, whole + 1);
        lemma_digit_run(t, whole + 1);
        if end != t.len() {
            lemma_exponent_chars(t, end);
        }
    } else {
        lemma_exponent_chars(t, whole);
    }
}

/// The digits of a natural number write it, without a leading zero.
proof fn lemma_digits_text(n: int)
    requires
        0 <= n,
    ensures
        ({
            let t = digits_text(n);
            &&& t.len() > 0
            &&& all_digits(t)
            &&& digits_value(t) == n
            &&& t[0] == '0' ==> n == 0 && t.len() == 1
        }),
    decreases n,
{
    let t = digits_text(n);
    if n < 10 {
        assert(t.drop_last() =~= Seq::empty());
        assert(digits_value(t.drop_last()) == 0);
        assert(t.last() as int == '0' as int + n);
    } else {
        lemma_digits_text(n / 10);
        let before = digits_text(n / 10);
        assert(t.drop_last() =~= before);
        assert(t.last() as int == '0' as int + n % 10);
        assert(t[0] == before[0]);
    }
}

proof fn lemma_number_end(s: Seq<char>, i: int, to: int)
    requires
        0 <= i <= to <= s.len(),
        forall|k: int| i <= k < to ==> is_number_char(#[trigger] s[k]),
        to < s.len() ==> !is_number_char(s[to]),
    ensures
        number_end(s, i) == to,
    decreases to - i,
{
    if i < to {
        lemma_number_end(s, i + 1, to);
    }
}

/// A written number is read as itself.
proof fn lemma_read_number(n: Num)
    requires
        number_in_range(n),
    ensures
        read_number(number_text(n)) == Some(n),
        number_text(n).len() > 0,
        number_text(n)[0] == '-' || is_ascii_digit(number_text(n)[0]),
        forall|k: int|
            0 <= k < number_text(n).len() ==> is_number_char(#[trigger] number_text(n)[k]),
{
    let t = number_text(n);
    match n {
        Num::Float(text) => {
            lemma_float_chars(text);
        },
        Num::Int(i) => if i < 0 {
            lemma_digits_text(-i);
            assert(t.skip(1) =~= digits_text(-i));
            assert forall|k: int| 1 <= k < t.len() implies is_ascii_digit(#[trigger] t[k]) by {
                assert(t[k] == digits_text(-i)[k - 1]);
            }
            lemma_all_digits_run(t, 1);
        } else {
            lemma_digits_text(i);
            lemma_all_digits_run(t, 0);
        },
    }
}

/// Whether no character of a number stands at `i`.
spec fn number_stops(s: Seq<char>, i: int) -> bool {
    match at(s, i) {
        Some(c) => !is_number_char(c),
        None => true,
    }
}

/// Whether a character can be the first of a written value.
pub open spec fn opens_value(c: char) -> bool {
    c == '[' || c == '{' || c == '"' || c == 'n' || c == 't' || c == 'f' || c == '-'
        || is_ascii_digit(c)
}

pub proof fn lemma_first_char(v: Json, ensure_ascii: bool)
    requires
        well_formed(v),
    ensures
        rendered(v, ensure_ascii).len() > 0,
        opens_value(rendered(v, ensure_ascii)[0]),
{
    if let Json::Number(n) = v {
        lemma_read_number(n);
    }
}

proof fn lemma_items_prefix(items: Seq<Json>, ensure_ascii: bool, k: int, n: int)
    requires
        0 <= k <= n <= items.len(),
    ensures
        ({
            let whole = rendered_items(items, ensure_ascii, n);
            let part = rendered_items(items, ensure_ascii, k);
            part.len() <= whole.len() && whole.take(part.len() as int) == part
        }),
    decreases n - k,
{
    let whole = rendered_items(items, ensure_ascii, n);
    let part = rendered_items(items, ensure_ascii, k);
    if k == n {
        assert(whole.take(part.len() as int) =~= part);
    } else {
        lemma_items_prefix(items, ensure_ascii, k, n - 1);
        let before = rendered_items(items, ensure_ascii, n - 1);
        assert(whole.take(part.len() as int) =~= before.take(part.len() as int));
    }
}

proof fn lemma_members_prefix(
    members: Seq<(Seq<char>, Json)>,
    ensure_ascii: bool,
    k: int,
    n: int,
)
    requires
        0 <= k <= n <= members.len(),
    ensures
        ({
            let whole = rendered_members(members, ensure_ascii, n);
            let part = rendered_members(members, ensure_ascii, k);
            part.len() <= whole.len() && whole.take(part.len() as int) == part
        }),
    decreases n - k,
{
    let whole = rendered_members(members, ensure_ascii, n);
    let part = rendered_members(members, ensure_ascii, k);
    if k == n {
        assert(whole.take(part.len() as int) =~= part);
    } else {
        lemma_members_prefix(members, ensure_ascii, k, n - 1);
        let before = rendered_members(members, ensure_ascii, n - 1);
        assert(whole.take(part.len() as int) =~= before.take(part.len() as int));
    }
}

/// Where item or member `k` starts after the items or members before it.
pub open spec fn start_after(before: Seq<char>, k: int) -> int {
    before.len() + if k > 0 {
        2int
    } else {
        0
    }
}

/// Item `k` stands at its place, after a comma and a space if it is not the first.
pub proof fn lemma_item_stands(s: Seq<char>, i: int, items: Seq<Json>, ensure_ascii: bool, k: int)
    requires
        0 <= k < items.len(),
        stands(s, i, rendered_items(items, ensure_ascii, items.len() as int)),
    ensures
        ({
            let before = rendered_items(items, ensure_ascii, k);
            let start = start_after(before, k);
            let text = rendered(items[k], ensure_ascii);
            &&& stands(s, i + start, text)
            &&& start + text.len() == rendered_items(items, ensure_ascii, k + 1).len()
            &&& start + text.len() <= rendered_items(
                items,
                ensure_ascii,
                items.len() as int,
            ).len()
            &&& k > 0 ==> s[i + before.len()] == ',' && s[i + before.len() + 1] == ' '
        }),
{
    let whole = rendered_items(items, ensure_ascii, items.len() as int);
    let before = rendered_items(items, ensure_ascii, k);
    let next = rendered_items(items, ensure_ascii, k + 1);
    let start = start_after(before, k);
    let text = rendered(items[k], ensure_ascii);
    lemma_items_prefix(items, ensure_ascii, k + 1, items.len() as int);
    let to = next.len() as int;
    assert(to == start + text.len());
    assert(whole.subrange(start, to) =~= text) by {
        assert(whole.subrange(start, to) =~= whole.take(to).subrange(start, to));
    }
    lemma_part_stands(s, i, whole, start, to);
    if k > 0 {
        let b = before.len() as int;
        lemma_part_stands(s, i, whole, b, b + 2);
        assert(whole[b] == whole.take(to)[b] && whole[b + 1] == whole.take(to)[b + 1]);
        assert(s[i + b] == whole[b] && s[i + (b + 1)] == whole[b + 1]);
    }
}

pub proof fn lemma_member_stands(
    s: Seq<char>,
    i: int,
    members: Seq<(Seq<char>, Json)>,
    ensure_ascii: bool,
    k: int,
)
    requires
        0 <= k < members.len(),
        stands(s, i, rendered_members(members, ensure_ascii, members.len() as int)),
    ensures
        ({
            let before = rendered_members(members, ensure_ascii, k);
            let start = start_after(before, k);
            let text = rendered_member(members[k], ensure_ascii);
            &&& stands(s, i + start, text)
            &&& start + text.len() == rendered_members(members, ensure_ascii, k + 1).len()
            &&& start + text.len() <= rendered_members(
                members,
                ensure_ascii,
                members.len() as int,
            ).len()
            &&& k > 0 ==> s[i + before.len()] == ',' && s[i + before.len() + 1] == ' '
        }),
{
    let whole = rendered_members(members, ensure_ascii, members.len() as int);
    let before = rendered_members(members, ensure_ascii, k);
    let next = rendered_members(members, ensure_ascii, k + 1);
    let start = start_after(before, k);
    let text = rendered_member(members[k], ensure_ascii);
    lemma_members_prefix(members, ensure_ascii, k + 1, members.len() as int);
    let to = next.len() as int;
    assert(to == start + text.len());
    assert(whole.subrange(start, to) =~= text) by {
        assert(whole.subrange(start, to) =~= whole.take(to).subrange(start, to));
    }
    lemma_part_stands(s, i, whole, start, to);
    if k > 0 {
        let b = before.len() as int;
        lemma_part_stands(s, i, whole, b, b + 2);
        assert(whole[b] == whole.take(to)[b] && whole[b + 1] == whole.take(to)[b + 1]);
        assert(s[i + b] == whole[b] && s[i + (b + 1)] == whole[b + 1]);
    }
}

/// The words of JSON differ in their first character.
pub proof fn lemma_words_start(s: Seq<char>, i: int)
    ensures
        stands(s, i, seq!['n', 'u', 'l', 'l']) ==> s[i] == 'n',
        stands(s, i, seq!['t', 'r', 'u', 'e']) ==> s[i] == 't',
        stands(s, i, seq!['f', 'a', 'l', 's', 'e']) ==> s[i] == 'f',
{
    if stands(s, i, seq!['n', 'u', 'l', 'l']) {
        lemma_part_stands(s, i, seq!['n', 'u', 'l', 'l'], 0, 1);
        assert(s[i + 0] == seq!['n', 'u', 'l', 'l'][0]);
    }
    if stands(s, i, seq!['t', 'r', 'u', 'e']) {
        lemma_part_stands(s, i, seq!['t', 'r', 'u', 'e'], 0, 1);
        assert(s[i + 0] == seq!['t', 'r', 'u', 'e'][0]);
    }
    if stands(s, i, seq!['f', 'a', 'l', 's', 'e']) {
        lemma_part_stands(s, i, seq!['f', 'a', 'l', 's', 'e'], 0, 1);
        assert(s[i + 0] == seq!['f', 'a', 'l', 's', 'e'][0]);
    }
}

/// What is read at a value's place is the value.
proof fn lemma_read_value(s: Seq<char>, i: int, v: Json, ensure_ascii: bool)
    requires
        well_formed(v),
        stands(s, i, rendered(v, ensure_ascii)),
        number_stops(s, i + rendered(v, ensure_ascii).len()),
    ensures
        read_value(s, i) == Some((v, i + rendered(v, ensure_ascii).len())),
    decreases v, 0int,
{
    let t = rendered(v, ensure_ascii);
    let n = t.len() as int;
    lemma_first_char(v, ensure_ascii);
    lemma_part_stands(s, i, t, 0, n);
    assert(s[i + 0] == t[0]);
    match v {
        Json::Null => {},
        Json::Bool(b) => {
            lemma_words_start(s, i);
        },
        Json::Number(num) => {
            lemma_words_start(s, i);
            lemma_read_number(num);
            assert forall|k: int| i <= k < i + n implies is_number_char(#[trigger] s[k]) by {
                assert(s[i + (k - i)] == t[k - i]);
            }
            lemma_number_end(s, i, i + n);
        },
        Json::String(text) => {
            lemma_read_string(s, i, text, ensure_ascii);
        },
        Json::Array(items) => {
            let inner = rendered_items(items, ensure_ascii, items.len() as int);
            lemma_part_stands(s, i, t, 1, n - 1);
            assert(t.subrange(1, n - 1) =~= inner);
            assert(s[i + (n - 1)] == t[n - 1]);
            if items.len() == 0 {
                lemma_skip_blank(s, i + 1);
                assert(items =~= Seq::empty());
            } else {
                lemma_item_stands(s, i + 1, items, ensure_ascii, 0);
                let first = rendered(items[0], ensure_ascii);
                lemma_first_char(items[0], ensure_ascii);
                lemma_part_stands(s, i + 1, first, 0, 1);
                assert(s[i + 1 + 0] == first[0]);
                lemma_skip_blank(s, i + 1);
                assert(items.take(0) =~= Seq::empty());
                lemma_read_items(s, i + 1, items, ensure_ascii, 0);
            }
        },
        Json::Object(members) => {
            let inner = rendered_members(members, ensure_ascii, members.len() as int);
            lemma_part_stands(s, i, t, 1, n - 1);
            assert(t.subrange(1, n - 1) =~= inner);
            assert(s[i + (n - 1)] == t[n - 1]);
            if members.len() == 0 {
                lemma_skip_blank(s, i + 1);
                assert(members =~= Seq::empty());
            } else {
                lemma_member_stands(s, i + 1, members, ensure_ascii, 0);
                let first = rendered_member(members[0], ensure_ascii);
                lemma_part_stands(s, i + 1, first, 0, 1);
                assert(s[i + 1 + 0] == first[0]);
                lemma_skip_blank(s, i + 1);
                assert(members.take(0) =~= Seq::empty());
                lemma_read_members(s, i + 1, members, ensure_ascii, 0);
            }
        },
    }
}

/// From item `k` on, an array is read to its end.
proof fn lemma_read_items(s: Seq<char>, i: int, items: Seq<Json>, ensure_ascii: bool, k: int)
    requires
        0 <= k < items.len(),
        forall|j: int| 0 <= j < items.len() ==> well_formed(#[trigger] items[j]),
        stands(s, i, rendered_items(items, ensure_ascii, items.len() as int)),
        at(s, i + rendered_items(items, ensure_ascii, items.len() as int).len()) == Some(']'),
    ensures
        read_items(
            s,
            i + start_after(rendered_items(items, ensure_ascii, k), k),
            items.take(k),
        ) == Some(
            (
                Json::Array(items),
                i + rendered_items(items, ensure_ascii, items.len() as int).len() + 1,
            ),
        ),
    decreases items, items.len() - k,
{
    let start = i + start_after(rendered_items(items, ensure_ascii, k), k);
    let end = i + rendered_items(items, ensure_ascii, k + 1).len();
    lemma_item_stands(s, i, items, ensure_ascii, k);
    assert(items.take(k).push(items[k]) =~= items.take(k + 1));
    if k + 1 < items.len() {
        lemma_item_stands(s, i, items, ensure_ascii, k + 1);
        lemma_read_value(s, start, items[k], ensure_ascii);
        let text = rendered(items[k + 1], ensure_ascii);
        lemma_first_char(items[k + 1], ensure_ascii);
        lemma_part_stands(s, end + 2, text, 0, 1);
        assert(s[end + 2 + 0] == text[0]);
        lemma_skip_blank(s, end);
        lemma_skip_blank(s, end + 1);
        lemma_skip_blank(s, end + 2);
        lemma_read_items(s, i, items, ensure_ascii, k + 1);
    } else {
        lemma_read_value(s, start, items[k], ensure_ascii);
        lemma_skip_blank(s, end);
        assert(items.take(k + 1) =~= items);
    }
}

/// From member `k` on, an object is read to its end.
proof fn lemma_read_members(
    s: Seq<char>,
    i: int,
    members: Seq<(Seq<char>, Json)>,
    ensure_ascii: bool,
    k: int,
)
    requires
        0 <= k < members.len(),
        forall|j: int| 0 <= j < members.len() ==> well_formed((#[trigger] members[j]).1),
        stands(s, i, rendered_members(members, ensure_ascii, members.len() as int)),
        at(s, i + rendered_members(members, ensure_ascii, members.len() as int).len()) == Some('}'),
    ensures
        read_members(
            s,
            i + start_after(rendered_members(members, ensure_ascii, k), k),
            members.take(k),
        ) == Some(
            (
                Json::Object(members),
                i + rendered_members(members, ensure_ascii, members.len() as int).len() + 1,
            ),
        ),
    decreases members, members.len() - k,
{
    let start = i + start_after(rendered_members(members, ensure_ascii, k), k);
    let end = i + rendered_members(members, ensure_ascii, k + 1).len();
    let (key, value) = members[k];
    let name = string_text(key, ensure_ascii);
    let text = rendered(value, ensure_ascii);
    let whole = rendered_member(members[k], ensure_ascii);
    lemma_member_stands(s, i, members, ensure_ascii, k);
    assert(members.take(k).push(members[k]) =~= members.take(k + 1));
    let colon = name.len() as int;
    lemma_part_stands(s, start, whole, 0, colon);
    assert(whole.subrange(0, colon) =~= name);
    lemma_read_string(s, start, key, ensure_ascii);
    lemma_part_stands(s, start, whole, colon, colon + 2);
    assert(s[start + colon] == whole[colon] && s[start + (colon + 1)] == whole[colon + 1]);
    lemma_part_stands(s, start, whole, colon + 2, whole.len() as int);
    assert(whole.subrange(colon + 2, whole.len() as int) =~= text);
    lemma_first_char(value, ensure_ascii);
    lemma_part_stands(s, start + colon + 2, text, 0, 1);
    assert(s[start + colon + 2 + 0] == text[0]);
    lemma_skip_blank(s, start + colon);
    lemma_skip_blank(s, start + colon + 1);
    lemma_skip_blank(s, start + colon + 2);
    assert(decreases_to!(members => members[k]));
    assert(decreases_to!(members[k] => members[k].1));
    if k + 1 < members.len() {
        lemma_member_stands(s, i, members, ensure_ascii, k + 1);
        lemma_read_value(s, start + colon + 2, value, ensure_ascii);
        let next = rendered_member(members[k + 1], ensure_ascii);
        lemma_part_stands(s, end + 2, next, 0, 1);
        assert(s[end + 2 + 0] == next[0]);
        lemma_skip_blank(s, end);
        lemma_skip_blank(s, end + 1);
        lemma_skip_blank(s, end + 2);
        lemma_read_members(s, i, members, ensure_ascii, k + 1);
    } else {
        lemma_read_value(s, start + colon + 2, value, ensure_ascii);
        lemma_skip_blank(s, end);
        assert(members.take(k + 1) =~= members);
    }
}

/// What is written is JSON, and writes the value: whichever way non-ASCII characters are
/// written, reading the text by the standard gives the value back.
pub proof fn lemma_written_text_is_json(v: Json, ensure_ascii: bool)
    requires
        well_formed(v),
    ensures
        read_text(rendered(v, ensure_ascii)) == Some(v),
{
    let s = rendered(v, ensure_ascii);
    lemma_first_char(v, ensure_ascii);
    assert(s.subrange(0, s.len() as int) =~= s);
    lemma_skip_blank(s, 0);
    lemma_read_value(s, 0, v, ensure_ascii);
}

/// Two values with one text are one value.
pub proof fn lemma_text_tells_values_apart(a: Json, b: Json, text: Seq<char>)
    requires
        well_formed(a),
        well_formed(b),
        is_written(a, text),
        is_written(b, text),
    ensures
        a == b,
{
    lemma_written_text_is_json(a, true);
    lemma_written_text_is_json(a, false);
    lemma_written_text_is_json(b, true);
    lemma_written_text_is_json(b, false);
}

spec fn is_ascii(t: Seq<char>) -> bool {
    forall|i: int| 0 <= i < t.len() ==> #[trigger] t[i] <= '\u{7f}'
}

proof fn lemma_escaped_ascii(t: Seq<char>)
    ensures
        is_ascii(escaped(t, true)),
    decreases t.len(),
{
    if t.len() > 0 {
        lemma_escaped_ascii(t.drop_last());
        assert(is_ascii(escaped_char(t.last(), true)));
    }
}

proof fn lemma_ascii(v: Json)
    requires
        well_formed(v),
    ensures
        is_ascii(rendered(v, true)),
    decreases v, 0int,
{
    match v {
        Json::Number(n) => {
            lemma_read_number(n);
        },
        Json::String(t) => {
            lemma_escaped_ascii(t);
        },
        Json::Array(items) => {
            lemma_items_ascii(items, items.len() as int);
        },
        Json::Object(members) => {
            lemma_members_ascii(members, members.len() as int);
        },
        _ => {},
    }
}

proof fn lemma_items_ascii(items: Seq<Json>, count: int)
    requires
        0 <= count <= items.len(),
        forall|j: int| 0 <= j < items.len() ==> well_formed(#[trigger] items[j]),
    ensures
        is_ascii(rendered_items(items, true, count)),
    decreases items, count,
{
    if count > 0 {
        lemma_items_ascii(items, count - 1);
        lemma_ascii(items[count - 1]);
    }
}

proof fn lemma_members_ascii(members: Seq<(Seq<char>, Json)>, count: int)
    requires
        0 <= count <= members.len(),
        forall|j: int| 0 <= j < members.len() ==> well_formed((#[trigger] members[j]).1),
    ensures
        is_ascii(rendered_members(members, true, count)),
    decreases members, count,
{
    if count > 0 {
        lemma_members_ascii(members, count - 1);
        let member = members[count - 1];
        assert(decreases_to!(members => members[count - 1]));
        assert(decreases_to!(members[count - 1] => members[count - 1].1));
        lemma_escaped_ascii(member.0);
        lemma_ascii(member.1);
        assert(is_ascii(string_text(member.0, true)));
        assert(is_ascii(rendered_member(member, true)));
    }
}

/// With non-ASCII characters escaped, every character of a written text is ASCII.
pub proof fn lemma_escaped_text_is_ascii(v: Json, i: int)
    requires
        well_formed(v),
        0 <= i < rendered(v, true).len(),
    ensures
        rendered(v, true)[i] <= '\u{7f}',
{
    lemma_ascii(v);
}

} // verus!
