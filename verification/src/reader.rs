//! The reading of JSON text by the standard, which keeps every member that is written.

use crate::chars::hex_digit_value;
use crate::number::{digit_run, ends_with_exponent, is_float_text, parse_integer};
use crate::scan::at;
use crate::standard::{
    is_integer_text, is_number_char, number_end, read_code, read_escape, read_items, read_members,
    read_number, read_string, read_text, read_value, skip_blank, stands,
};
use crate::text::{chars_of, copy_range, string_of};
use crate::value::{
    items_view, lemma_array_view, lemma_items_push, lemma_members_push, lemma_object_view,
    members_view, Json, JsonValue, Number, Object,
};
use vstd::prelude::*;

verus! {

fn get(s: &Vec<char>, i: usize) -> (r: Option<char>)
    ensures
        r == at(s@, i as int),
{
    if i < s.len() {
        Some(s[i])
    } else {
        None
    }
}

fn blank_end(s: &Vec<char>, from: usize) -> (r: usize)
    requires
        from <= s.len(),
    ensures
        r == skip_blank(s@, from as int),
        from <= r <= s.len(),
{
    let mut i: usize = from;
    while i < s.len() && (s[i] == ' ' || s[i] == '\t' || s[i] == '\n' || s[i] == '\r')
        invariant
            from <= i <= s.len(),
            skip_blank(s@, from as int) == skip_blank(s@, i as int),
        decreases s.len() - i,
    {
        i += 1;
    }
    i
}

fn code_at(s: &Vec<char>, i: usize) -> (r: Option<u32>)
    requires
        i <= s.len(),
    ensures
        match r {
            Some(code) => read_code(s@, i as int) == Some(code as int) && code <= 0xffff && i + 4
                <= s.len(),
            None => read_code(s@, i as int) is None,
        },
{
    if s.len() - i < 4 {
        return None;
    }
    match (
        hex_digit_value(s[i]),
        hex_digit_value(s[i + 1]),
        hex_digit_value(s[i + 2]),
        hex_digit_value(s[i + 3]),
    ) {
        (Some(a), Some(b), Some(c), Some(d)) => Some(((a * 16 + b) * 16 + c) * 16 + d),
        _ => None,
    }
}

/// The character of the escape at `i` that names a code, and the place after it.
fn code_escape_at(s: &Vec<char>, i: usize) -> (r: Option<(char, usize)>)
    requires
        i < s.len(),
        s@[i as int] == 'u',
    ensures
        match r {
            Some((c, next)) => read_escape(s@, i as int) == Some((c, next as int)) && i < next
                <= s.len(),
            None => read_escape(s@, i as int) is None,
        },
{
    match code_at(s, i + 1) {
        None => None,
        Some(high) => if 0xd800 <= high && high <= 0xdbff {
            if s.len() - i < 7 || s[i + 5] != '\\' || s[i + 6] != 'u' {
                return None;
            }
            match code_at(s, i + 7) {
                Some(low) => if 0xdc00 <= low && low <= 0xdfff {
                    let code: u32 = 0x10000 + (high - 0xd800) * 1024 + (low - 0xdc00);
                    match char::from_u32(code) {
                        Some(c) => Some((c, i + 11)),
                        None => None,
                    }
                } else {
                    None
                },
                None => None,
            }
        } else {
            match char::from_u32(high) {
                Some(c) => Some((c, i + 5)),
                None => None,
            }
        },
    }
}

fn escape_at(s: &Vec<char>, i: usize) -> (r: Option<(char, usize)>)
    requires
        i <= s.len(),
    ensures
        match r {
            Some((c, next)) => read_escape(s@, i as int) == Some((c, next as int)) && i < next
                <= s.len(),
            None => read_escape(s@, i as int) is None,
        },
{
    match get(s, i) {
        Some('"') => Some(('"', i + 1)),
        Some('\\') => Some(('\\', i + 1)),
        Some('/') => Some(('/', i + 1)),
        Some('b') => Some(('\u{8}', i + 1)),
        Some('f') => Some(('\u{c}', i + 1)),
        Some('n') => Some(('\n', i + 1)),
        Some('r') => Some(('\r', i + 1)),
        Some('t') => Some(('\t', i + 1)),
        Some('u') => code_escape_at(s, i),
        _ => None,
    }
}

fn string_at(s: &Vec<char>, from: usize) -> (r: Option<(Vec<char>, usize)>)
    requires
        from <= s.len(),
    ensures
        match r {
            Some((t, next)) => read_string(s@, from as int, Seq::empty()) == Some(
                (t@, next as int),
            ) && from < next <= s.len(),
            None => read_string(s@, from as int, Seq::empty()) is None,
        },
{
    let mut out: Vec<char> = Vec::new();
    let mut i: usize = from;
    assert(out@ =~= Seq::empty());
    while i < s.len()
        invariant
            from <= i <= s.len(),
            read_string(s@, from as int, Seq::empty()) == read_string(s@, i as int, out@),
        decreases s.len() - i,
    {
        let c = s[i];
        if c == '"' {
            return Some((out, i + 1));
        }
        if c == '\\' {
            match escape_at(s, i + 1) {
                Some((e, next)) => {
                    out.push(e);
                    i = next;
                },
                None => {
                    return None;
                },
            }
            continue;
        }
        if c <= '\u{1f}' {
            return None;
        }
        out.push(c);
        i += 1;
    }
    None
}

fn number_char(c: char) -> (r: bool)
    ensures
        r == is_number_char(c),
{
    ('0' <= c && c <= '9') || c == '-' || c == '+' || c == '.' || c == 'e' || c == 'E'
}

fn number_run_end(s: &Vec<char>, from: usize) -> (r: usize)
    requires
        from <= s.len(),
    ensures
        r == number_end(s@, from as int),
        from <= r <= s.len(),
{
    let mut i: usize = from;
    while i < s.len() && number_char(s[i])
        invariant
            from <= i <= s.len(),
            number_end(s@, from as int) == number_end(s@, i as int),
        decreases s.len() - i,
    {
        i += 1;
    }
    i
}

fn digits_end(t: &Vec<char>, from: usize) -> (r: usize)
    requires
        from <= t.len(),
    ensures
        r == digit_run(t@, from as int),
        from <= r <= t.len(),
        forall|k: int| from <= k < r ==> '0' <= #[trigger] t@[k] <= '9',
{
    let mut i: usize = from;
    while i < t.len() && '0' <= t[i] && t[i] <= '9'
        invariant
            from <= i <= t.len(),
            digit_run(t@, from as int) == digit_run(t@, i as int),
            forall|k: int| from <= k < i ==> '0' <= #[trigger] t@[k] <= '9',
        decreases t.len() - i,
    {
        i += 1;
    }
    i
}

fn exponent_ends(t: &Vec<char>, i: usize) -> (r: bool)
    requires
        i <= t.len(),
    ensures
        r == ends_with_exponent(t@, i as int),
{
    if i >= t.len() || !(t[i] == 'e' || t[i] == 'E') {
        return false;
    }
    let from: usize = if i + 1 < t.len() && (t[i + 1] == '+' || t[i + 1] == '-') {
        i + 2
    } else {
        i + 1
    };
    let end = digits_end(t, from);
    from < end && end == t.len()
}

fn float_text(t: &Vec<char>) -> (r: bool)
    ensures
        r == is_float_text(t@),
{
    let start: usize = if t.len() > 0 && t[0] == '-' {
        1
    } else {
        0
    };
    let whole = digits_end(t, start);
    if !(start < whole && whole < t.len()) || (t[start] == '0' && whole != start + 1) {
        return false;
    }
    if t[whole] == '.' {
        let end = digits_end(t, whole + 1);
        end > whole + 1 && (end == t.len() || exponent_ends(t, end))
    } else {
        exponent_ends(t, whole)
    }
}

fn integer_text(t: &Vec<char>) -> (r: bool)
    ensures
        r == is_integer_text(t@),
{
    let start: usize = if t.len() > 0 && t[0] == '-' {
        1
    } else {
        0
    };
    let ghost digits = t@.skip(start as int);
    let end = digits_end(t, start);
    proof {
        if start == 0 {
            assert(digits =~= t@);
        }
        assert(digits.len() == t@.len() - start);
        assert forall|k: int| start <= k < t@.len() implies #[trigger] t@[k] == digits[k
            - start] by {}
        if end < t.len() {
            lemma_run_stops(t@, start as int);
            assert(digits[end - start] == t@[end as int]);
        }
    }
    start < t.len() && end == t.len() && !(t[start] == '0' && t.len() - start != 1)
}

proof fn lemma_run_stops(t: Seq<char>, i: int)
    requires
        0 <= i <= t.len(),
    ensures
        digit_run(t, i) < t.len() ==> !('0' <= t[digit_run(t, i)] <= '9'),
    decreases t.len() - i,
{
    if i < t.len() && '0' <= t[i] <= '9' {
        lemma_run_stops(t, i + 1);
    }
}

fn number_of_text(t: &Vec<char>) -> (r: Option<Number>)
    ensures
        match r {
            Some(n) => read_number(t@) == Some(n@) && t@.len() > 0,
            None => read_number(t@) is None,
        },
{
    if float_text(t) {
        return Some(Number::Float(string_of(t)));
    }
    if !integer_text(t) {
        return None;
    }
    match parse_integer(t) {
        Some(Number::PosInt(n)) => if n == 0 && t[0] == '-' {
            Some(Number::Float(string_of(t)))
        } else {
            Some(Number::PosInt(n))
        },
        Some(Number::NegInt(n)) => if n == 0 && t[0] == '-' {
            Some(Number::Float(string_of(t)))
        } else {
            Some(Number::NegInt(n))
        },
        _ => Some(Number::Float(string_of(t))),
    }
}

fn word_stands(s: &Vec<char>, i: usize, word: &Vec<char>) -> (r: bool)
    requires
        i <= s.len(),
    ensures
        r == stands(s@, i as int, word@),
{
    if s.len() - i < word.len() {
        return false;
    }
    let mut k: usize = 0;
    while k < word.len()
        invariant
            k <= word.len(),
            i + word.len() <= s.len(),
            forall|j: int| 0 <= j < k ==> s@[i + j] == #[trigger] word@[j],
        decreases word.len() - k,
    {
        if s[i + k] != word[k] {
            assert(s@.subrange(i as int, i + word.len())[k as int] != word@[k as int]);
            return false;
        }
        k += 1;
    }
    assert(s@.subrange(i as int, i + word.len()) =~= word@);
    true
}

/// The word of JSON at `i`, if there is one, and the place after it.
fn literal_at(s: &Vec<char>, i: usize) -> (r: Option<(JsonValue, usize)>)
    requires
        i <= s.len(),
    ensures
        match r {
            Some((v, next)) => i < next <= s.len() && (if stands(
                s@,
                i as int,
                seq!['n', 'u', 'l', 'l'],
            ) {
                v@ == Json::Null && next == i + 4
            } else if stands(s@, i as int, seq!['t', 'r', 'u', 'e']) {
                v@ == Json::Bool(true) && next == i + 4
            } else {
                stands(s@, i as int, seq!['f', 'a', 'l', 's', 'e']) && v@ == Json::Bool(false)
                    && next == i + 5
            }),
            None => !stands(s@, i as int, seq!['n', 'u', 'l', 'l']) && !stands(
                s@,
                i as int,
                seq!['t', 'r', 'u', 'e'],
            ) && !stands(s@, i as int, seq!['f', 'a', 'l', 's', 'e']),
        },
{
    let null: Vec<char> = vec!['n', 'u', 'l', 'l'];
    let yes: Vec<char> = vec!['t', 'r', 'u', 'e'];
    let no: Vec<char> = vec!['f', 'a', 'l', 's', 'e'];
    assert(null@ =~= seq!['n', 'u', 'l', 'l']);
    assert(yes@ =~= seq!['t', 'r', 'u', 'e']);
    assert(no@ =~= seq!['f', 'a', 'l', 's', 'e']);
    if word_stands(s, i, &null) {
        Some((JsonValue::Null, i + 4))
    } else if word_stands(s, i, &yes) {
        Some((JsonValue::Bool(true), i + 4))
    } else if word_stands(s, i, &no) {
        Some((JsonValue::Bool(false), i + 5))
    } else {
        None
    }
}

/// Whether a reading gave what the standard says.
spec fn tells(
    r: Option<(JsonValue, usize)>,
    from: int,
    to: int,
    read: Option<(Json, int)>,
) -> bool {
    match r {
        Some((v, next)) => read == Some((v@, next as int)) && from < next <= to,
        None => read is None,
    }
}

fn value_at(s: &Vec<char>, i: usize) -> (r: Option<(JsonValue, usize)>)
    requires
        i <= s.len(),
    ensures
        tells(r, i as int, s.len() as int, read_value(s@, i as int)),
    decreases s.len() - i, 0int,
{
    if i >= s.len() {
        return None;
    }
    let c = s[i];
    if c == '[' {
        let first = blank_end(s, i + 1);
        if get(s, first) == Some(']') {
            let items: Vec<JsonValue> = Vec::new();
            proof {
                lemma_array_view(items);
                assert(items_view(items@) =~= Seq::empty());
            }
            return Some((JsonValue::Array(items), first + 1));
        }
        return items_at(s, first);
    }
    if c == '{' {
        let first = blank_end(s, i + 1);
        if get(s, first) == Some('}') {
            let object = Object::new();
            proof {
                lemma_object_view(object);
            }
            return Some((JsonValue::Object(object), first + 1));
        }
        return members_at(s, first);
    }
    if c == '"' {
        return match string_at(s, i + 1) {
            Some((t, next)) => Some((JsonValue::String(string_of(&t)), next)),
            None => None,
        };
    }
    match literal_at(s, i) {
        Some((v, next)) => {
            return Some((v, next));
        },
        None => {},
    }
    let end = number_run_end(s, i);
    let t = copy_range(s, i, end);
    match number_of_text(&t) {
        Some(n) => Some((JsonValue::Number(n), end)),
        None => None,
    }
}

fn items_at(s: &Vec<char>, from: usize) -> (r: Option<(JsonValue, usize)>)
    requires
        from <= s.len(),
    ensures
        tells(r, from as int, s.len() as int, read_items(s@, from as int, Seq::empty())),
    decreases s.len() - from, 1int,
{
    let mut items: Vec<JsonValue> = Vec::new();
    let mut i: usize = from;
    assert(items_view(items@) =~= Seq::empty());
    loop
        invariant
            from <= i <= s.len(),
            read_items(s@, from as int, Seq::empty()) == read_items(
                s@,
                i as int,
                items_view(items@),
            ),
        decreases s.len() - i,
    {
        match value_at(s, i) {
            None => {
                return None;
            },
            Some((v, next)) => {
                let end = blank_end(s, next);
                proof {
                    lemma_items_push(items@, v);
                }
                items.push(v);
                if get(s, end) == Some(']') {
                    proof {
                        lemma_array_view(items);
                    }
                    return Some((JsonValue::Array(items), end + 1));
                }
                if get(s, end) != Some(',') {
                    return None;
                }
                i = blank_end(s, end + 1);
            },
        }
    }
}

fn members_at(s: &Vec<char>, from: usize) -> (r: Option<(JsonValue, usize)>)
    requires
        from <= s.len(),
    ensures
        tells(r, from as int, s.len() as int, read_members(s@, from as int, Seq::empty())),
    decreases s.len() - from, 1int,
{
    let mut entries: Vec<(String, JsonValue)> = Vec::new();
    let mut i: usize = from;
    assert(members_view(entries@) =~= Seq::empty());
    loop
        invariant
            from <= i <= s.len(),
            read_members(s@, from as int, Seq::empty()) == read_members(
                s@,
                i as int,
                members_view(entries@),
            ),
        decreases s.len() - i,
    {
        if get(s, i) != Some('"') {
            return None;
        }
        let (key, next) = match string_at(s, i + 1) {
            Some((key, next)) => (key, next),
            None => {
                return None;
            },
        };
        let colon = blank_end(s, next);
        if get(s, colon) != Some(':') {
            return None;
        }
        let start = blank_end(s, colon + 1);
        match value_at(s, start) {
            None => {
                return None;
            },
            Some((v, next)) => {
                let end = blank_end(s, next);
                let entry = (string_of(&key), v);
                proof {
                    lemma_members_push(entries@, entry);
                }
                entries.push(entry);
                if get(s, end) == Some('}') {
                    let object = Object { entries };
                    proof {
                        lemma_object_view(object);
                    }
                    return Some((JsonValue::Object(object), end + 1));
                }
                if get(s, end) != Some(',') {
                    return None;
                }
                i = blank_end(s, end + 1);
            },
        }
    }
}

/// Reads a JSON text by the standard. Every member that is written is kept, also one whose key
/// comes again.
pub fn read_json(text: &str) -> (r: Option<JsonValue>)
    ensures
        match r {
            Some(v) => read_text(text@) == Some(v@),
            None => read_text(text@) is None,
        },
{
    let s = chars_of(text);
    match value_at(&s, blank_end(&s, 0)) {
        Some((v, next)) => if blank_end(&s, next) == s.len() {
            Some(v)
        } else {
            None
        },
        None => None,
    }
}

} // verus!
