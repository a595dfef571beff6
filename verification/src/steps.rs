//! How JSON is read by the standard, step by step: blanks between tokens do not count, and what
//! is left out or put in elsewhere makes a text no JSON.

use crate::escapes::{digit_of, is_hex};
use crate::quoting::{all_blank, is_blank};
use crate::scan::at;
use crate::standard::{
    lemma_part_stands, lemma_words_start, number_end, read_items, read_members, read_number,
    read_string, read_text, read_value, skip_blank, stands,
};
use crate::value::Json;
use vstd::prelude::*;

verus! {

/// Whether blanks end at `i`.
pub open spec fn blanks_end(s: Seq<char>, i: int) -> bool {
    match at(s, i) {
        Some(c) => !is_blank(c),
        None => true,
    }
}

/// All blanks are skipped, and nothing else.
pub proof fn lemma_blanks(s: Seq<char>, i: int, w: Seq<char>)
    requires
        stands(s, i, w),
        all_blank(w),
        blanks_end(s, i + w.len()),
    ensures
        skip_blank(s, i) == i + w.len(),
    decreases w.len(),
{
    if w.len() > 0 {
        lemma_part_stands(s, i, w, 0, w.len() as int);
        assert(s[i + 0] == w[0]);
        assert(is_blank(w[0]));
        lemma_part_stands(s, i, w, 1, w.len() as int);
        assert(w.subrange(1, w.len() as int) =~= w.skip(1));
        assert forall|k: int| 0 <= k < w.skip(1).len() implies is_blank(
            #[trigger] w.skip(1)[k],
        ) by {
            assert(w.skip(1)[k] == w[k + 1]);
        }
        lemma_blanks(s, i + 1, w.skip(1));
    }
}

/// An opened array: it is empty, or its first item comes after blanks.
pub proof fn lemma_array_opens(s: Seq<char>, i: int, w: Seq<char>)
    requires
        at(s, i) == Some('['),
        stands(s, i + 1, w),
        all_blank(w),
        at(s, i + 1 + w.len()) matches Some(c) && !is_blank(c),
    ensures
        at(s, i + 1 + w.len()) == Some(']') ==> read_value(s, i) == Some(
            (Json::Array(Seq::empty()), i + w.len() + 2),
        ),
        at(s, i + 1 + w.len()) != Some(']') ==> read_value(s, i) == read_items(
            s,
            i + 1 + w.len(),
            Seq::empty(),
        ),
{
    lemma_blanks(s, i + 1, w);
}

/// An opened object: it is empty, or its first member comes after blanks.
pub proof fn lemma_object_opens(s: Seq<char>, i: int, w: Seq<char>)
    requires
        at(s, i) == Some('{'),
        stands(s, i + 1, w),
        all_blank(w),
        at(s, i + 1 + w.len()) matches Some(c) && !is_blank(c),
    ensures
        at(s, i + 1 + w.len()) == Some('}') ==> read_value(s, i) == Some(
            (Json::Object(Seq::empty()), i + w.len() + 2),
        ),
        at(s, i + 1 + w.len()) != Some('}') ==> read_value(s, i) == read_members(
            s,
            i + 1 + w.len(),
            Seq::empty(),
        ),
{
    lemma_blanks(s, i + 1, w);
}

/// After an item of an array comes, behind blanks, the closing bracket, or a comma and the next
/// item. Anything else is no JSON.
pub proof fn lemma_array_goes_on(
    s: Seq<char>,
    i: int,
    start: Seq<Json>,
    v: Json,
    next: int,
    w: Seq<char>,
    after: Seq<char>,
)
    requires
        0 <= i < next,
        read_value(s, i) == Some((v, next)),
        stands(s, next, w),
        all_blank(w),
        blanks_end(s, next + w.len()),
        all_blank(after),
    ensures
        at(s, next + w.len()) == Some(']') ==> read_items(s, i, start) == Some(
            (Json::Array(start.push(v)), next + w.len() + 1),
        ),
        at(s, next + w.len()) == Some(',') && stands(s, next + w.len() + 1, after) && blanks_end(
            s,
            next + w.len() + 1 + after.len(),
        ) ==> read_items(s, i, start) == read_items(
            s,
            next + w.len() + 1 + after.len(),
            start.push(v),
        ),
        at(s, next + w.len()) != Some(']') && at(s, next + w.len()) != Some(',') ==> read_items(
            s,
            i,
            start,
        ) is None,
{
    lemma_blanks(s, next, w);
    let end = next + w.len();
    if at(s, end) == Some(',') && stands(s, end + 1, after) && blanks_end(
        s,
        end + 1 + after.len(),
    ) {
        lemma_blanks(s, end + 1, after);
    }
}

/// A member of an object is a key in quotation marks, a colon behind blanks, and a value behind
/// blanks.
pub proof fn lemma_object_goes_on(
    s: Seq<char>,
    i: int,
    start: Seq<(Seq<char>, Json)>,
    key: Seq<char>,
    key_end: int,
    before_colon: Seq<char>,
    after_colon: Seq<char>,
    v: Json,
    next: int,
    w: Seq<char>,
    after: Seq<char>,
)
    requires
        at(s, i) == Some('"'),
        read_string(s, i + 1, Seq::empty()) == Some((key, key_end)),
        i < key_end,
        all_blank(before_colon),
        all_blank(after_colon),
        stands(s, key_end, before_colon + seq![':'] + after_colon),
        ({
            let from = key_end + before_colon.len() + 1 + after_colon.len();
            &&& at(s, from) matches Some(c) && !is_blank(c)
            &&& read_value(s, from) == Some((v, next))
            &&& from < next
        }),
        stands(s, next, w),
        all_blank(w),
        blanks_end(s, next + w.len()),
        all_blank(after),
    ensures
        at(s, next + w.len()) == Some('}') ==> read_members(s, i, start) == Some(
            (Json::Object(start.push((key, v))), next + w.len() + 1),
        ),
        at(s, next + w.len()) == Some(',') && stands(s, next + w.len() + 1, after) && blanks_end(
            s,
            next + w.len() + 1 + after.len(),
        ) ==> read_members(s, i, start) == read_members(
            s,
            next + w.len() + 1 + after.len(),
            start.push((key, v)),
        ),
        at(s, next + w.len()) != Some('}') && at(s, next + w.len()) != Some(',') ==> read_members(
            s,
            i,
            start,
        ) is None,
{
    let whole = before_colon + seq![':'] + after_colon;
    let b = before_colon.len() as int;
    lemma_part_stands(s, key_end, whole, 0, whole.len() as int);
    lemma_part_stands(s, key_end, whole, 0, b);
    assert(whole.subrange(0, b) =~= before_colon);
    assert(s[key_end + b] == whole[b]);
    lemma_part_stands(s, key_end, whole, b + 1, whole.len() as int);
    assert(whole.subrange(b + 1, whole.len() as int) =~= after_colon);
    lemma_blanks(s, key_end, before_colon);
    lemma_blanks(s, key_end + b + 1, after_colon);
    lemma_blanks(s, next, w);
    let end = next + w.len();
    if at(s, end) == Some(',') && stands(s, end + 1, after) && blanks_end(
        s,
        end + 1 + after.len(),
    ) {
        lemma_blanks(s, end + 1, after);
    }
}

/// What starts no value of JSON: so a comma before a closing mark, a value that was left out, a
/// bare key and a string in other quotation marks make a text no JSON.
pub proof fn lemma_no_json_value(s: Seq<char>, i: int, start: Seq<Json>)
    requires
        match at(s, i) {
            Some(c) => !('0' <= c <= '9') && c != '-' && c != '+' && c != '.' && c != 'e' && c
                != 'E' && c != '"' && c != '[' && c != '{' && c != 'n' && c != 't' && c != 'f',
            None => true,
        },
    ensures
        read_value(s, i) is None,
        read_items(s, i, start) is None,
{
    if 0 <= i < s.len() {
        lemma_words_start(s, i);
        assert(number_end(s, i) == i);
        assert(s.subrange(i, i) =~= Seq::empty());
        assert(read_number(Seq::empty()) is None);
    }
}

/// A member of JSON starts with a quotation mark, and a colon follows its key.
pub proof fn lemma_no_json_member(
    s: Seq<char>,
    i: int,
    start: Seq<(Seq<char>, Json)>,
    key: Seq<char>,
    key_end: int,
    before_colon: Seq<char>,
)
    ensures
        at(s, i) != Some('"') ==> read_members(s, i, start) is None,
        read_string(s, i + 1, Seq::empty()) == Some((key, key_end)) && all_blank(before_colon)
            && stands(s, key_end, before_colon) && blanks_end(s, key_end + before_colon.len())
            && at(s, key_end + before_colon.len()) != Some(':') ==> read_members(
            s,
            i,
            start,
        ) is None,
{
    if stands(s, key_end, before_colon) && all_blank(before_colon) && blanks_end(
        s,
        key_end + before_colon.len(),
    ) {
        lemma_blanks(s, key_end, before_colon);
    }
}

/// The characters and escapes of a string of JSON. A control character, another escape and the
/// end of the text make it none.
pub proof fn lemma_json_string(s: Seq<char>, i: int, start: Seq<char>)
    requires
        0 <= i,
    ensures
        at(s, i) is None ==> read_string(s, i, start) is None,
        at(s, i) == Some('"') ==> read_string(s, i, start) == Some((start, i + 1)),
        at(s, i) matches Some(c) && c as int >= 32 && c != '"' && c != '\\' ==> read_string(
            s,
            i,
            start,
        ) == read_string(s, i + 1, start.push(s[i])),
        at(s, i) matches Some(c) && (c as int) < 32 ==> read_string(s, i, start) is None,
        at(s, i) == Some('\\') ==> match at(s, i + 1) {
            Some('"') => read_string(s, i, start) == read_string(s, i + 2, start.push('"')),
            Some('\\') => read_string(s, i, start) == read_string(s, i + 2, start.push('\\')),
            Some('/') => read_string(s, i, start) == read_string(s, i + 2, start.push('/')),
            Some('b') => read_string(s, i, start) == read_string(s, i + 2, start.push('\u{8}')),
            Some('f') => read_string(s, i, start) == read_string(s, i + 2, start.push('\u{c}')),
            Some('n') => read_string(s, i, start) == read_string(s, i + 2, start.push('\n')),
            Some('r') => read_string(s, i, start) == read_string(s, i + 2, start.push('\r')),
            Some('t') => read_string(s, i, start) == read_string(s, i + 2, start.push('\t')),
            Some('u') => true,
            _ => read_string(s, i, start) is None,
        },
{
}

/// The code of four hexadecimal digits.
pub open spec fn four_digits(a: char, b: char, c: char, d: char) -> int {
    digit_of(a) * 4096 + digit_of(b) * 256 + digit_of(c) * 16 + digit_of(d)
}

/// A code in a string of JSON is the character that has it.
pub proof fn lemma_json_code(
    s: Seq<char>,
    i: int,
    start: Seq<char>,
    a: char,
    b: char,
    c: char,
    d: char,
)
    requires
        stands(s, i, seq!['\\', 'u', a, b, c, d]),
    ensures
        is_hex(a) && is_hex(b) && is_hex(c) && is_hex(d) && !(0xd800 <= four_digits(a, b, c, d)
            <= 0xdfff) ==> read_string(s, i, start) == read_string(
            s,
            i + 6,
            start.push(four_digits(a, b, c, d) as char),
        ),
        !(is_hex(a) && is_hex(b) && is_hex(c) && is_hex(d)) ==> read_string(s, i, start) is None,
        is_hex(a) && is_hex(b) && is_hex(c) && is_hex(d) && 0xdc00 <= four_digits(a, b, c, d)
            <= 0xdfff ==> read_string(s, i, start) is None,
{
    let t = seq!['\\', 'u', a, b, c, d];
    lemma_part_stands(s, i, t, 0, 6);
    assert(s[i + 0] == t[0] && s[i + 1] == t[1] && s[i + 2] == t[2]);
    assert(s[i + 3] == t[3] && s[i + 4] == t[4] && s[i + 5] == t[5]);
}

/// Two codes that are a pair in a string of JSON are one character.
pub proof fn lemma_json_pair(
    s: Seq<char>,
    i: int,
    start: Seq<char>,
    a: char,
    b: char,
    c: char,
    d: char,
    e: char,
    f: char,
    g: char,
    h: char,
)
    requires
        stands(s, i, seq!['\\', 'u', a, b, c, d, '\\', 'u', e, f, g, h]),
        is_hex(a) && is_hex(b) && is_hex(c) && is_hex(d),
        is_hex(e) && is_hex(f) && is_hex(g) && is_hex(h),
        0xd800 <= four_digits(a, b, c, d) <= 0xdbff,
        0xdc00 <= four_digits(e, f, g, h) <= 0xdfff,
    ensures
        read_string(s, i, start) == read_string(
            s,
            i + 12,
            start.push(
                (0x10000 + (four_digits(a, b, c, d) - 0xd800) * 0x400 + (four_digits(e, f, g, h)
                    - 0xdc00)) as char,
            ),
        ),
{
    let t = seq!['\\', 'u', a, b, c, d, '\\', 'u', e, f, g, h];
    lemma_part_stands(s, i, t, 0, 12);
    assert(s[i + 0] == t[0] && s[i + 1] == t[1] && s[i + 2] == t[2]);
    assert(s[i + 3] == t[3] && s[i + 4] == t[4] && s[i + 5] == t[5]);
    assert(s[i + 6] == t[6] && s[i + 7] == t[7] && s[i + 8] == t[8]);
    assert(s[i + 9] == t[9] && s[i + 10] == t[10] && s[i + 11] == t[11]);
}

/// Blanks around a JSON text do not count, and nothing else may come after its value.
pub proof fn lemma_json_text(s: Seq<char>, before: Seq<char>, v: Json, next: int, after: Seq<char>)
    requires
        all_blank(before),
        all_blank(after),
        stands(s, 0, before),
        at(s, before.len() as int) matches Some(c) && !is_blank(c),
        read_value(s, before.len() as int) == Some((v, next)),
        stands(s, next, after),
        blanks_end(s, next + after.len()),
    ensures
        read_text(s) == if next + after.len() == s.len() {
            Some(v)
        } else {
            None
        },
{
    lemma_blanks(s, 0, before);
    lemma_blanks(s, next, after);
}

} // verus!
