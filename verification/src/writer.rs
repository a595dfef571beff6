//! JSON text, in the compact form of Python's `json.dumps`.

use crate::value::{
    items_view, lemma_array_view, lemma_object_view, Json, JsonValue, Num, Number, Object,
};
use vstd::prelude::*;

verus! {

/// The small hexadecimal digit with the given value.
pub open spec fn hex_char(d: int) -> char {
    if d < 10 {
        ('0' as int + d) as char
    } else {
        ('a' as int + d - 10) as char
    }
}

/// The escape of a code of 16 bits.
pub open spec fn unicode_escape(code: int) -> Seq<char> {
    seq![
        '\\',
        'u',
        hex_char(code / 4096 % 16),
        hex_char(code / 256 % 16),
        hex_char(code / 16 % 16),
        hex_char(code % 16),
    ]
}

/// The escape of a character outside ASCII: one code of 16 bits, or a pair of surrogates.
pub open spec fn ascii_escape(c: char) -> Seq<char> {
    let code = c as int;
    if code <= 0xffff {
        unicode_escape(code)
    } else {
        unicode_escape(0xd800 + (code - 0x10000) / 1024) + unicode_escape(
            0xdc00 + (code - 0x10000) % 1024,
        )
    }
}

/// A character as it stands in a JSON string.
pub open spec fn escaped_char(c: char, ensure_ascii: bool) -> Seq<char> {
    if c == '"' {
        seq!['\\', '"']
    } else if c == '\\' {
        seq!['\\', '\\']
    } else if c == '\n' {
        seq!['\\', 'n']
    } else if c == '\r' {
        seq!['\\', 'r']
    } else if c == '\t' {
        seq!['\\', 't']
    } else if c == '\u{8}' {
        seq!['\\', 'b']
    } else if c == '\u{c}' {
        seq!['\\', 'f']
    } else if c <= '\u{1f}' {
        unicode_escape(c as int)
    } else if ensure_ascii && !(c <= '\u{7f}') {
        ascii_escape(c)
    } else {
        seq![c]
    }
}

/// The characters of a text as they stand in a JSON string.
pub open spec fn escaped(t: Seq<char>, ensure_ascii: bool) -> Seq<char>
    decreases t.len(),
{
    if t.len() == 0 {
        Seq::empty()
    } else {
        escaped(t.drop_last(), ensure_ascii) + escaped_char(t.last(), ensure_ascii)
    }
}

/// A text as a JSON string.
pub open spec fn string_text(t: Seq<char>, ensure_ascii: bool) -> Seq<char> {
    seq!['"'] + escaped(t, ensure_ascii) + seq!['"']
}

/// The decimal digits of a natural number.
pub open spec fn digits_text(n: int) -> Seq<char>
    decreases n,
{
    if n < 10 {
        seq![('0' as int + n) as char]
    } else {
        digits_text(n / 10).push(('0' as int + n % 10) as char)
    }
}

/// A number as JSON text.
pub open spec fn number_text(n: Num) -> Seq<char> {
    match n {
        Num::Int(i) => if i < 0 {
            seq!['-'] + digits_text(-i)
        } else {
            digits_text(i)
        },
        Num::Float(text) => text,
    }
}

/// A value as JSON text, with one space after each comma and colon.
pub open spec fn rendered(v: Json, ensure_ascii: bool) -> Seq<char>
    decreases v, 0int,
{
    match v {
        Json::Null => seq!['n', 'u', 'l', 'l'],
        Json::Bool(true) => seq!['t', 'r', 'u', 'e'],
        Json::Bool(false) => seq!['f', 'a', 'l', 's', 'e'],
        Json::Number(n) => number_text(n),
        Json::String(t) => string_text(t, ensure_ascii),
        Json::Array(items) => seq!['['] + rendered_items(items, ensure_ascii, items.len() as int)
            + seq![']'],
        Json::Object(members) => seq!['{'] + rendered_members(
            members,
            ensure_ascii,
            members.len() as int,
        ) + seq!['}'],
    }
}

/// The first `count` items of an array as JSON text.
pub open spec fn rendered_items(items: Seq<Json>, ensure_ascii: bool, count: int) -> Seq<char>
    decreases items, count,
{
    if 0 < count <= items.len() {
        rendered_items(items, ensure_ascii, count - 1) + (if count > 1 {
            seq![',', ' ']
        } else {
            Seq::empty()
        }) + rendered(items[count - 1], ensure_ascii)
    } else {
        Seq::empty()
    }
}

/// A member of an object as JSON text.
pub open spec fn rendered_member(member: (Seq<char>, Json), ensure_ascii: bool) -> Seq<char>
    decreases member, 0int,
{
    string_text(member.0, ensure_ascii) + seq![':', ' '] + rendered(member.1, ensure_ascii)
}

/// The first `count` members of an object as JSON text.
pub open spec fn rendered_members(
    members: Seq<(Seq<char>, Json)>,
    ensure_ascii: bool,
    count: int,
) -> Seq<char>
    decreases members, count,
{
    if 0 < count <= members.len() {
        rendered_members(members, ensure_ascii, count - 1) + (if count > 1 {
            seq![',', ' ']
        } else {
            Seq::empty()
        }) + rendered_member(members[count - 1], ensure_ascii)
    } else {
        Seq::empty()
    }
}

/// Texts one after the other, with a comma and a space between them.
pub open spec fn joined(parts: Seq<Seq<char>>) -> Seq<char>
    decreases parts.len(),
{
    if parts.len() == 0 {
        Seq::empty()
    } else if parts.len() == 1 {
        parts[0]
    } else {
        joined(parts.drop_last()) + seq![',', ' '] + parts.last()
    }
}

/// The texts of the items of an array.
pub open spec fn item_texts(items: Seq<Json>, ensure_ascii: bool) -> Seq<Seq<char>> {
    items.map_values(|item: Json| rendered(item, ensure_ascii))
}

/// The texts of the members of an object: the key, a colon and a space, the value.
pub open spec fn member_texts(members: Seq<(Seq<char>, Json)>, ensure_ascii: bool) -> Seq<
    Seq<char>,
> {
    members.map_values(
        |member: (Seq<char>, Json)|
            string_text(member.0, ensure_ascii) + seq![':', ' '] + rendered(
                member.1,
                ensure_ascii,
            ),
    )
}

/// An array is written as its items between brackets, joined, and an object as its members
/// between braces, joined, in their order. Without any, the brackets or braces are all. The
/// other values but numbers and strings are words.
pub proof fn lemma_values_are_written_by_parts(
    items: Seq<Json>,
    members: Seq<(Seq<char>, Json)>,
    ensure_ascii: bool,
)
    ensures
        rendered(Json::Array(items), ensure_ascii) == seq!['['] + joined(
            item_texts(items, ensure_ascii),
        ) + seq![']'],
        rendered(Json::Object(members), ensure_ascii) == seq!['{'] + joined(
            member_texts(members, ensure_ascii),
        ) + seq!['}'],
        rendered(Json::Array(Seq::empty()), ensure_ascii) == seq!['[', ']'],
        rendered(Json::Object(Seq::empty()), ensure_ascii) == seq!['{', '}'],
        rendered(Json::Null, ensure_ascii) == seq!['n', 'u', 'l', 'l'],
        rendered(Json::Bool(true), ensure_ascii) == seq!['t', 'r', 'u', 'e'],
        rendered(Json::Bool(false), ensure_ascii) == seq!['f', 'a', 'l', 's', 'e'],
{
    lemma_items_joined(items, ensure_ascii, items.len() as int);
    lemma_members_joined(members, ensure_ascii, members.len() as int);
    let texts = item_texts(items, ensure_ascii);
    assert(texts.take(texts.len() as int) =~= texts);
    let texts = member_texts(members, ensure_ascii);
    assert(texts.take(texts.len() as int) =~= texts);
    let none = rendered(Json::Array(Seq::empty()), ensure_ascii);
    assert(none =~= seq!['[', ']']);
    let none = rendered(Json::Object(Seq::empty()), ensure_ascii);
    assert(none =~= seq!['{', '}']);
}

proof fn lemma_items_joined(items: Seq<Json>, ensure_ascii: bool, count: int)
    requires
        0 <= count <= items.len(),
    ensures
        rendered_items(items, ensure_ascii, count) == joined(
            item_texts(items, ensure_ascii).take(count),
        ),
    decreases count,
{
    if count > 0 {
        lemma_items_joined(items, ensure_ascii, count - 1);
        let parts = item_texts(items, ensure_ascii).take(count);
        assert(parts.drop_last() =~= item_texts(items, ensure_ascii).take(count - 1));
        assert(parts.last() == rendered(items[count - 1], ensure_ascii));
        if count == 1 {
            assert(rendered_items(items, ensure_ascii, 0) =~= Seq::empty());
            assert(rendered_items(items, ensure_ascii, 1) =~= parts[0]);
        }
    }
}

proof fn lemma_members_joined(
    members: Seq<(Seq<char>, Json)>,
    ensure_ascii: bool,
    count: int,
)
    requires
        0 <= count <= members.len(),
    ensures
        rendered_members(members, ensure_ascii, count) == joined(
            member_texts(members, ensure_ascii).take(count),
        ),
    decreases count,
{
    if count > 0 {
        lemma_members_joined(members, ensure_ascii, count - 1);
        let parts = member_texts(members, ensure_ascii).take(count);
        assert(parts.drop_last() =~= member_texts(members, ensure_ascii).take(count - 1));
        assert(rendered_member(members[count - 1], ensure_ascii) == parts.last());
        if count == 1 {
            assert(rendered_members(members, ensure_ascii, 0) =~= Seq::empty());
            assert(rendered_members(members, ensure_ascii, 1) =~= parts[0]);
        }
    }
}

/// Whether a text writes a value, in either of the two ways to write non-ASCII characters.
pub open spec fn is_written(v: Json, text: Seq<char>) -> bool {
    text == rendered(v, true) || text == rendered(v, false)
}

fn push_two(out: &mut String, a: char, b: char)
    ensures
        final(out)@ == old(out)@ + seq![a, b],
{
    out.push(a);
    out.push(b);
    assert(out@ =~= old(out)@ + seq![a, b]);
}

fn hex_digit_char(d: u32) -> (r: char)
    requires
        d < 16,
    ensures
        r == hex_char(d as int),
{
    if d < 10 {
        (48 + d as u8) as char
    } else {
        (97 + (d as u8 - 10)) as char
    }
}

fn push_unicode_escape(code: u32, out: &mut String)
    requires
        code <= 0xffff,
    ensures
        final(out)@ == old(out)@ + unicode_escape(code as int),
{
    push_two(out, '\\', 'u');
    out.push(hex_digit_char(code / 4096 % 16));
    out.push(hex_digit_char(code / 256 % 16));
    out.push(hex_digit_char(code / 16 % 16));
    out.push(hex_digit_char(code % 16));
    assert(out@ =~= old(out)@ + unicode_escape(code as int));
}

fn push_ascii_escape(c: char, out: &mut String)
    ensures
        final(out)@ == old(out)@ + ascii_escape(c),
{
    let code = c as u32;
    if code <= 0xffff {
        push_unicode_escape(code, out);
    } else {
        let adjusted = code - 0x10000;
        push_unicode_escape(0xd800 + adjusted / 1024, out);
        push_unicode_escape(0xdc00 + adjusted % 1024, out);
        assert(out@ =~= old(out)@ + ascii_escape(c));
    }
}

fn push_escaped(c: char, ensure_ascii: bool, out: &mut String)
    ensures
        final(out)@ == old(out)@ + escaped_char(c, ensure_ascii),
{
    match c {
        '"' => push_two(out, '\\', '"'),
        '\\' => push_two(out, '\\', '\\'),
        '\n' => push_two(out, '\\', 'n'),
        '\r' => push_two(out, '\\', 'r'),
        '\t' => push_two(out, '\\', 't'),
        '\u{8}' => push_two(out, '\\', 'b'),
        '\u{c}' => push_two(out, '\\', 'f'),
        c => {
            if c <= '\u{1f}' {
                push_unicode_escape(c as u32, out);
            } else if ensure_ascii && !(c <= '\u{7f}') {
                push_ascii_escape(c, out);
            } else {
                out.push(c);
                assert(out@ =~= old(out)@ + seq![c]);
            }
        },
    }
}

fn write_string(input: &str, ensure_ascii: bool, out: &mut String)
    ensures
        final(out)@ == old(out)@ + string_text(input@, ensure_ascii),
{
    let ghost start = out@;
    out.push('"');
    assert(out@ =~= start + seq!['"'] + escaped(Seq::empty(), ensure_ascii));
    for c in iter: input.chars()
        invariant
            iter.seq() == input@,
            out@ == start + seq!['"'] + escaped(input@.take(iter.index()), ensure_ascii),
    {
        push_escaped(c, ensure_ascii, out);
        proof {
            let k = iter.index();
            let next = input@.take(k + 1);
            assert(next.drop_last() == input@.take(k));
            assert(next.last() == c);
            assert(out@ =~= start + seq!['"'] + escaped(next, ensure_ascii));
        }
    }
    assert(input@.take(input@.len() as int) == input@);
    out.push('"');
    assert(out@ =~= start + string_text(input@, ensure_ascii));
}

fn write_digits(n: u64, out: &mut String)
    ensures
        final(out)@ == old(out)@ + digits_text(n as int),
    decreases n,
{
    if n >= 10 {
        write_digits(n / 10, out);
    }
    out.push((48 + (n % 10) as u8) as char);
    assert(out@ =~= old(out)@ + digits_text(n as int));
}

fn write_number(n: &Number, out: &mut String)
    ensures
        final(out)@ == old(out)@ + number_text(n@),
{
    match n {
        Number::PosInt(u) => write_digits(*u, out),
        Number::NegInt(i) => {
            if *i < 0 {
                out.push('-');
                write_digits((-(*i as i128)) as u64, out);
                assert(out@ =~= old(out)@ + number_text(n@));
            } else {
                write_digits(*i as u64, out);
            }
        },
        Number::Float(text) => out.append(text.as_str()),
    }
}

/// Appends the JSON text of a value.
pub(crate) fn write_value(value: &JsonValue, ensure_ascii: bool, out: &mut String)
    ensures
        final(out)@ == old(out)@ + rendered(value@, ensure_ascii),
    decreases value,
{
    let ghost start = out@;
    match value {
        JsonValue::Null => {
            proof {
                reveal_strlit("null");
            }
            out.append("null");
            assert("null"@ =~= seq!['n', 'u', 'l', 'l']);
        },
        JsonValue::Bool(b) => {
            proof {
                reveal_strlit("true");
                reveal_strlit("false");
            }
            if *b {
                out.append("true");
                assert("true"@ =~= seq!['t', 'r', 'u', 'e']);
            } else {
                out.append("false");
                assert("false"@ =~= seq!['f', 'a', 'l', 's', 'e']);
            }
        },
        JsonValue::Number(number) => write_number(number, out),
        JsonValue::String(string) => write_string(string.as_str(), ensure_ascii, out),
        JsonValue::Array(values) => {
            let ghost items = items_view(values@);
            out.push('[');
            assert(out@ =~= start + seq!['['] + rendered_items(items, ensure_ascii, 0));
            let mut i: usize = 0;
            while i < values.len()
                invariant
                    i <= values.len(),
                    *value == JsonValue::Array(*values),
                    items == items_view(values@),
                    out@ == start + seq!['['] + rendered_items(items, ensure_ascii, i as int),
                decreases values.len() - i,
            {
                if i > 0 {
                    push_two(out, ',', ' ');
                }
                proof {
                    assert(value->Array_0 == *values);
                    assert(decreases_to!(*value => value->Array_0));
                    assert(decreases_to!(value->Array_0 => value->Array_0[i as int]));
                    assert(items[i as int] == values@[i as int]@);
                }
                write_value(&values[i], ensure_ascii, out);
                i += 1;
                assert(out@ =~= start + seq!['['] + rendered_items(items, ensure_ascii, i as int));
            }
            out.push(']');
            proof {
                lemma_array_view(*values);
                assert(out@ =~= start + rendered(value@, ensure_ascii));
            }
        },
        JsonValue::Object(object) => {
            let ghost members = object@;
            out.push('{');
            assert(out@ =~= start + seq!['{'] + rendered_members(members, ensure_ascii, 0));
            let mut i: usize = 0;
            while i < object.entries.len()
                invariant
                    i <= object.entries.len(),
                    *value == JsonValue::Object(*object),
                    members == object@,
                    out@ == start + seq!['{'] + rendered_members(members, ensure_ascii, i as int),
                decreases object.entries.len() - i,
            {
                if i > 0 {
                    push_two(out, ',', ' ');
                }
                proof {
                    assert(value->Object_0 == *object);
                    assert(decreases_to!(*value => value->Object_0));
                    assert(decreases_to!(value->Object_0 => value->Object_0.entries));
                    let entry = value->Object_0.entries[i as int];
                    assert(decreases_to!(value->Object_0.entries => entry));
                    assert(decreases_to!(entry => entry.1));
                    assert(members[i as int] == (entry.0@, entry.1@));
                }
                let ghost led = out@;
                write_string(object.entries[i].0.as_str(), ensure_ascii, out);
                push_two(out, ':', ' ');
                write_value(&object.entries[i].1, ensure_ascii, out);
                assert(out@ =~= led + rendered_member(members[i as int], ensure_ascii));
                i += 1;
                assert(out@ =~= start + seq!['{'] + rendered_members(
                    members,
                    ensure_ascii,
                    i as int,
                ));
            }
            out.push('}');
            proof {
                lemma_object_view(*object);
                assert(out@ =~= start + rendered(value@, ensure_ascii));
            }
        },
    }
}

/// Serialize a value in Python `json.dumps`-like compact form. With `ensure_ascii`, characters
/// outside ASCII are escaped.
pub fn to_json_string(value: &JsonValue, ensure_ascii: bool) -> (r: String)
    ensures
        r@ == rendered(value@, ensure_ascii),
{
    let mut out = String::new();
    write_value(value, ensure_ascii, &mut out);
    assert(out@ =~= rendered(value@, ensure_ascii));
    out
}

} // verus!
