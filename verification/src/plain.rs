//! What is written plainly is read as it is written, by the repair as well as by the strict
//! reading.

use crate::chars::is_white;
use crate::gaps::{lemma_no_trivia, lemma_white_run};
use crate::grammar::{
    all_found, array_at, found_added, object_at, repaired, value_at, Failure, Outcome,
};
use crate::lists::{lemma_list_end, lemma_list_item, lemma_object_end};
use crate::members::{all_separators, is_among, lemma_member_by_key, lemma_separators, starts_token};
use crate::number::bare_value;
use crate::quoting::{
    lacks, lemma_closed_string_is_read_whole, lemma_quoted_key_is_read_whole, string_between,
};
use crate::scan::{at, skip_trivia, Context};
use crate::standard::{
    lemma_item_stands, lemma_member_stands, lemma_part_stands, opens_value, stands, start_after,
};
use crate::token::{array_member_starts, bare_rest, object_key, Stops};
use crate::value::{Json, Num};
use crate::words::{
    is_token, is_token_char, lemma_integers, lemma_literal_words, lemma_token_is_read,
    lemma_token_run,
};
use crate::writer::{
    digits_text, escaped, number_text, rendered, rendered_items, rendered_member, rendered_members,
    string_text,
};
use vstd::prelude::*;

verus! {

/// A text that needs no escapes in a string and that the repair takes for nothing else.
pub open spec fn is_plain_text(u: Seq<char>) -> bool {
    &&& forall|k: int|
        0 <= k < u.len() ==> !(#[trigger] u[k] <= '\u{1f}') && u[k] != '"' && u[k] != '\\' && u[k]
            != '}' && u[k] != ']'
    &&& u.len() > 0 ==> !is_white(u[0]) && !is_white(u.last()) && u.last() != '`'
}

/// A value of plain parts. A text in an array is not empty, is no ellipsis and holds no colon,
/// and it is not the last item.
pub open spec fn is_plain(v: Json) -> bool
    decreases v,
{
    match v {
        Json::Null => true,
        Json::Bool(_) => true,
        Json::Number(n) => n matches Num::Int(i) && i64::MIN <= i <= u64::MAX,
        Json::String(u) => is_plain_text(u),
        Json::Array(items) => forall|k: int|
            0 <= k < items.len() ==> is_plain(#[trigger] items[k]) && is_plain_item(
                items[k],
                k + 1 == items.len(),
            ),
        Json::Object(members) => (forall|i: int, j: int|
            0 <= i < j < members.len() ==> (#[trigger] members[i]).0 != (
            #[trigger] members[j]).0) && forall|k: int|
            0 <= k < members.len() ==> is_plain_text((#[trigger] members[k]).0) && lacks(
                members[k].0,
                ':',
            ) && is_plain(members[k].1),
    }
}

pub open spec fn is_plain_item(item: Json, last: bool) -> bool {
    item matches Json::String(u) ==> !last && u.len() > 0 && u != seq!['.', '.', '.'] && lacks(
        u,
        ':',
    )
}

/// Whether what follows at `n`, after closing brackets, is a comma, a closing brace or the end
/// of the text.
pub open spec fn is_calm(s: Seq<char>, n: int) -> bool
    decreases s.len() - n,
{
    match at(s, n) {
        None => true,
        Some(c) => c == ',' || c == '}' || (c == ']' && is_calm(s, n + 1)),
    }
}

/// What must follow a value.
pub open spec fn follows_well(s: Seq<char>, n: int, v: Json, context: Context) -> bool {
    match v {
        Json::Object(_) => true,
        Json::Array(_) => is_calm(s, n),
        _ => is_calm(s, n) && match context {
            Context::ObjectValue => at(s, n) == Some(',') || at(s, n) == Some('}'),
            Context::Array => at(s, n) == Some(',') || at(s, n) == Some(']'),
            _ => false,
        },
    }
}

proof fn lemma_plain_escapes(u: Seq<char>)
    requires
        is_plain_text(u),
    ensures
        escaped(u, false) == u,
    decreases u.len(),
{
    if u.len() > 0 {
        let t = u.drop_last();
        lemma_escapes_itself(t);
        assert(u[u.len() - 1] == u.last());
        assert(t + seq![u.last()] =~= u);
    }
}

/// Without the demand for ASCII, characters other than quotation marks, backslashes and control
/// characters stand for themselves in a string.
pub proof fn lemma_escapes_itself(t: Seq<char>)
    requires
        forall|k: int|
            0 <= k < t.len() ==> !(#[trigger] t[k] <= '\u{1f}') && t[k] != '"' && t[k] != '\\',
    ensures
        escaped(t, false) == t,
    decreases t.len(),
{
    if t.len() > 0 {
        assert(t[t.len() - 1] == t.last());
        lemma_escapes_itself(t.drop_last());
        assert(t.drop_last() + seq![t.last()] =~= t);
    }
}

/// A word or number at `j` that something calm follows is not taken for the key of a member.
proof fn lemma_no_member(s: Seq<char>, j: int, b: Seq<char>)
    requires
        is_token(b),
        lacks(b, ':'),
        stands(s, j, b),
        is_calm(s, j + b.len()),
    ensures
        !array_member_starts(s, j),
{
    let n = j + b.len();
    lemma_part_stands(s, j, b, 0, b.len() as int);
    assert forall|k: int| j <= k < n implies !is_white(#[trigger] s[k]) && !Stops::Key.has(s[k])
        && s[k] != '#' && s[k] != '/' by {
        assert(s[j + (k - j)] == b[k - j]);
        assert(is_token_char(b[k - j]));
    }
    assert(s[j + 0] == b[0]);
    assert(is_token_char(b[0]));
    lemma_token_run(s, j, n, Stops::Key, Context::ObjectKey, Seq::empty());
    lemma_calm_run(s, n, Seq::empty() + s.subrange(j, n));
    lemma_no_trivia(s, j);
    let k = object_key(s, j).1;
    lemma_no_trivia(s, k);
}

proof fn lemma_calm_run(s: Seq<char>, n: int, out: Seq<char>)
    requires
        0 <= n <= s.len(),
        is_calm(s, n),
    ensures
        ({
            let k = bare_rest(s, n, Stops::Key, Context::ObjectKey, out).1;
            at(s, k) is None || at(s, k) == Some(',') || at(s, k) == Some('}')
        }),
    decreases s.len() - n,
{
    if at(s, n) == Some(']') {
        lemma_calm_run(s, n + 1, out.push(s[n]));
    }
}

/// A plain string that a comma follows is not taken for the key of a member.
proof fn lemma_string_is_no_member(s: Seq<char>, j: int, u: Seq<char>)
    requires
        is_plain_text(u),
        lacks(u, ':'),
        stands(s, j, string_between('"', u, '"')),
        at(s, j + u.len() + 2) == Some(','),
    ensures
        !array_member_starts(s, j),
{
    let none = Seq::<char>::empty();
    assert(none + u + none + none =~= u);
    assert(s.subrange(j + u.len() + 2, j + u.len() + 2) =~= none);
    assert forall|k: int| 0 <= k < u.len() implies #[trigger] u[k] != '\n' && u[k] != '\r' by {}
    lemma_quoted_key_is_read_whole(s, j, '"', '"', none, u, none, none, none);
    lemma_no_trivia(s, j + u.len() + 2);
}

/// A plain value is read as it is written, with any text before it.
pub proof fn lemma_plain_value(s: Seq<char>, i: int, v: Json, context: Context, strict: bool)
    requires
        is_plain(v),
        stands(s, i, rendered(v, false)),
        v is Object || v is Array || context == Context::ObjectValue || context == Context::Array,
        follows_well(s, i + rendered(v, false).len(), v, context),
    ensures
        value_at(s, i, context, strict) == Outcome::Value(v, i + rendered(v, false).len()),
    decreases v, 0int,
{
    let t = rendered(v, false);
    let n = i + t.len();
    let none = Seq::<char>::empty();
    lemma_part_stands(s, i, t, 0, t.len() as int);
    match v {
        Json::String(u) => {
            lemma_plain_escapes(u);
            assert(none + u + none + none =~= u);
            assert(t =~= string_between('"', u, '"'));
            assert(s.subrange(n, n) =~= none);
            lemma_closed_string_is_read_whole(s, i, '"', '"', none, u, none, none, none, strict);
        },
        Json::Array(items) => {
            let inner = rendered_items(items, false, items.len() as int);
            assert(s[i + 0] == t[0]);
            assert(s[i + (t.len() - 1)] == t[t.len() - 1]);
            lemma_part_stands(s, i, t, 1, t.len() - 1);
            assert(t.subrange(1, t.len() - 1) =~= inner);
            lemma_no_trivia(s, i);
            assert(items.take(0) =~= Seq::empty());
            assert(all_plain_items(items));
            lemma_plain_items(s, i + 1, items, 0, strict);
        },
        Json::Object(members) => {
            let inner = rendered_members(members, false, members.len() as int);
            assert(s[i + 0] == t[0]);
            assert(s[i + (t.len() - 1)] == t[t.len() - 1]);
            lemma_part_stands(s, i, t, 1, t.len() - 1);
            assert(t.subrange(1, t.len() - 1) =~= inner);
            lemma_no_trivia(s, i);
            assert(members.take(0) =~= Seq::empty());
            assert(all_plain_members(members));
            lemma_plain_members(s, i + 1, members, 0, strict);
        },
        _ => {
            lemma_plain_token(v);
            assert(s.subrange(n, n) =~= none);
            lemma_token_is_read(s, i, t, none, context, strict);
        },
    }
}

/// The text of a plain word or number is a token, and that value.
proof fn lemma_plain_token(v: Json)
    requires
        is_plain(v),
        v is Null || v is Bool || v is Number,
    ensures
        is_token(rendered(v, false)),
        lacks(rendered(v, false), ':'),
        bare_value(rendered(v, false)) == v,
{
    let t = rendered(v, false);
    match v {
        Json::Number(Num::Int(i)) => {
            lemma_integers(i);
            lemma_number_chars(i);
        },
        _ => {
            lemma_literal_words(t);
        },
    }
}

proof fn lemma_number_chars(i: int)
    ensures
        is_token(number_text(Num::Int(i))),
        lacks(number_text(Num::Int(i)), ':'),
{
    let b = number_text(Num::Int(i));
    let n = if i < 0 {
        -i
    } else {
        i
    };
    lemma_digit_chars(n);
    assert forall|k: int| 0 <= k < b.len() implies is_token_char(#[trigger] b[k]) && b[k] != ':'
        && (k > 0 || i >= 0 ==> '0' <= b[k] <= '9') by {
        if i < 0 && k > 0 {
            assert(b[k] == digits_text(n)[k - 1]);
        }
    }
    assert(b[b.len() - 1] == b.last());
}

proof fn lemma_digit_chars(n: int)
    requires
        0 <= n,
    ensures
        digits_text(n).len() > 0,
        forall|k: int| 0 <= k < digits_text(n).len() ==> '0' <= #[trigger] digits_text(n)[k] <= '9',
    decreases n,
{
    if n >= 10 {
        lemma_digit_chars(n / 10);
    }
}

spec fn all_plain_items(items: Seq<Json>) -> bool {
    forall|k: int|
        0 <= k < items.len() ==> is_plain(#[trigger] items[k]) && is_plain_item(
            items[k],
            k + 1 == items.len(),
        )
}

spec fn all_plain_members(members: Seq<(Seq<char>, Json)>) -> bool {
    &&& forall|i: int, j: int|
        0 <= i < j < members.len() ==> (#[trigger] members[i]).0 != (#[trigger] members[j]).0
    &&& forall|k: int|
        0 <= k < members.len() ==> is_plain_text((#[trigger] members[k]).0) && lacks(
            members[k].0,
            ':',
        ) && is_plain(members[k].1)
}

/// Where the reading goes on for item or member `k` after those before it.
spec fn place_after(before: Seq<char>, k: int) -> int {
    before.len() + if k > 0 {
        1int
    } else {
        0
    }
}

proof fn lemma_plain_items(s: Seq<char>, i: int, items: Seq<Json>, k: int, strict: bool)
    requires
        0 <= k <= items.len(),
        all_plain_items(items),
        stands(s, i, rendered_items(items, false, items.len() as int)),
        at(s, i + rendered_items(items, false, items.len() as int).len()) == Some(']'),
        is_calm(s, i + rendered_items(items, false, items.len() as int).len() + 1),
    ensures
        array_at(
            s,
            i + if k < items.len() {
                place_after(rendered_items(items, false, k), k)
            } else {
                rendered_items(items, false, k).len() as int
            },
            ']',
            strict,
            items.take(k),
        ) == Outcome::Value(
            Json::Array(items),
            i + rendered_items(items, false, items.len() as int).len() + 1,
        ),
    decreases items, items.len() - k,
{
    let none = Seq::<char>::empty();
    let whole = rendered_items(items, false, items.len() as int);
    if k == items.len() {
        let n = i + whole.len();
        assert(items.take(k) =~= items);
        assert(s.subrange(n, n) =~= none);
        lemma_list_end(s, n, ']', strict, items, none);
    } else {
        let before = rendered_items(items, false, k);
        let place = i + place_after(before, k);
        let start = i + start_after(before, k);
        let item = items[k];
        let text = rendered(item, false);
        let end = start + text.len();
        lemma_item_stands(s, i, items, false, k);
        assert(is_plain(item) && is_plain_item(item, k + 1 == items.len()));
        if k + 1 < items.len() {
            lemma_item_stands(s, i, items, false, k + 1);
        }
        assert(at(s, end) == Some(
            if k + 1 < items.len() {
                ','
            } else {
                ']'
            },
        ));
        assert(is_calm(s, end));
        lemma_plain_value(s, start, item, Context::Array, strict);
        let gap = s.subrange(place, start);
        assert(all_separators(gap)) by {
            assert forall|q: int| 0 <= q < gap.len() implies is_white(#[trigger] gap[q]) by {
                assert(gap[q] == s[place + q]);
            }
        }
        lemma_first_of(item, s, start);
        match item {
            Json::String(u) => {
                lemma_plain_escapes(u);
                assert(text =~= string_between('"', u, '"'));
                lemma_string_is_no_member(s, start, u);
            },
            Json::Array(_) => {},
            Json::Object(_) => {},
            _ => {
                lemma_plain_token(item);
                lemma_no_member(s, start, text);
            },
        }
        lemma_list_item(s, place, ']', strict, items.take(k), gap, item, end);
        lemma_no_trivia(s, end);
        assert(items.take(k).push(item) =~= items.take(k + 1));
        lemma_plain_items(s, i, items, k + 1, strict);
    }
}

/// The first character of a plain value opens it.
proof fn lemma_first_of(v: Json, s: Seq<char>, i: int)
    requires
        is_plain(v),
        stands(s, i, rendered(v, false)),
    ensures
        at(s, i) matches Some(c) && opens_value(c),
        starts_token(s, i),
        v is Array ==> at(s, i) == Some('['),
        v is Object ==> at(s, i) == Some('{'),
{
    let t = rendered(v, false);
    if v is Null || v is Bool || v is Number {
        lemma_plain_token(v);
        if let Json::Number(Num::Int(n)) = v {
            lemma_digit_chars(
                if n < 0 {
                    -n
                } else {
                    n
                },
            );
        }
    }
    lemma_part_stands(s, i, t, 0, 1);
    assert(s[i + 0] == t[0]);
}

/// The key of a plain member, with its colon.
proof fn lemma_plain_written_key(s: Seq<char>, i: int, name: Seq<char>)
    requires
        is_plain_text(name),
        lacks(name, ':'),
        stands(s, i, string_text(name, false)),
        at(s, i + string_text(name, false).len()) == Some(':'),
    ensures
        at(s, i) == Some('"'),
        object_key(s, i) == (name, i + string_text(name, false).len()),
        skip_trivia(s, i + string_text(name, false).len(), true) == i + string_text(
            name,
            false,
        ).len(),
{
    let none = Seq::<char>::empty();
    let key = string_text(name, false);
    let colon = i + key.len();
    lemma_plain_escapes(name);
    assert(key =~= string_between('"', name, '"'));
    lemma_part_stands(s, i, key, 0, 1);
    assert(s[i + 0] == key[0]);
    assert(none + name + none + none =~= name);
    assert(s.subrange(colon, colon) =~= none);
    assert forall|q: int| 0 <= q < name.len() implies #[trigger] name[q] != '\n' && name[q]
        != '\r' by {}
    lemma_quoted_key_is_read_whole(s, i, '"', '"', none, name, none, none, none);
    lemma_no_trivia(s, colon);
}

proof fn lemma_plain_members(
    s: Seq<char>,
    i: int,
    members: Seq<(Seq<char>, Json)>,
    k: int,
    strict: bool,
)
    requires
        0 <= k <= members.len(),
        all_plain_members(members),
        stands(s, i, rendered_members(members, false, members.len() as int)),
        at(s, i + rendered_members(members, false, members.len() as int).len()) == Some('}'),
    ensures
        k < members.len() || k == 0 ==> object_at(
            s,
            i + place_after(rendered_members(members, false, k), k),
            strict,
            members.take(k),
        ) == Outcome::Value(
            Json::Object(members),
            i + rendered_members(members, false, members.len() as int).len() + 1,
        ),
    decreases members, members.len() - k,
{
    let none = Seq::<char>::empty();
    let whole = rendered_members(members, false, members.len() as int);
    if k == members.len() {
        if k == 0 {
            let n = i + whole.len();
            assert(members.take(k) =~= members);
            assert(s.subrange(n, n) =~= none);
            lemma_object_end(s, n, strict, members, none);
        }
    } else {
        let before = rendered_members(members, false, k);
        let place = i + place_after(before, k);
        let start = i + start_after(before, k);
        let (name, value) = members[k];
        let text = rendered(value, false);
        let key = string_text(name, false);
        let member = rendered_member(members[k], false);
        let end = start + member.len();
        let colon = start + key.len();
        lemma_member_stands(s, i, members, false, k);
        assert(is_plain_text(name) && lacks(name, ':') && is_plain(value));
        if k + 1 < members.len() {
            lemma_member_stands(s, i, members, false, k + 1);
        }
        let m = key.len() as int;
        lemma_part_stands(s, start, member, 0, m);
        assert(member.subrange(0, m) =~= key);
        lemma_part_stands(s, start, member, m, m + 2);
        assert(s[start + m] == member[m] && s[start + (m + 1)] == member[m + 1]);
        lemma_part_stands(s, start, member, m + 2, member.len() as int);
        assert(member.subrange(m + 2, member.len() as int) =~= text);
        assert(at(s, end) == Some(
            if k + 1 < members.len() {
                ','
            } else {
                '}'
            },
        ));
        assert(decreases_to!(members => members[k]));
        assert(decreases_to!(members[k] => members[k].1));
        lemma_plain_value(s, start + m + 2, value, Context::ObjectValue, strict);
        let gap = s.subrange(place, start);
        assert(all_separators(gap)) by {
            assert forall|q: int| 0 <= q < gap.len() implies is_white(#[trigger] gap[q]) by {
                assert(gap[q] == s[place + q]);
            }
        }
        lemma_plain_written_key(s, start, name);
        lemma_separators(s, place, gap);
        lemma_first_of(value, s, colon + 2);
        lemma_white_run(s, colon + 1, colon + 2);
        lemma_no_trivia(s, colon + 2);
        assert(skip_trivia(s, colon + 1, true) == skip_trivia(s, colon + 2, true));
        let so_far = members.take(k);
        assert(!is_among(so_far, name)) by {
            assert forall|q: int| 0 <= q < so_far.len() implies (#[trigger] so_far[q]).0
                != name by {
                assert(so_far[q] == members[q]);
                assert(members[q].0 != members[k].0);
            }
        }
        lemma_member_by_key(
            s,
            place,
            strict,
            so_far,
            start,
            name,
            colon,
            colon + 2,
            value,
            end,
        );
        lemma_no_trivia(s, end);
        assert(so_far.push((name, value)) =~= members.take(k + 1));
        if k + 1 < members.len() {
            lemma_plain_members(s, i, members, k + 1, strict);
        } else {
            assert(members.take(k + 1) =~= members);
        }
    }
}

/// The repair of a plain object or array as it is written is that object or array, in strict mode
/// and without it.
pub proof fn lemma_plain_text_is_repaired_to_itself(v: Json, strict: bool)
    requires
        is_plain(v),
        v is Object || v is Array,
    ensures
        repaired(rendered(v, false), strict) == Ok::<Json, Failure>(v),
{
    let s = rendered(v, false);
    assert(s.subrange(0, s.len() as int) =~= s);
    lemma_plain_value(s, 0, v, Context::Start, strict);
    let found = Seq::<Json>::empty().push(v);
    assert(all_found(s, s.len() as int, strict, found) == Ok::<Seq<Json>, Seq<char>>(found));
    assert(found_added(Seq::empty(), v, strict) == found);
    assert(all_found(s, 0, strict, Seq::empty()) == Ok::<Seq<Json>, Seq<char>>(found));
}

} // verus!
