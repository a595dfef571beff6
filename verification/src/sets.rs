//! Sets: objects without values.

use crate::chars::is_white;
use crate::gaps::{all_white, lemma_no_trivia, lemma_white_stands};
use crate::grammar::{object_at, set_at, value_at, Outcome};
use crate::loose::closing_text;
use crate::members::{lemma_bracket_key, lemma_plain_key_ends, lemma_separators};
use crate::quoting::{all_blank, is_pair, is_plain_char, is_plain_name, string_between};
use crate::scan::{at, lemma_skip_trivia, skip_trivia, Context};
use crate::standard::{lemma_part_stands, stands};
use crate::token::object_key;
use crate::value::Json;
use vstd::prelude::*;

verus! {

/// The way a key of a set is written: bare or in quotation marks, or in brackets.
pub enum Style {
    Bare,
    Quoted(char, char),
    Brackets,
}

/// A key of a set, with whitespace around it.
pub struct Entry {
    pub before: Seq<char>,
    pub name: Seq<char>,
    pub style: Style,
    pub after: Seq<char>,
}

pub open spec fn styled(name: Seq<char>, style: Style) -> Seq<char> {
    match style {
        Style::Bare => name,
        Style::Quoted(open, close) => string_between(open, name, close),
        Style::Brackets => seq!['['] + name + seq![']'],
    }
}

pub open spec fn entry_is_proper(e: Entry) -> bool {
    &&& all_white(e.before)
    &&& is_plain_name(e.name)
    &&& e.style matches Style::Quoted(open, close) ==> is_pair(open, close)
    &&& all_blank(e.after)
}

pub open spec fn entry_text(e: Entry) -> Seq<char> {
    e.before + styled(e.name, e.style) + e.after
}

/// The text after the first key: commas and keys, and the closing brace, if it is there.
pub open spec fn entries_text(entries: Seq<Entry>, closed: bool) -> Seq<char>
    decreases entries.len(),
{
    if entries.len() == 0 {
        closing_text(closed, '}')
    } else {
        seq![','] + entry_text(entries[0]) + entries_text(entries.skip(1), closed)
    }
}

pub open spec fn entries_meant(entries: Seq<Entry>) -> Seq<Json> {
    entries.map_values(|e: Entry| Json::String(e.name))
}

/// A key of a set is read as its name.
proof fn lemma_entry(s: Seq<char>, i: int, e: Entry)
    requires
        entry_is_proper(e),
        stands(s, i, styled(e.name, e.style) + e.after),
        match at(s, i + styled(e.name, e.style).len() + e.after.len()) {
            Some(c) => c == ',' || c == '}',
            None => true,
        },
    ensures
        object_key(s, i).0 == e.name,
        i < object_key(s, i).1,
        skip_trivia(s, object_key(s, i).1, true) == i + styled(e.name, e.style).len()
            + e.after.len(),
        skip_trivia(s, i, true) == i,
        at(s, i) matches Some(c) && c != '}' && c != ',',
{
    let text = styled(e.name, e.style);
    let whole = text + e.after;
    let k = text.len() as int;
    lemma_part_stands(s, i, whole, 0, whole.len() as int);
    assert(is_plain_char(e.name[0]));
    assert(s[i + 0] == whole[0]);
    lemma_no_trivia(s, i);
    match e.style {
        Style::Bare => {
            lemma_plain_key_ends(s, i, e.name, true, '"', '"', e.after);
        },
        Style::Quoted(open, close) => {
            lemma_plain_key_ends(s, i, e.name, false, open, close, e.after);
        },
        Style::Brackets => {
            lemma_part_stands(s, i, whole, 0, k);
            assert(whole.subrange(0, k) =~= text);
            lemma_bracket_key(s, i, e.name);
            lemma_part_stands(s, i, whole, k, whole.len() as int);
            assert(whole.subrange(k, whole.len() as int) =~= e.after);
            lemma_white_stands(s, i + k, e.after);
            lemma_no_trivia(s, i + k + e.after.len());
            assert(skip_trivia(s, i + k, true) == skip_trivia(s, i + k + e.after.len(), true));
        },
    }
}

/// The keys that are left of a set go to the end of the list.
proof fn lemma_entries(
    s: Seq<char>,
    p: int,
    q: int,
    entries: Seq<Entry>,
    closed: bool,
    items: Seq<Json>,
)
    requires
        0 <= p <= q,
        skip_trivia(s, p, true) == q,
        stands(s, q, entries_text(entries, closed)),
        closed || q + entries_text(entries, closed).len() == s.len(),
        forall|k: int| 0 <= k < entries.len() ==> entry_is_proper(#[trigger] entries[k]),
    ensures
        set_at(s, p, items) == Outcome::Value(
            Json::Array(items + entries_meant(entries)),
            q + entries_text(entries, closed).len(),
        ),
    decreases entries.len(),
{
    let text = entries_text(entries, closed);
    lemma_part_stands(s, q, text, 0, text.len() as int);
    if text.len() > 0 {
        assert(s[q + 0] == text[0]);
    }
    if entries.len() == 0 {
        assert(items + entries_meant(entries) =~= items);
    } else {
        let e = entries[0];
        let rest = entries.skip(1);
        let start = q + 1 + e.before.len();
        let grown = items.push(Json::String(e.name));
        let next = start + styled(e.name, e.style).len() + e.after.len();
        assert(entry_is_proper(e));
        lemma_entry_parts(s, q, entries, closed);
        assert(skip_trivia(s, q + 1, true) == start) by {
            lemma_entry(s, start, e);
            lemma_white_stands(s, q + 1, e.before);
            assert(skip_trivia(s, q + 1, true) == skip_trivia(s, start, true));
        }
        lemma_entry(s, start, e);
        let k = object_key(s, start).1;
        assert forall|k: int| 0 <= k < rest.len() implies entry_is_proper(#[trigger] rest[k]) by {
            assert(rest[k] == entries[k + 1]);
        }
        lemma_skip_trivia(s, k, true);
        lemma_entries(s, k, next, rest, closed, grown);
        assert(grown + entries_meant(rest) =~= items + entries_meant(entries));
        assert(set_at(s, p, items) == set_at(s, k, grown));
    }
}

/// Where the parts of the first key stand.
proof fn lemma_entry_parts(s: Seq<char>, q: int, entries: Seq<Entry>, closed: bool)
    requires
        entries.len() > 0,
        stands(s, q, entries_text(entries, closed)),
        closed || q + entries_text(entries, closed).len() == s.len(),
    ensures
        ({
            let e = entries[0];
            let rest = entries_text(entries.skip(1), closed);
            let start = q + 1 + e.before.len();
            let next = start + styled(e.name, e.style).len() + e.after.len();
            &&& stands(s, q + 1, e.before)
            &&& stands(s, start, styled(e.name, e.style) + e.after)
            &&& stands(s, next, rest)
            &&& next + rest.len() == q + entries_text(entries, closed).len()
            &&& match at(s, next) {
                Some(c) => c == ',' || c == '}',
                None => true,
            }
        }),
{
    let e = entries[0];
    let rest = entries_text(entries.skip(1), closed);
    let text = entries_text(entries, closed);
    let a = 1 + e.before.len() as int;
    let b = a + styled(e.name, e.style).len() + e.after.len();
    lemma_part_stands(s, q, text, 1, a);
    assert(text.subrange(1, a) =~= e.before);
    lemma_part_stands(s, q, text, a, b);
    assert(text.subrange(a, b) =~= styled(e.name, e.style) + e.after);
    lemma_part_stands(s, q, text, b, text.len() as int);
    assert(text.subrange(b, text.len() as int) =~= rest);
    lemma_part_stands(s, q + b, rest, 0, rest.len() as int);
    if rest.len() > 0 {
        assert(s[q + b + 0] == rest[0]);
    }
}

/// Where a key stands in an object that no colon follows, the object is a set: the array of the
/// keys from there on, whatever members came before.
pub proof fn lemma_keys_alone(
    s: Seq<char>,
    i: int,
    strict: bool,
    members: Seq<(Seq<char>, Json)>,
    first: Entry,
    others: Seq<Entry>,
    closed: bool,
)
    requires
        entry_is_proper(first),
        !(first.style is Brackets),
        closed || others.len() > 0,
        forall|k: int| 0 <= k < others.len() ==> entry_is_proper(#[trigger] others[k]),
        stands(s, i, entry_text(first) + entries_text(others, closed)),
        closed || i + (entry_text(first) + entries_text(others, closed)).len() == s.len(),
    ensures
        object_at(s, i, strict, members) == Outcome::Value(
            Json::Array(seq![Json::String(first.name)] + entries_meant(others)),
            i + entry_text(first).len() + entries_text(others, closed).len(),
        ),
{
    let rest = entries_text(others, closed);
    let whole = entry_text(first) + rest;
    let b = first.before.len() as int;
    let e = entry_text(first).len() as int;
    let j = i + b;
    let q = i + e;
    lemma_part_stands(s, i, whole, 0, whole.len() as int);
    lemma_part_stands(s, i, whole, 0, b);
    assert(whole.subrange(0, b) =~= first.before);
    lemma_part_stands(s, i, whole, b, e);
    assert(whole.subrange(b, e) =~= styled(first.name, first.style) + first.after);
    lemma_part_stands(s, i, whole, e, whole.len() as int);
    assert(whole.subrange(e, whole.len() as int) =~= rest);
    assert(s[i + e] == whole[e]);
    assert(rest[0] == whole[e]);
    lemma_entry(s, j, first);
    assert(is_plain_char(first.name[0]));
    assert(s[i + b] == whole[b]);
    assert forall|k: int| 0 <= k < first.before.len() implies is_white(#[trigger] first.before[k])
        || first.before[k] == ',' by {}
    lemma_separators(s, i, first.before);
    lemma_no_trivia(s, q);
    lemma_entries(s, q, q, others, closed, seq![Json::String(first.name)]);
    assert(object_at(s, i, strict, members) == set_at(s, q, seq![Json::String(first.name)]));
}

/// A set, an object that has keys only, is the array of its keys.
pub proof fn lemma_set(
    s: Seq<char>,
    i: int,
    context: Context,
    strict: bool,
    first: Entry,
    others: Seq<Entry>,
    closed: bool,
)
    requires
        entry_is_proper(first),
        !(first.style is Brackets),
        closed || others.len() > 0,
        forall|k: int| 0 <= k < others.len() ==> entry_is_proper(#[trigger] others[k]),
        stands(s, i, seq!['{'] + (entry_text(first) + entries_text(others, closed))),
        closed || i + 1 + (entry_text(first) + entries_text(others, closed)).len() == s.len(),
    ensures
        value_at(s, i, context, strict) == Outcome::Value(
            Json::Array(seq![Json::String(first.name)] + entries_meant(others)),
            i + 1 + entry_text(first).len() + entries_text(others, closed).len(),
        ),
{
    let text = entry_text(first) + entries_text(others, closed);
    let whole = seq!['{'] + text;
    lemma_part_stands(s, i, whole, 0, whole.len() as int);
    assert(s[i + 0] == whole[0]);
    lemma_part_stands(s, i, whole, 1, whole.len() as int);
    assert(whole.subrange(1, whole.len() as int) =~= text);
    lemma_keys_alone(s, i + 1, strict, Seq::empty(), first, others, closed);
    lemma_no_trivia(s, i);
}

} // verus!
