//! Lists that are written loosely.

use crate::chars::is_white;
use crate::gaps::{
    all_white, gap_is_proper, gap_text, lemma_gap, lemma_no_trivia, lemma_white_stands, Piece,
};
use crate::grammar::{
    array_at, lemma_member_head, lemma_member_value, lemma_value_at, member_value, repaired,
    value_at, Failure, Outcome,
};
use crate::lists::{lemma_list_end, lemma_list_item, list_after};
use crate::loose::{
    closing_text, comma_text, lemma_all_white_joined, lemma_one_value_is_repaired, lemma_part_ends,
    lemma_part_start, lemma_parts_stand, part_is_proper, part_text, part_value, Part,
};
use crate::members::lemma_separators;
use crate::quoting::{lacks, lemma_string_closes_before_value, opens_any_value};
use crate::scan::{
    at, lemma_skip_separators, lemma_skip_trivia, skip_separators, skip_trivia, Context,
};
use crate::standard::{lemma_part_stands, stands};
use crate::token::{array_member_starts, lemma_object_key, object_key};
use crate::value::Json;
use crate::words::{is_complete, is_token_char, lemma_token_ends_before_value};
use vstd::prelude::*;

verus! {

/// An item as it is written, with whitespace around it, and a comma or not.
pub struct Item {
    pub before: Seq<char>,
    pub part: Part,
    pub after: Seq<char>,
    pub comma: bool,
}

/// The text of the items and of the closing bracket, if it is there.
pub open spec fn items_text(items: Seq<Item>, closed: bool) -> Seq<char>
    decreases items.len(),
{
    if items.len() == 0 {
        closing_text(closed, ']')
    } else {
        items[0].before + part_text(items[0].part) + items[0].after + comma_text(items[0].comma)
            + items_text(items.skip(1), closed)
    }
}

/// The items that are meant. The empty text and the ellipsis stand for nothing.
pub open spec fn items_meant(items: Seq<Item>) -> Seq<Json>
    decreases items.len(),
{
    if items.len() == 0 {
        Seq::empty()
    } else {
        let value = part_value(items[0].part);
        (if value == Json::String(Seq::empty()) || value == Json::String(seq!['.', '.', '.']) {
            Seq::empty()
        } else {
            seq![value]
        }) + items_meant(items.skip(1))
    }
}

/// Whether an item is written properly. Where a comma is missing, whitespace stands instead, and
/// the item is complete by itself.
pub open spec fn item_is_proper(item: Item, last: bool) -> bool {
    &&& all_white(item.before)
    &&& part_is_proper(item.part)
    &&& !(item.part is Object)
    &&& all_white(item.after)
    &&& !item.comma && !last ==> item.after.len() > 0 && (item.part matches Part::Word(b)
        ==> is_complete(b))
}

pub open spec fn items_are_proper(items: Seq<Item>) -> bool {
    forall|k: int|
        0 <= k < items.len() ==> item_is_proper(#[trigger] items[k], k + 1 == items.len())
}

/// Whether no colon stands at `i` or after it.
pub open spec fn no_colon(s: Seq<char>, i: int) -> bool {
    forall|k: int| i <= k < s.len() ==> #[trigger] s[k] != ':'
}

/// Without a colon nothing in a list is taken for a member.
pub proof fn lemma_no_member_without_colon(s: Seq<char>, j: int)
    requires
        0 <= j <= s.len(),
        no_colon(s, j),
    ensures
        !array_member_starts(s, j),
{
    lemma_object_key(s, j);
    lemma_skip_trivia(s, object_key(s, j).1, true);
}

/// Only where whitespace, comments and commas end counts for what a list gives, not where they
/// start.
pub proof fn lemma_same_list(
    s: Seq<char>,
    i: int,
    j: int,
    closing: char,
    strict: bool,
    items: Seq<Json>,
)
    requires
        0 <= i <= j <= s.len(),
        skip_separators(s, i) == skip_separators(s, j),
        closing == ']' || closing == ')',
    ensures
        array_at(s, i, closing, strict, items) == array_at(s, j, closing, strict, items),
{
    lemma_member_head(s, i);
    lemma_member_head(s, j);
    let at_item = skip_separators(s, i);
    lemma_skip_separators(s, j);
    if at(s, at_item) is Some {
        let k = object_key(s, at_item).1;
        let after_key = skip_trivia(s, k, true);
        let start = if at(s, after_key) == Some(':') {
            after_key + 1
        } else {
            after_key
        };
        lemma_member_value(s, start, strict);
        lemma_value_at(s, at_item, Context::Array, strict);
        match member_value(s, start, strict) {
            Outcome::Value(_, end) => {
                lemma_skip_trivia(s, end, true);
            },
            _ => {},
        }
        match value_at(s, at_item, Context::Array, strict) {
            Outcome::Value(_, end) => {
                lemma_skip_trivia(s, end, true);
            },
            Outcome::Nothing(end) => {
                lemma_skip_trivia(s, end, true);
                lemma_skip_trivia(s, end + 1, true);
            },
            _ => {},
        }
    }
}

/// Whitespace and comments between items stand for nothing.
pub proof fn lemma_gap_in_list(
    s: Seq<char>,
    i: int,
    pieces: Seq<Piece>,
    closing: char,
    strict: bool,
    items: Seq<Json>,
)
    requires
        closing == ']' || closing == ')',
        gap_is_proper(pieces),
        stands(s, i, gap_text(pieces)),
    ensures
        array_at(s, i, closing, strict, items) == array_at(
            s,
            i + gap_text(pieces).len(),
            closing,
            strict,
            items,
        ),
        list_after(s, i, closing, strict, items) == list_after(
            s,
            i + gap_text(pieces).len(),
            closing,
            strict,
            items,
        ),
{
    lemma_gap(s, i, pieces, true);
    lemma_same_list(s, i, i + gap_text(pieces).len(), closing, strict, items);
}

/// Where the parts of the first item stand.
proof fn lemma_item_parts(s: Seq<char>, i: int, items: Seq<Item>, closed: bool)
    requires
        items.len() > 0,
        stands(s, i, items_text(items, closed)),
    ensures
        ({
            let m = items[0];
            let start = i + m.before.len();
            let n = start + part_text(m.part).len();
            let next = n + m.after.len();
            let goes_on = next + comma_text(m.comma).len();
            let rest = items_text(items.skip(1), closed);
            &&& stands(s, i, m.before)
            &&& stands(s, start, part_text(m.part))
            &&& stands(s, n, m.after)
            &&& m.comma ==> at(s, next) == Some(',')
            &&& stands(s, goes_on, rest)
            &&& goes_on + rest.len() == i + items_text(items, closed).len()
        }),
{
    let m = items[0];
    let rest = items_text(items.skip(1), closed);
    lemma_parts_stand(s, i, m.before, part_text(m.part), m.after, comma_text(m.comma), rest);
}

/// A value that the next value follows.
proof fn lemma_part_before_value(s: Seq<char>, i: int, part: Part, w: Seq<char>, strict: bool)
    requires
        part_is_proper(part),
        !(part is Object),
        part matches Part::Word(b) ==> is_complete(b),
        stands(s, i, part_text(part)),
        all_white(w),
        w.len() > 0,
        stands(s, i + part_text(part).len(), w),
        at(s, i + part_text(part).len() + w.len()) matches Some(c) && opens_any_value(c),
    ensures
        value_at(s, i, Context::Array, strict) == Outcome::Value(
            part_value(part),
            i + part_text(part).len(),
        ),
{
    match part {
        Part::Text { open, close, lead, kept, trail, ticks } => {
            lemma_string_closes_before_value(
                s,
                i,
                open,
                close,
                lead,
                kept,
                trail,
                ticks,
                w,
                strict,
            );
        },
        Part::Word(b) => {
            lemma_joined_stands(s, i, b, w);
            lemma_token_ends_before_value(s, i, b, w, strict);
        },
        Part::Object(_) => {},
    }
}

proof fn lemma_joined_stands(s: Seq<char>, i: int, a: Seq<char>, b: Seq<char>)
    requires
        stands(s, i, a),
        stands(s, i + a.len(), b),
    ensures
        stands(s, i, a + b),
{
    let n = i + a.len();
    lemma_part_stands(s, i, a, 0, a.len() as int);
    lemma_part_stands(s, n, b, 0, b.len() as int);
    assert(s.subrange(i, i + (a + b).len()) =~= a + b) by {
        assert forall|k: int| 0 <= k < (a + b).len() implies s[i + k] == (a + b)[k] by {
            if k < a.len() {
                assert(s[i + k] == a[k]);
            } else {
                assert(s[n + (k - a.len())] == b[k - a.len()]);
            }
        }
    }
}

/// The value of the first item is read as it is meant, and after it the reading goes on with the
/// others.
proof fn lemma_loose_item(
    s: Seq<char>,
    i: int,
    strict: bool,
    items: Seq<Item>,
    closed: bool,
    grown: Seq<Json>,
)
    requires
        items.len() > 0,
        items_are_proper(items),
        stands(s, i, items_text(items, closed)),
        closed || i + items_text(items, closed).len() == s.len(),
    ensures
        ({
            let m = items[0];
            let start = i + m.before.len();
            let next = start + part_text(m.part).len() + m.after.len();
            let goes_on = next + comma_text(m.comma).len();
            value_at(s, start, Context::Array, strict) matches Outcome::Value(v, end) && v
                == part_value(m.part) && list_after(s, end, ']', strict, grown) == array_at(
                s,
                goes_on,
                ']',
                strict,
                grown,
            )
        }),
{
    let m = items[0];
    let rest = items.skip(1);
    let start = i + m.before.len();
    let n = start + part_text(m.part).len();
    let next = n + m.after.len();
    let goes_on = next + comma_text(m.comma).len();
    let tail = items_text(rest, closed);
    assert(item_is_proper(m, items.len() == 1));
    lemma_item_parts(s, i, items, closed);
    lemma_part_stands(s, goes_on, tail, 0, tail.len() as int);
    lemma_white_stands(s, n, m.after);
    assert(skip_trivia(s, n, true) == skip_trivia(s, next, true));
    if m.comma || rest.len() == 0 {
        if !m.comma {
            assert(rest =~= Seq::empty());
            if closed {
                assert(s[next + 0] == tail[0]);
            }
        }
        lemma_no_trivia(s, next);
        lemma_part_ends(s, start, m.part, m.after, strict);
    } else {
        let f = rest[0];
        assert(f == items[1]);
        assert(item_is_proper(f, items.len() == 2));
        lemma_item_parts(s, next, rest, closed);
        lemma_all_white_joined(m.after, f.before);
        lemma_joined_stands(s, n, m.after, f.before);
        let b = next + f.before.len();
        lemma_part_start(s, b, f.part);
        lemma_opens(s, b, f.part);
        lemma_part_before_value(s, start, m.part, m.after + f.before, strict);
        lemma_white_stands(s, next, f.before);
        lemma_no_trivia(s, b);
        assert(skip_trivia(s, next, true) == skip_trivia(s, b, true));
        assert(s.subrange(b, b) =~= Seq::empty());
        lemma_separators(s, next, f.before);
        lemma_separators(s, b, Seq::empty());
        lemma_same_list(s, next, b, ']', strict, grown);
    }
}

proof fn lemma_opens(s: Seq<char>, i: int, part: Part)
    requires
        part_is_proper(part),
        stands(s, i, part_text(part)),
    ensures
        at(s, i) matches Some(c) && opens_any_value(c),
{
    let t = part_text(part);
    lemma_part_start(s, i, part);
    lemma_part_stands(s, i, t, 0, t.len() as int);
    assert(s[i + 0] == t[0]);
    match part {
        Part::Text { open, .. } => {
            assert(t[0] == open);
        },
        Part::Word(b) => {
            assert(is_token_char(b[0]));
        },
        Part::Object(m) => {
            assert(t[0] == '{');
        },
    }
}

/// The items that are left at `i` are read as they are meant.
pub proof fn lemma_loose_items(
    s: Seq<char>,
    i: int,
    strict: bool,
    known: Seq<Json>,
    items: Seq<Item>,
    closed: bool,
)
    requires
        items_are_proper(items),
        stands(s, i, items_text(items, closed)),
        closed || i + items_text(items, closed).len() == s.len(),
        no_colon(s, i),
    ensures
        array_at(s, i, ']', strict, known) == Outcome::Value(
            Json::Array(known + items_meant(items)),
            i + items_text(items, closed).len(),
        ),
    decreases items.len(),
{
    let text = items_text(items, closed);
    lemma_part_stands(s, i, text, 0, text.len() as int);
    if items.len() == 0 {
        assert(known + items_meant(items) =~= known);
        assert(s.subrange(i, i) =~= Seq::empty());
        if closed {
            assert(s[i + 0] == text[0]);
        }
        lemma_list_end(s, i, ']', strict, known, Seq::empty());
    } else {
        let m = items[0];
        let rest = items.skip(1);
        let value = part_value(m.part);
        let dropped = value == Json::String(Seq::empty()) || value == Json::String(
            seq!['.', '.', '.'],
        );
        let grown = if dropped {
            known
        } else {
            known.push(value)
        };
        let start = i + m.before.len();
        let next = start + part_text(m.part).len() + m.after.len();
        let goes_on = next + comma_text(m.comma).len();
        assert(item_is_proper(m, items.len() == 1));
        assert forall|k: int| 0 <= k < rest.len() implies item_is_proper(
            #[trigger] rest[k],
            k + 1 == rest.len(),
        ) by {
            assert(rest[k] == items[k + 1]);
        }
        lemma_item_parts(s, i, items, closed);
        lemma_part_start(s, start, m.part);
        lemma_no_member_without_colon(s, start);
        lemma_loose_item(s, i, strict, items, closed, grown);
        let end = value_at(s, start, Context::Array, strict)->Value_1;
        assert forall|k: int| 0 <= k < m.before.len() implies is_white(#[trigger] m.before[k])
            || m.before[k] == ',' by {}
        lemma_list_item(s, i, ']', strict, known, m.before, value, end);
        lemma_loose_items(s, goes_on, strict, grown, rest, closed);
        assert(grown + items_meant(rest) =~= known + items_meant(items));
    }
}

/// A list with its items in any of these ways, in a text without colons, with or without the
/// closing bracket at the end of the text, is the list that is meant.
pub proof fn lemma_loose_list_is_repaired(items: Seq<Item>, closed: bool, strict: bool)
    requires
        items_are_proper(items),
        lacks(items_text(items, closed), ':'),
    ensures
        repaired(seq!['['] + items_text(items, closed), strict) == Ok::<Json, Failure>(
            Json::Array(items_meant(items)),
        ),
{
    let text = items_text(items, closed);
    let s = seq!['['] + text;
    assert(s.subrange(1, s.len() as int) =~= text);
    assert forall|k: int| 1 <= k < s.len() implies #[trigger] s[k] != ':' by {
        assert(s[k] == text[k - 1]);
    }
    lemma_loose_items(s, 1, strict, Seq::empty(), items, closed);
    assert(Seq::<Json>::empty() + items_meant(items) =~= items_meant(items));
    lemma_no_trivia(s, 0);
    assert(value_at(s, 0, Context::Start, strict) == array_at(s, 1, ']', strict, Seq::empty()));
    lemma_one_value_is_repaired(s, Json::Array(items_meant(items)), strict);
}

} // verus!
