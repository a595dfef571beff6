//! How lists are read, item by item.

use crate::gaps::lemma_no_trivia;
use crate::grammar::{
    array_at, lemma_member_head, lemma_member_value, lemma_value_at, object_at, value_at, Outcome,
};
use crate::members::{all_separators, lemma_plain_key, lemma_separators, starts_token};
use crate::quoting::{all_blank, is_pair, is_plain_char, is_plain_name, written_key};
use crate::scan::{at, lemma_skip_trivia, skip_trivia, Context};
use crate::standard::{lemma_part_stands, stands};
use crate::token::array_member_starts;
use crate::value::Json;
use vstd::prelude::*;

verus! {

/// What the rest of a list gives after an item: a comma is passed over, and without one the next
/// item comes all the same.
pub open spec fn list_after(
    s: Seq<char>,
    end: int,
    closing: char,
    strict: bool,
    items: Seq<Json>,
) -> Outcome {
    let next = skip_trivia(s, end, true);
    if at(s, next) == Some(',') {
        array_at(s, next + 1, closing, strict, items)
    } else {
        array_at(s, next, closing, strict, items)
    }
}

/// Reading one item of a list. A value goes to the end of the list, unless it is the empty
/// string or the ellipsis, which stand for nothing.
pub proof fn lemma_list_item(
    s: Seq<char>,
    i: int,
    closing: char,
    strict: bool,
    items: Seq<Json>,
    before: Seq<char>,
    value: Json,
    end: int,
)
    requires
        closing == ']' || closing == ')',
        all_separators(before),
        stands(s, i, before),
        starts_token(s, i + before.len()),
        at(s, i + before.len()) matches Some(c) && c != ']' && c != '}' && c != ')',
        !array_member_starts(s, i + before.len()),
        value_at(s, i + before.len(), Context::Array, strict) == Outcome::Value(value, end),
    ensures
        value != Json::String(Seq::empty()) && value != Json::String(seq!['.', '.', '.'])
            ==> array_at(s, i, closing, strict, items) == list_after(
            s,
            end,
            closing,
            strict,
            items.push(value),
        ),
        value == Json::String(Seq::empty()) || value == Json::String(seq!['.', '.', '.'])
            ==> array_at(s, i, closing, strict, items) == list_after(
            s,
            end,
            closing,
            strict,
            items,
        ),
{
    let j = i + before.len();
    lemma_separators(s, i, before);
    lemma_value_at(s, j, Context::Array, strict);
    lemma_skip_trivia(s, end, true);
    reveal_strlit("...");
    assert("..."@ =~= seq!['.', '.', '.']);
}

/// A key and its value that stand in a list without braces become an object of their own.
pub proof fn lemma_list_member(
    s: Seq<char>,
    i: int,
    closing: char,
    strict: bool,
    items: Seq<Json>,
    before: Seq<char>,
    name: Seq<char>,
    bare: bool,
    open: char,
    close: char,
    before_colon: Seq<char>,
    value: Json,
    end: int,
)
    requires
        closing == ']' || closing == ')',
        all_separators(before),
        is_plain_name(name),
        is_pair(open, close),
        all_blank(before_colon),
        stands(s, i, before + written_key(name, bare, open, close) + before_colon + seq![':']),
        value_at(
            s,
            i + before.len() + written_key(name, bare, open, close).len() + before_colon.len() + 1,
            Context::ObjectValue,
            strict,
        ) == Outcome::Value(value, end),
    ensures
        array_at(s, i, closing, strict, items) == list_after(
            s,
            end,
            closing,
            strict,
            items.push(Json::Object(seq![(name, value)])),
        ),
{
    let key = written_key(name, bare, open, close);
    let head = before + key + before_colon + seq![':'];
    let b = before.len() as int;
    let j = i + b;
    let start = i + head.len();
    lemma_part_stands(s, i, head, 0, head.len() as int);
    lemma_part_stands(s, i, head, 0, b);
    assert(head.subrange(0, b) =~= before);
    lemma_part_stands(s, i, head, b, head.len() as int);
    assert(head.subrange(b, head.len() as int) =~= key + before_colon + seq![':']);
    assert(s[i + b] == head[b]);
    assert(is_plain_char(name[0]));
    lemma_separators(s, i, before);
    lemma_plain_key(s, j, name, bare, open, close, before_colon);
    assert(array_member_starts(s, j));
    lemma_member_head(s, i);
    lemma_member_value(s, start, strict);
    lemma_skip_trivia(s, end, true);
}

/// A list ends at its closing mark, and at the end of the text if that is missing. A list in
/// brackets also ends at a closing parenthesis, and before a closing brace.
pub proof fn lemma_list_end(
    s: Seq<char>,
    i: int,
    closing: char,
    strict: bool,
    items: Seq<Json>,
    before: Seq<char>,
)
    requires
        closing == ']' || closing == ')',
        all_separators(before),
        stands(s, i, before),
    ensures
        ({
            let j = i + before.len();
            &&& at(s, j) == Some(closing) ==> array_at(s, i, closing, strict, items)
                == Outcome::Value(Json::Array(items), j + 1)
            &&& at(s, j) is None ==> array_at(s, i, closing, strict, items) == Outcome::Value(
                Json::Array(items),
                j,
            )
            &&& closing == ']' && at(s, j) == Some(')') ==> array_at(s, i, closing, strict, items)
                == Outcome::Value(Json::Array(items), j + 1)
            &&& closing == ']' && at(s, j) == Some('}') ==> array_at(s, i, closing, strict, items)
                == Outcome::Value(Json::Array(items), j)
        }),
{
    let j = i + before.len();
    if starts_token(s, j) {
        lemma_separators(s, i, before);
    }
}

/// An object ends at its closing brace, at the end of the text if that is missing, and before
/// any other bracket or parenthesis that cannot belong to it.
pub proof fn lemma_object_end(
    s: Seq<char>,
    i: int,
    strict: bool,
    members: Seq<(Seq<char>, Json)>,
    before: Seq<char>,
)
    requires
        all_separators(before),
        stands(s, i, before),
    ensures
        ({
            let j = i + before.len();
            &&& at(s, j) == Some('}') ==> object_at(s, i, strict, members) == Outcome::Value(
                Json::Object(members),
                j + 1,
            )
            &&& at(s, j) is None || at(s, j) == Some(']') || at(s, j) == Some(')') || at(s, j)
                == Some('[') ==> object_at(s, i, strict, members) == Outcome::Value(
                Json::Object(members),
                j,
            )
        }),
{
    let j = i + before.len();
    if starts_token(s, j) {
        lemma_separators(s, i, before);
    }
}

/// A list in parentheses with one item is that item, and otherwise it is the list.
pub proof fn lemma_parentheses(s: Seq<char>, i: int, context: Context, strict: bool)
    requires
        at(s, i) == Some('('),
        context == Context::ObjectValue || context == Context::Array || (at(s, i + 1) matches Some(
            c,
        ) && ('0' <= c <= '9' || c == '-' || c == '.' || c == '"' || c == '\'' || c == '{' || c
            == '[' || c == '(')),
    ensures
        match array_at(s, i + 1, ')', strict, Seq::empty()) {
            Outcome::Value(Json::Array(items), next) => value_at(s, i, context, strict)
                == Outcome::Value(
                if items.len() == 1 {
                    items[0]
                } else {
                    Json::Array(items)
                },
                next,
            ),
            other => value_at(s, i, context, strict) == other,
        },
{
    lemma_no_trivia(s, i);
    if context.outside() {
        lemma_no_trivia(s, i + 1);
    }
}

} // verus!
