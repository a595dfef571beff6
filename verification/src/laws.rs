//! What holds of every repair.

use crate::chars::{is_letter, is_quote, is_white, starts_number};
use crate::grammar::{
    all_found, array_at, duplicate_key_reason, found_added, item_added, lemma_array_at,
    lemma_member_head, lemma_member_value, lemma_object_at, lemma_set_at, lemma_value_at,
    member_value, merged, object_at, outcome_end, outside_context, repaired, set_at,
    several_values_reason, value_at, word, Failure, Outcome,
};
use crate::scan::{
    at, fence_end, lemma_fence_end, lemma_skip_trivia, parenthesis_starts_value, skip_separators,
    skip_trivia, Context,
};
use crate::token::{array_member_starts, lemma_object_key, object_key};
use crate::value::{distinct_keys, has_key, inserted, lemma_position, position, well_formed, Json};
use vstd::prelude::*;

verus! {

/// An insertion keeps the keys of an object distinct.
pub proof fn lemma_insertion_keeps_keys_distinct(
    members: Seq<(Seq<char>, Json)>,
    key: Seq<char>,
    value: Json,
)
    requires
        distinct_keys(members),
    ensures
        distinct_keys(inserted(members, key, value)),
{
    lemma_position(members, key, 0);
}

/// After an insertion the key has the new value, and every other key has the value that it had.
pub proof fn lemma_insertion_sets_one_key(
    members: Seq<(Seq<char>, Json)>,
    key: Seq<char>,
    value: Json,
    other: Seq<char>,
)
    ensures
        ({
            let grown = inserted(members, key, value);
            &&& has_key(grown, key)
            &&& grown[position(grown, key)].1 == value
            &&& other != key ==> has_key(grown, other) == has_key(members, other)
            &&& other != key && has_key(members, other) ==> position(grown, other) == position(
                members,
                other,
            ) && grown[position(grown, other)].1 == members[position(members, other)].1
        }),
{
    let grown = inserted(members, key, value);
    lemma_position(members, key, 0);
    lemma_position(grown, key, 0);
    lemma_position(members, other, 0);
    lemma_position(grown, other, 0);
    let at = position(members, key);
    assert(grown[at].0 == key);
    if other != key {
        if has_key(grown, other) {
            let i = position(grown, other);
            assert(grown[i].0 == other);
            assert(members[i].0 == other);
        }
        if has_key(members, other) {
            let i = position(members, other);
            assert(members[i].0 == other);
            assert(grown[i].0 == other);
        }
    }
}

/// Whether an outcome is one that reading can have: a value is well formed, and a refusal comes
/// in strict mode alone, for a repeated key.
spec fn is_sound(outcome: Outcome, strict: bool) -> bool {
    match outcome {
        Outcome::Value(v, _) => well_formed(v),
        Outcome::Nothing(_) => true,
        Outcome::Rejected(reason) => strict && is_duplicate_reason(reason),
    }
}

/// Whether a reason names a repeated key.
pub open spec fn is_duplicate_reason(reason: Seq<char>) -> bool {
    exists|key: Seq<char>| reason == #[trigger] duplicate_key_reason(key)
}

spec fn all_well_formed(items: Seq<Json>) -> bool {
    forall|i: int| 0 <= i < items.len() ==> well_formed(#[trigger] items[i])
}

spec fn members_well_formed(members: Seq<(Seq<char>, Json)>) -> bool {
    distinct_keys(members) && forall|i: int|
        0 <= i < members.len() ==> well_formed((#[trigger] members[i]).1)
}

proof fn lemma_insertion_well_formed(
    members: Seq<(Seq<char>, Json)>,
    key: Seq<char>,
    value: Json,
)
    requires
        members_well_formed(members),
        well_formed(value),
    ensures
        members_well_formed(inserted(members, key, value)),
{
    lemma_insertion_keeps_keys_distinct(members, key, value);
    lemma_position(members, key, 0);
}

proof fn lemma_value_sound(s: Seq<char>, i: int, context: Context, strict: bool)
    ensures
        is_sound(value_at(s, i, context, strict), strict),
    decreases s.len() - i, 0int,
{
    let j = skip_trivia(s, i, true);
    lemma_skip_trivia(s, i, true);
    match at(s, j) {
        None => {},
        Some(c) => {
            if c == '{' {
                lemma_object_sound(s, j + 1, strict, Seq::empty());
            } else if c == '[' {
                lemma_array_sound(s, j + 1, ']', strict, Seq::empty());
            } else if c == '(' {
                if context.outside() && !parenthesis_starts_value(s, j) {
                    lemma_value_sound(s, j + 1, context, strict);
                } else {
                    lemma_array_sound(s, j + 1, ')', strict, Seq::empty());
                }
            } else if c == '\\' && (at(s, j + 1) matches Some(q) && is_quote(q)) {
            } else if is_quote(c) || starts_number(c) {
            } else if c == '_' || is_letter(c) {
                match word(s, j, context) {
                    Outcome::Nothing(next) => {
                        if context.outside() && j < next <= s.len() {
                            lemma_value_sound(s, next, context, strict);
                        }
                    },
                    _ => {},
                }
            } else if c == '`' {
                lemma_fence_end(s, j);
                lemma_value_sound(s, fence_end(s, j), context, strict);
            } else if (c == ',' || c == ':') && context == Context::ObjectValue {
            } else if (c == '}' || c == ']' || c == ')') && !context.outside() {
            } else if context.outside() {
                lemma_value_sound(s, j + 1, context, strict);
            }
        },
    }
}

proof fn lemma_member_sound(s: Seq<char>, i: int, strict: bool)
    ensures
        is_sound(member_value(s, i, strict), strict),
    decreases s.len() - i, 1int,
{
    lemma_value_sound(s, i, Context::ObjectValue, strict);
}

proof fn lemma_set_sound(s: Seq<char>, i: int, items: Seq<Json>)
    requires
        all_well_formed(items),
    ensures
        is_sound(set_at(s, i, items), false),
    decreases s.len() - i,
{
    let j = skip_trivia(s, i, true);
    let start = if at(s, j) == Some(',') {
        skip_trivia(s, j + 1, true)
    } else {
        j
    };
    let (key, k) = object_key(s, start);
    lemma_skip_trivia(s, i, true);
    lemma_skip_trivia(s, j + 1, true);
    if at(s, start) is Some && at(s, start) != Some('}') {
        lemma_object_key(s, start);
        lemma_set_sound(
            s,
            if k > i {
                k
            } else {
                i + 1
            },
            if key.len() > 0 {
                items.push(Json::String(key))
            } else {
                items
            },
        );
    }
}

proof fn lemma_object_sound(s: Seq<char>, i: int, strict: bool, members: Seq<(Seq<char>, Json)>)
    requires
        members_well_formed(members),
    ensures
        is_sound(object_at(s, i, strict, members), strict),
    decreases s.len() - i, 2int,
{
    let j = skip_separators(s, i);
    let (key, k) = object_key(s, j);
    let after_key = skip_trivia(s, k, true);
    let start = skip_trivia(
        s,
        if at(s, after_key) == Some(':') {
            after_key + 1
        } else {
            after_key
        },
        true,
    );
    lemma_member_head(s, i);
    match at(s, j) {
        None => {},
        Some(c) => if c == '}' || c == ']' || c == ')' || c == '[' {
        } else if at(s, after_key) == Some(',') || at(s, after_key) == Some('}') {
            lemma_set_sound(s, after_key, seq![Json::String(key)]);
        } else if key.len() == 0 && at(s, after_key) is None {
        } else {
            lemma_member_sound(s, start, strict);
            match (match at(s, start) {
                None | Some(',') | Some('}') | Some(']') | Some(')') => Outcome::Value(
                    Json::String(Seq::empty()),
                    start,
                ),
                _ => member_value(s, start, strict),
            }) {
                Outcome::Value(value, end) => {
                    let grown = inserted(members, key, value);
                    let next = skip_trivia(s, end, true);
                    lemma_insertion_well_formed(members, key, value);
                    if strict && has_key(members, key) {
                        assert(is_duplicate_reason(duplicate_key_reason(key)));
                    } else if at(s, next) == Some('}') {
                    } else if at(s, next) == Some(',') && i < next {
                        lemma_object_sound(s, next + 1, strict, grown);
                    } else if i < next <= s.len() {
                        lemma_object_sound(s, next, strict, grown);
                    }
                },
                _ => {},
            }
        },
    }
}

proof fn lemma_array_sound(s: Seq<char>, i: int, closing: char, strict: bool, items: Seq<Json>)
    requires
        all_well_formed(items),
    ensures
        is_sound(array_at(s, i, closing, strict, items), strict),
    decreases s.len() - i, 2int,
{
    let j = skip_separators(s, i);
    let (key, k) = object_key(s, j);
    let after_key = skip_trivia(s, k, true);
    let start = if at(s, after_key) == Some(':') {
        after_key + 1
    } else {
        after_key
    };
    lemma_member_head(s, i);
    match at(s, j) {
        None => {},
        Some(c) => if c == closing || (c == '}' && closing == ']') || (c == ')' && closing == ']') {
        } else {
            let (grown, end) = if array_member_starts(s, j) {
                lemma_member_sound(s, start, strict);
                match member_value(s, start, strict) {
                    Outcome::Value(value, end) => (
                        items.push(Json::Object(seq![(key, value)])),
                        Some(end),
                    ),
                    _ => (items, None),
                }
            } else {
                lemma_value_sound(s, j, Context::Array, strict);
                match value_at(s, j, Context::Array, strict) {
                    Outcome::Value(value, end) => (item_added(items, value), Some(end)),
                    Outcome::Nothing(end) => (
                        items,
                        Some(
                            if at(s, end) is Some {
                                end + 1
                            } else {
                                end
                            },
                        ),
                    ),
                    _ => (items, None),
                }
            };
            match end {
                Some(end) => {
                    let next = skip_trivia(s, end, true);
                    assert(all_well_formed(grown));
                    if at(s, next) == Some(',') && i < next {
                        lemma_array_sound(s, next + 1, closing, strict, grown);
                    } else if i < next <= s.len() {
                        lemma_array_sound(s, next, closing, strict, grown);
                    }
                },
                None => {},
            }
        },
    }
}

proof fn lemma_merged_well_formed(
    members: Seq<(Seq<char>, Json)>,
    others: Seq<(Seq<char>, Json)>,
    count: int,
)
    requires
        members_well_formed(members),
        members_well_formed(others),
        0 <= count <= others.len(),
    ensures
        members_well_formed(merged(members, others, count)),
    decreases count,
{
    if count > 0 {
        lemma_merged_well_formed(members, others, count - 1);
        lemma_insertion_well_formed(
            merged(members, others, count - 1),
            others[count - 1].0,
            others[count - 1].1,
        );
    }
}

proof fn lemma_found_sound(s: Seq<char>, i: int, strict: bool, values: Seq<Json>)
    requires
        all_well_formed(values),
        forall|k: int|
            0 <= k < values.len() ==> #[trigger] values[k] != Json::String(Seq::empty()),
    ensures
        match all_found(s, i, strict, values) {
            Ok(found) => all_well_formed(found) && forall|k: int|
                0 <= k < found.len() ==> #[trigger] found[k] != Json::String(Seq::empty()),
            Err(reason) => strict && is_duplicate_reason(reason),
        },
    decreases s.len() - i,
{
    if 0 <= i < s.len() {
        let found = value_at(s, i, outside_context(values), strict);
        lemma_value_sound(s, i, outside_context(values), strict);
        let next = match outcome_end(found) {
            Some(next) if i < next <= s.len() => next,
            _ => i + 1,
        };
        match found {
            Outcome::Value(value, _) => {
                let grown = if value == Json::String(Seq::empty()) {
                    values
                } else {
                    found_added(values, value, strict)
                };
                if values.len() > 0 {
                    match (values.last(), value) {
                        (Json::Object(members), Json::Object(others)) => {
                            assert(well_formed(values[values.len() - 1]));
                            lemma_merged_well_formed(members, others, others.len() as int);
                        },
                        _ => {},
                    }
                }
                lemma_found_sound(s, next, strict, grown);
            },
            Outcome::Nothing(_) => {
                lemma_found_sound(s, next, strict, values);
            },
            Outcome::Rejected(_) => {},
        }
    }
}

/// A repaired value is well formed: no key occurs twice in an object, and every number is one
/// that JSON here can hold. It is never the empty string, which stands for nothing found.
pub proof fn lemma_repair_is_well_formed(s: Seq<char>, strict: bool)
    ensures
        repaired(s, strict) matches Ok(v) ==> well_formed(v) && v != Json::String(Seq::empty()),
{
    lemma_found_sound(s, 0, strict, Seq::empty());
}

/// Outside strict mode the only failure is to find nothing.
pub proof fn lemma_lenient_repair_refuses_nothing(s: Seq<char>)
    ensures
        repaired(s, false) matches Err(failure) ==> failure == Failure::Empty,
{
    lemma_found_sound(s, 0, false, Seq::empty());
}

/// Strict mode refuses a text for a repeated key or for several values, and for nothing else.
pub proof fn lemma_strict_repair_reasons(s: Seq<char>)
    ensures
        repaired(s, true) matches Err(Failure::Strict(reason)) ==> reason
            == several_values_reason() || is_duplicate_reason(reason),
{
    lemma_found_sound(s, 0, true, Seq::empty());
}

/// Whether strict mode refuses, or finds what is found without it.
pub open spec fn agrees(strict: Outcome, lenient: Outcome) -> bool {
    strict is Rejected || strict == lenient
}

proof fn lemma_value_agrees(s: Seq<char>, i: int, context: Context)
    ensures
        agrees(value_at(s, i, context, true), value_at(s, i, context, false)),
    decreases s.len() - i, 0int,
{
    let j = skip_trivia(s, i, true);
    lemma_skip_trivia(s, i, true);
    match at(s, j) {
        None => {},
        Some(c) => {
            if c == '{' {
                lemma_object_agrees(s, j + 1, Seq::empty());
            } else if c == '[' {
                lemma_array_agrees(s, j + 1, ']', Seq::empty());
            } else if c == '(' {
                if context.outside() && !parenthesis_starts_value(s, j) {
                    lemma_value_agrees(s, j + 1, context);
                } else {
                    lemma_array_agrees(s, j + 1, ')', Seq::empty());
                }
            } else if c == '\\' && (at(s, j + 1) matches Some(q) && is_quote(q)) {
            } else if is_quote(c) || starts_number(c) {
            } else if c == '_' || is_letter(c) {
                match word(s, j, context) {
                    Outcome::Nothing(next) => {
                        if context.outside() && j < next <= s.len() {
                            lemma_value_agrees(s, next, context);
                        }
                    },
                    _ => {},
                }
            } else if c == '`' {
                lemma_fence_end(s, j);
                lemma_value_agrees(s, fence_end(s, j), context);
            } else if (c == ',' || c == ':') && context == Context::ObjectValue {
            } else if (c == '}' || c == ']' || c == ')') && !context.outside() {
            } else if context.outside() {
                lemma_value_agrees(s, j + 1, context);
            }
        },
    }
}

proof fn lemma_member_agrees(s: Seq<char>, i: int)
    ensures
        agrees(member_value(s, i, true), member_value(s, i, false)),
    decreases s.len() - i, 1int,
{
    lemma_value_agrees(s, i, Context::ObjectValue);
}

/// Strict mode refuses an object, or reads it as without it.
pub proof fn lemma_object_agrees(s: Seq<char>, i: int, members: Seq<(Seq<char>, Json)>)
    ensures
        agrees(object_at(s, i, true, members), object_at(s, i, false, members)),
    decreases s.len() - i, 2int,
{
    let j = skip_separators(s, i);
    let (key, k) = object_key(s, j);
    let after_key = skip_trivia(s, k, true);
    let start = skip_trivia(
        s,
        if at(s, after_key) == Some(':') {
            after_key + 1
        } else {
            after_key
        },
        true,
    );
    lemma_member_head(s, i);
    match at(s, j) {
        None => {},
        Some(c) => if c == '}' || c == ']' || c == ')' || c == '[' {
        } else if at(s, after_key) == Some(',') || at(s, after_key) == Some('}') {
        } else if key.len() == 0 && at(s, after_key) is None {
        } else {
            lemma_member_agrees(s, start);
            match (match at(s, start) {
                None | Some(',') | Some('}') | Some(']') | Some(')') => Outcome::Value(
                    Json::String(Seq::empty()),
                    start,
                ),
                _ => member_value(s, start, true),
            }) {
                Outcome::Value(value, end) => {
                    let grown = inserted(members, key, value);
                    let next = skip_trivia(s, end, true);
                    if at(s, next) == Some(',') && i < next {
                        lemma_object_agrees(s, next + 1, grown);
                    } else if i < next <= s.len() {
                        lemma_object_agrees(s, next, grown);
                    }
                },
                _ => {},
            }
        },
    }
}

proof fn lemma_array_agrees(s: Seq<char>, i: int, closing: char, items: Seq<Json>)
    ensures
        agrees(array_at(s, i, closing, true, items), array_at(s, i, closing, false, items)),
    decreases s.len() - i, 2int,
{
    let j = skip_separators(s, i);
    let (key, k) = object_key(s, j);
    let after_key = skip_trivia(s, k, true);
    let start = if at(s, after_key) == Some(':') {
        after_key + 1
    } else {
        after_key
    };
    lemma_member_head(s, i);
    match at(s, j) {
        None => {},
        Some(c) => if c == closing || (c == '}' && closing == ']') || (c == ')' && closing == ']') {
        } else {
            let (grown, end) = if array_member_starts(s, j) {
                lemma_member_agrees(s, start);
                match member_value(s, start, true) {
                    Outcome::Value(value, end) => (
                        items.push(Json::Object(seq![(key, value)])),
                        Some(end),
                    ),
                    _ => (items, None),
                }
            } else {
                lemma_value_agrees(s, j, Context::Array);
                match value_at(s, j, Context::Array, true) {
                    Outcome::Value(value, end) => (item_added(items, value), Some(end)),
                    Outcome::Nothing(end) => (
                        items,
                        Some(
                            if at(s, end) is Some {
                                end + 1
                            } else {
                                end
                            },
                        ),
                    ),
                    _ => (items, None),
                }
            };
            match end {
                Some(end) => {
                    let next = skip_trivia(s, end, true);
                    if at(s, next) == Some(',') && i < next {
                        lemma_array_agrees(s, next + 1, closing, grown);
                    } else if i < next <= s.len() {
                        lemma_array_agrees(s, next, closing, grown);
                    }
                },
                None => {},
            }
        },
    }
}

/// Finding goes on: no value that was found is given up in strict mode.
proof fn lemma_found_grows(s: Seq<char>, i: int, values: Seq<Json>)
    ensures
        all_found(s, i, true, values) matches Ok(found) ==> values.len() <= found.len(),
    decreases s.len() - i,
{
    if 0 <= i < s.len() {
        let found = value_at(s, i, outside_context(values), true);
        let next = match outcome_end(found) {
            Some(next) if i < next <= s.len() => next,
            _ => i + 1,
        };
        match found {
            Outcome::Value(value, _) => {
                lemma_found_grows(
                    s,
                    next,
                    if value == Json::String(Seq::empty()) {
                        values
                    } else {
                        found_added(values, value, true)
                    },
                );
            },
            Outcome::Nothing(_) => {
                lemma_found_grows(s, next, values);
            },
            Outcome::Rejected(_) => {},
        }
    }
}

proof fn lemma_found_agrees(s: Seq<char>, i: int, values: Seq<Json>)
    requires
        values.len() <= 1,
    ensures
        all_found(s, i, true, values) matches Ok(found) ==> found.len() <= 1 ==> all_found(
            s,
            i,
            false,
            values,
        ) == Ok::<Seq<Json>, Seq<char>>(found),
    decreases s.len() - i,
{
    if 0 <= i < s.len() {
        lemma_value_agrees(s, i, outside_context(values));
        let found = value_at(s, i, outside_context(values), true);
        let next = match outcome_end(found) {
            Some(next) if i < next <= s.len() => next,
            _ => i + 1,
        };
        match found {
            Outcome::Value(value, _) => {
                if value == Json::String(Seq::empty()) {
                    lemma_found_agrees(s, next, values);
                } else if values.len() == 0 {
                    lemma_found_agrees(s, next, values.push(value));
                } else {
                    lemma_found_grows(s, next, values.push(value));
                }
            },
            Outcome::Nothing(_) => {
                lemma_found_agrees(s, next, values);
            },
            Outcome::Rejected(_) => {},
        }
    }
}

/// Strict mode only refuses: a text that it does not refuse is repaired as without it.
pub proof fn lemma_strict_repair_only_refuses(s: Seq<char>)
    ensures
        repaired(s, true) == repaired(s, false) || repaired(s, true) matches Err(
            Failure::Strict(_),
        ),
{
    lemma_found_agrees(s, 0, Seq::empty());
}

proof fn lemma_blank_rest(s: Seq<char>, i: int)
    requires
        0 <= i <= s.len(),
        forall|k: int| 0 <= k < s.len() ==> is_white(#[trigger] s[k]),
    ensures
        skip_trivia(s, i, true) == s.len(),
    decreases s.len() - i,
{
    lemma_skip_trivia(s, i, true);
    let j = skip_trivia(s, i, true);
    if j < s.len() {
        assert(is_white(s[j]));
    }
}

/// In a text of whitespace alone nothing is found.
pub proof fn lemma_blank_text_has_no_value(s: Seq<char>, strict: bool)
    requires
        forall|k: int| 0 <= k < s.len() ==> is_white(#[trigger] s[k]),
    ensures
        repaired(s, strict) == Err::<Json, Failure>(Failure::Empty),
{
    if s.len() > 0 {
        lemma_blank_rest(s, 0);
        assert(value_at(s, 0, Context::Start, strict) == Outcome::Nothing(s.len() as int));
        assert(all_found(s, s.len() as int, strict, Seq::empty()) == Ok::<Seq<Json>, Seq<char>>(
            Seq::empty(),
        ));
    }
}

/// Merging one object into another: a key of the second has its value there, and any other key
/// of the first keeps the value that it had.
pub proof fn lemma_merge_prefers_the_second(
    members: Seq<(Seq<char>, Json)>,
    others: Seq<(Seq<char>, Json)>,
    key: Seq<char>,
)
    requires
        distinct_keys(others),
    ensures
        ({
            let all = merged(members, others, others.len() as int);
            &&& has_key(all, key) == (has_key(members, key) || has_key(others, key))
            &&& has_key(others, key) ==> all[position(all, key)].1 == others[position(
                others,
                key,
            )].1
            &&& has_key(members, key) && !has_key(others, key) ==> all[position(all, key)].1
                == members[position(members, key)].1
        }),
{
    lemma_merge_steps(members, others, key, others.len() as int);
    lemma_position(others, key, 0);
}

proof fn lemma_merge_steps(
    members: Seq<(Seq<char>, Json)>,
    others: Seq<(Seq<char>, Json)>,
    key: Seq<char>,
    count: int,
)
    requires
        distinct_keys(others),
        0 <= count <= others.len(),
    ensures
        ({
            let all = merged(members, others, count);
            let at = position(others, key);
            &&& at < count ==> has_key(all, key) && all[position(all, key)].1 == others[at].1
            &&& at >= count ==> has_key(all, key) == has_key(members, key)
            &&& at >= count && has_key(members, key) ==> all[position(all, key)].1
                == members[position(members, key)].1
        }),
    decreases count,
{
    lemma_position(others, key, 0);
    if count > 0 {
        lemma_merge_steps(members, others, key, count - 1);
        lemma_insertion_sets_one_key(
            merged(members, others, count - 1),
            others[count - 1].0,
            others[count - 1].1,
            key,
        );
    }
}

proof fn lemma_object_is_container(s: Seq<char>, i: int, members: Seq<(Seq<char>, Json)>)
    requires
        0 <= i <= s.len(),
    ensures
        object_at(s, i, false, members) matches Outcome::Value(v, _) ==> v is Object || v is Array,
    decreases s.len() - i,
{
    let j = skip_separators(s, i);
    let (key, k) = object_key(s, j);
    let after_key = skip_trivia(s, k, true);
    let start = skip_trivia(
        s,
        if at(s, after_key) == Some(':') {
            after_key + 1
        } else {
            after_key
        },
        true,
    );
    lemma_member_head(s, i);
    match at(s, j) {
        None => {},
        Some(c) => if c == '}' || c == ']' || c == ')' || c == '[' {
        } else if at(s, after_key) == Some(',') || at(s, after_key) == Some('}') {
            lemma_set_at(s, after_key, seq![Json::String(key)]);
        } else if key.len() == 0 && at(s, after_key) is None {
        } else {
            match (match at(s, start) {
                None | Some(',') | Some('}') | Some(']') | Some(')') => Outcome::Value(
                    Json::String(Seq::empty()),
                    start,
                ),
                _ => member_value(s, start, false),
            }) {
                Outcome::Value(value, end) => {
                    let grown = inserted(members, key, value);
                    let next = skip_trivia(s, end, true);
                    if at(s, next) == Some('}') {
                    } else if at(s, next) == Some(',') && i < next {
                        lemma_object_is_container(s, next + 1, grown);
                    } else if i < next <= s.len() {
                        lemma_object_is_container(s, next, grown);
                    }
                },
                _ => {
                    lemma_member_value(s, start, false);
                },
            }
        },
    }
}

/// Whether a list holds no empty string.
spec fn no_blank(items: Seq<Json>) -> bool {
    forall|k: int| 0 <= k < items.len() ==> #[trigger] items[k] != Json::String(Seq::empty())
}

proof fn lemma_array_has_no_blank(s: Seq<char>, i: int, closing: char, items: Seq<Json>)
    requires
        no_blank(items),
    ensures
        array_at(s, i, closing, false, items) matches Outcome::Value(Json::Array(all), _)
            ==> no_blank(all),
    decreases s.len() - i,
{
    let j = skip_separators(s, i);
    let (key, k) = object_key(s, j);
    let after_key = skip_trivia(s, k, true);
    let start = if at(s, after_key) == Some(':') {
        after_key + 1
    } else {
        after_key
    };
    match at(s, j) {
        None => {},
        Some(c) => if c == closing || (c == '}' && closing == ']') || (c == ')' && closing == ']') {
        } else {
            let (grown, end) = if array_member_starts(s, j) {
                match member_value(s, start, false) {
                    Outcome::Value(value, end) => (
                        items.push(Json::Object(seq![(key, value)])),
                        Some(end),
                    ),
                    _ => (items, None),
                }
            } else {
                match value_at(s, j, Context::Array, false) {
                    Outcome::Value(value, end) => (item_added(items, value), Some(end)),
                    Outcome::Nothing(end) => (
                        items,
                        Some(
                            if at(s, end) is Some {
                                end + 1
                            } else {
                                end
                            },
                        ),
                    ),
                    _ => (items, None),
                }
            };
            match end {
                Some(end) => {
                    let next = skip_trivia(s, end, true);
                    assert(no_blank(grown));
                    if at(s, next) == Some(',') && i < next {
                        lemma_array_has_no_blank(s, next + 1, closing, grown);
                    } else if i < next <= s.len() {
                        lemma_array_has_no_blank(s, next, closing, grown);
                    }
                },
                None => {},
            }
        },
    }
}

/// What strict mode refuses is a value without it.
proof fn lemma_refused_value(s: Seq<char>, i: int, context: Context)
    requires
        0 <= i <= s.len(),
        context.outside(),
        value_at(s, i, context, true) is Rejected,
    ensures
        value_at(s, i, context, false) matches Outcome::Value(v, _) && v != Json::String(
            Seq::empty(),
        ),
    decreases s.len() - i,
{
    let j = skip_trivia(s, i, true);
    lemma_skip_trivia(s, i, true);
    lemma_value_sound(s, i, context, false);
    match at(s, j) {
        None => {},
        Some(c) => {
            if c == '{' {
                lemma_object_at(s, j + 1, false, Seq::empty());
                lemma_object_sound(s, j + 1, false, Seq::empty());
                lemma_object_is_container(s, j + 1, Seq::empty());
            } else if c == '[' {
                lemma_array_at(s, j + 1, ']', false, Seq::empty());
                lemma_array_sound(s, j + 1, ']', false, Seq::empty());
            } else if c == '(' {
                if !parenthesis_starts_value(s, j) {
                    lemma_refused_value(s, j + 1, context);
                } else {
                    lemma_array_at(s, j + 1, ')', false, Seq::empty());
                    lemma_array_sound(s, j + 1, ')', false, Seq::empty());
                    lemma_array_has_no_blank(s, j + 1, ')', Seq::empty());
                }
            } else if c == '\\' && (at(s, j + 1) matches Some(q) && is_quote(q)) {
            } else if is_quote(c) || starts_number(c) {
            } else if c == '_' || is_letter(c) {
                match word(s, j, context) {
                    Outcome::Nothing(next) => {
                        if j < next <= s.len() {
                            lemma_refused_value(s, next, context);
                        }
                    },
                    _ => {},
                }
            } else if c == '`' {
                lemma_fence_end(s, j);
                lemma_refused_value(s, fence_end(s, j), context);
            } else {
                lemma_refused_value(s, j + 1, context);
            }
        },
    }
}

proof fn lemma_found_stays(s: Seq<char>, i: int, values: Seq<Json>)
    requires
        values.len() > 0,
    ensures
        all_found(s, i, false, values) matches Ok(found) ==> found.len() > 0,
    decreases s.len() - i,
{
    if 0 <= i < s.len() {
        let found = value_at(s, i, outside_context(values), false);
        let next = match outcome_end(found) {
            Some(next) if i < next <= s.len() => next,
            _ => i + 1,
        };
        match found {
            Outcome::Value(value, _) => {
                lemma_found_stays(
                    s,
                    next,
                    if value == Json::String(Seq::empty()) {
                        values
                    } else {
                        found_added(values, value, false)
                    },
                );
            },
            Outcome::Nothing(_) => {
                lemma_found_stays(s, next, values);
            },
            Outcome::Rejected(_) => {},
        }
    }
}

proof fn lemma_refused_found(s: Seq<char>, i: int, values: Seq<Json>)
    requires
        all_found(s, i, true, values) matches Ok(found) ==> values.len() < found.len(),
    ensures
        all_found(s, i, false, values) matches Ok(found) ==> found.len() > 0,
    decreases s.len() - i,
{
    if 0 <= i < s.len() {
        lemma_value_agrees(s, i, outside_context(values));
        if value_at(s, i, outside_context(values), true) is Rejected {
            lemma_refused_value(s, i, outside_context(values));
        }
        let found = value_at(s, i, outside_context(values), false);
        let next = match outcome_end(found) {
            Some(next) if i < next <= s.len() => next,
            _ => i + 1,
        };
        match found {
            Outcome::Value(value, _) => {
                if value == Json::String(Seq::empty()) {
                    lemma_refused_found(s, next, values);
                } else {
                    lemma_found_stays(s, next, found_added(values, value, false));
                }
            },
            Outcome::Nothing(_) => {
                lemma_refused_found(s, next, values);
            },
            Outcome::Rejected(_) => {},
        }
    }
}

/// Strict mode refuses only what would be repaired without it.
pub proof fn lemma_refused_text_is_repaired_otherwise(s: Seq<char>)
    requires
        repaired(s, true) matches Err(Failure::Strict(_)),
    ensures
        repaired(s, false) is Ok,
{
    lemma_found_sound(s, 0, false, Seq::empty());
    lemma_refused_found(s, 0, Seq::empty());
}

/// Strict mode refuses a text in which several values stand outside any other, even if they
/// would become one value without it.
pub proof fn lemma_strict_repair_refuses_several_values(s: Seq<char>)
    ensures
        repaired(s, true) is Ok ==> (all_found(s, 0, true, Seq::empty()) matches Ok(found)
            && found.len() == 1),
        all_found(s, 0, false, Seq::empty()) matches Ok(found) ==> found.len() > 1 ==> repaired(
            s,
            true,
        ) matches Err(Failure::Strict(_)),
{
    lemma_found_agrees(s, 0, Seq::empty());
}

/// In strict mode no member that was read is replaced: what is read of an object so far starts
/// the object that is found.
pub proof fn lemma_strict_object_replaces_nothing(
    s: Seq<char>,
    i: int,
    members: Seq<(Seq<char>, Json)>,
)
    ensures
        object_at(s, i, true, members) matches Outcome::Value(Json::Object(all), _)
            ==> members.len() <= all.len() && all.take(members.len() as int) == members,
    decreases s.len() - i,
{
    let j = skip_separators(s, i);
    let (key, k) = object_key(s, j);
    let after_key = skip_trivia(s, k, true);
    let start = skip_trivia(
        s,
        if at(s, after_key) == Some(':') {
            after_key + 1
        } else {
            after_key
        },
        true,
    );
    assert(members.take(members.len() as int) == members);
    match at(s, j) {
        None => {},
        Some(c) => if c == '}' || c == ']' || c == ')' || c == '[' {
        } else if at(s, after_key) == Some(',') || at(s, after_key) == Some('}') {
            lemma_member_head(s, i);
            lemma_set_at(s, after_key, seq![Json::String(key)]);
        } else if key.len() == 0 && at(s, after_key) is None {
        } else {
            match (match at(s, start) {
                None | Some(',') | Some('}') | Some(']') | Some(')') => Outcome::Value(
                    Json::String(Seq::empty()),
                    start,
                ),
                _ => member_value(s, start, true),
            }) {
                Outcome::Value(value, end) => {
                    let grown = inserted(members, key, value);
                    let next = skip_trivia(s, end, true);
                    lemma_position(members, key, 0);
                    if !has_key(members, key) {
                        assert(grown == members.push((key, value)));
                        assert(grown.take(members.len() as int) == members);
                    }
                    if at(s, next) == Some(',') && i < next {
                        lemma_strict_object_replaces_nothing(s, next + 1, grown);
                    } else if i < next <= s.len() {
                        lemma_strict_object_replaces_nothing(s, next, grown);
                    }
                    match object_at(s, i, true, members) {
                        Outcome::Value(Json::Object(all), _) => {
                            assert(all.take(grown.len() as int) == grown);
                            assert(all.take(members.len() as int) =~= grown.take(
                                members.len() as int,
                            ));
                        },
                        _ => {},
                    }
                },
                _ => {},
            }
        },
    }
}

/// Reading a value never goes back and never leaves the text, and it refuses in strict mode
/// alone, for a repeated key.
pub proof fn lemma_reading_goes_forward(s: Seq<char>, i: int, context: Context, strict: bool)
    requires
        0 <= i <= s.len(),
    ensures
        outcome_end(value_at(s, i, context, strict)) matches Some(next) ==> i <= next <= s.len(),
        value_at(s, i, context, strict) matches Outcome::Rejected(reason) ==> strict
            && is_duplicate_reason(reason),
{
    lemma_value_at(s, i, context, strict);
    lemma_value_sound(s, i, context, strict);
}

} // verus!
