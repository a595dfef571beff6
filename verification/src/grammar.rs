//! What a malformed text means: the values that the repair rules find in it.
//!
//! Each function reads a text from some place on and gives what it finds together with the place
//! after it. Reading goes on from a place only if that lies further on; the lemmas below show
//! that it always does.

use crate::chars::{closing_quote, is_letter, is_quote, starts_number};
use crate::number::bare_value;
use crate::scan::{
    at, fence_end, lemma_fence_end, lemma_skip_separators, lemma_skip_trivia,
    parenthesis_starts_value, skip_separators, skip_trivia, Context,
};
use crate::text::{trimmed, Trim};
use crate::token::{
    array_member_starts, bare_ends, bare_token, lemma_bare_rest, lemma_object_key,
    lemma_string_rest, object_key, quoted_string, Stops,
};
use crate::value::{has_key, inserted, same, Json};
use vstd::prelude::*;

verus! {

/// What reading gives: a value and the place after it, no value and the place where reading
/// stopped, or a refusal with its reason.
pub enum Outcome {
    Value(Json, int),
    Nothing(int),
    Rejected(Seq<char>),
}

/// The value of the bare word at `i`, if it has one, and the place after it. Outside any value
/// words are prose, unless the text ends with them. Where no value has been found before them
/// they have a value only if they are true, false, null or a number.
pub open spec fn word(s: Seq<char>, i: int, context: Context) -> Outcome {
    let stops = if context.outside() {
        Stops::Prose
    } else {
        Stops::Value
    };
    let (text, next) = bare_token(s, i, stops, context);
    let prose = (context.outside() && at(s, next) is Some) || (context == Context::Start
        && bare_value(text) is String);
    if trimmed(text, Trim::White).len() == 0 || prose {
        Outcome::Nothing(next)
    } else {
        Outcome::Value(bare_value(text), next)
    }
}

/// A list in parentheses with one item is that item.
pub open spec fn without_parentheses(list: Outcome) -> Outcome {
    match list {
        Outcome::Value(Json::Array(items), next) if items.len() == 1 => Outcome::Value(
            items[0],
            next,
        ),
        _ => list,
    }
}

/// The string at `i` as a value.
pub open spec fn string_value(s: Seq<char>, i: int, context: Context) -> Outcome {
    let (text, next) = quoted_string(s, i, context);
    Outcome::Value(Json::String(text), next)
}

/// The value that comes next at `i`.
pub open spec fn value_at(s: Seq<char>, i: int, context: Context, strict: bool) -> Outcome
    decreases s.len() - i, 0int,
{
    let j = skip_trivia(s, i, true);
    proof {
        lemma_skip_trivia(s, i, true);
        if at(s, j) == Some('`') {
            lemma_fence_end(s, j);
        }
    }
    match at(s, j) {
        None => Outcome::Nothing(j),
        Some(c) => if c == '{' {
            object_at(s, j + 1, strict, Seq::empty())
        } else if c == '[' {
            array_at(s, j + 1, ']', strict, Seq::empty())
        } else if c == '(' {
            if context.outside() && !parenthesis_starts_value(s, j) {
                value_at(s, j + 1, context, strict)
            } else {
                without_parentheses(array_at(s, j + 1, ')', strict, Seq::empty()))
            }
        } else if c == '\\' && (at(s, j + 1) matches Some(q) && is_quote(q)) {
            string_value(s, j + 1, context)
        } else if is_quote(c) {
            string_value(s, j, context)
        } else if starts_number(c) {
            let (text, next) = bare_token(s, j, Stops::Value, context);
            Outcome::Value(bare_value(text), next)
        } else if c == '_' || is_letter(c) {
            match word(s, j, context) {
                Outcome::Nothing(next) if context.outside() && j < next <= s.len() => {
                    value_at(s, next, context, strict)
                },
                found => found,
            }
        } else if c == '`' {
            value_at(s, fence_end(s, j), context, strict)
        } else if (c == ',' || c == ':') && context == Context::ObjectValue {
            Outcome::Value(Json::String(Seq::empty()), j)
        } else if (c == '}' || c == ']' || c == ')') && !context.outside() {
            Outcome::Nothing(j)
        } else if context.outside() {
            value_at(s, j + 1, context, strict)
        } else {
            Outcome::Nothing(j + 1)
        },
    }
}

/// The value of the member whose key ends at `i`: what comes next, or the empty string where
/// the value was left out.
pub open spec fn member_value(s: Seq<char>, i: int, strict: bool) -> Outcome
    decreases s.len() - i, 1int,
{
    match value_at(s, i, Context::ObjectValue, strict) {
        Outcome::Nothing(next) => Outcome::Value(Json::String(Seq::empty()), next),
        found => found,
    }
}

/// Why a repeated key is refused.
pub open spec fn duplicate_key_reason(key: Seq<char>) -> Seq<char> {
    "duplicate key `"@ + key + "` found"@
}

/// Reads on in an object that has the given members so far and goes on at `i`.
pub open spec fn object_at(
    s: Seq<char>,
    i: int,
    strict: bool,
    members: Seq<(Seq<char>, Json)>,
) -> Outcome
    decreases s.len() - i, 2int,
{
    let j = skip_separators(s, i);
    let (key, k) = object_key(s, j);
    let after_key = skip_trivia(s, k, true);
    let start = skip_trivia(
        s,
        if at(s, after_key) == Some(':') {
            after_key + 1
        } else {
            after_key
        },
        true,
    );
    proof {
        lemma_member_head(s, i);
    }
    match at(s, j) {
        None => Outcome::Value(Json::Object(members), j),
        Some(c) => if c == '}' {
            Outcome::Value(Json::Object(members), j + 1)
        } else if c == ']' || c == ')' || c == '[' {
            Outcome::Value(Json::Object(members), j)
        } else if at(s, after_key) == Some(',') || at(s, after_key) == Some('}') {
            set_at(s, after_key, seq![Json::String(key)])
        } else if key.len() == 0 && at(s, after_key) is None {
            Outcome::Value(Json::Object(members), after_key)
        } else {
            match (match at(s, start) {
                None | Some(',') | Some('}') | Some(']') | Some(')') => Outcome::Value(
                    Json::String(Seq::empty()),
                    start,
                ),
                _ => member_value(s, start, strict),
            }) {
                Outcome::Value(value, end) => if strict && has_key(members, key) {
                    Outcome::Rejected(duplicate_key_reason(key))
                } else {
                    let grown = inserted(members, key, value);
                    let next = skip_trivia(s, end, true);
                    if at(s, next) == Some('}') {
                        Outcome::Value(Json::Object(grown), next + 1)
                    } else if at(s, next) == Some(',') && i < next {
                        object_at(s, next + 1, strict, grown)
                    } else if i < next <= s.len() {
                        object_at(s, next, strict, grown)
                    } else {
                        Outcome::Value(Json::Object(grown), next)
                    }
                },
                refused => refused,
            }
        },
    }
}

/// Reads on in a set, an object without values, that has the given items so far and goes on at
/// `i`: it is the array of its keys. A character that no key can hold is passed over.
pub open spec fn set_at(s: Seq<char>, i: int, items: Seq<Json>) -> Outcome
    decreases s.len() - i,
{
    let j = skip_trivia(s, i, true);
    let start = if at(s, j) == Some(',') {
        skip_trivia(s, j + 1, true)
    } else {
        j
    };
    let (key, k) = object_key(s, start);
    proof {
        lemma_skip_trivia(s, i, true);
        lemma_skip_trivia(s, j + 1, true);
        if at(s, start) is Some {
            lemma_object_key(s, start);
        }
    }
    match at(s, start) {
        None => Outcome::Value(Json::Array(items), start),
        Some(c) => if c == '}' {
            Outcome::Value(Json::Array(items), start + 1)
        } else {
            set_at(
                s,
                if k > i {
                    k
                } else {
                    i + 1
                },
                if key.len() > 0 {
                    items.push(Json::String(key))
                } else {
                    items
                },
            )
        },
    }
}

/// The items after one more value was found. The empty string and the ellipsis stand for nothing.
pub open spec fn item_added(items: Seq<Json>, value: Json) -> Seq<Json> {
    if value == Json::String("..."@) || value == Json::String(Seq::empty()) {
        items
    } else {
        items.push(value)
    }
}

/// Reads on in a list that ends with `closing`, has the given items so far and goes on at `i`.
pub open spec fn array_at(
    s: Seq<char>,
    i: int,
    closing: char,
    strict: bool,
    items: Seq<Json>,
) -> Outcome
    decreases s.len() - i, 2int,
{
    let j = skip_separators(s, i);
    let (key, k) = object_key(s, j);
    let after_key = skip_trivia(s, k, true);
    let start = if at(s, after_key) == Some(':') {
        after_key + 1
    } else {
        after_key
    };
    proof {
        lemma_member_head(s, i);
    }
    match at(s, j) {
        None => Outcome::Value(Json::Array(items), j),
        Some(c) => if c == closing {
            Outcome::Value(Json::Array(items), j + 1)
        } else if c == '}' && closing == ']' {
            Outcome::Value(Json::Array(items), j)
        } else if c == ')' && closing == ']' {
            Outcome::Value(Json::Array(items), j + 1)
        } else {
            match (if array_member_starts(s, j) {
                match member_value(s, start, strict) {
                    Outcome::Value(value, end) => Outcome::Value(
                        Json::Array(items.push(Json::Object(seq![(key, value)]))),
                        end,
                    ),
                    refused => refused,
                }
            } else {
                match value_at(s, j, Context::Array, strict) {
                    Outcome::Value(value, end) => Outcome::Value(
                        Json::Array(item_added(items, value)),
                        end,
                    ),
                    Outcome::Nothing(end) => Outcome::Value(
                        Json::Array(items),
                        if at(s, end) is Some {
                            end + 1
                        } else {
                            end
                        },
                    ),
                    refused => refused,
                }
            }) {
                Outcome::Value(Json::Array(grown), end) => {
                    let next = skip_trivia(s, end, true);
                    if at(s, next) == Some(',') && i < next {
                        array_at(s, next + 1, closing, strict, grown)
                    } else if i < next <= s.len() {
                        array_at(s, next, closing, strict, grown)
                    } else {
                        Outcome::Value(Json::Array(grown), next)
                    }
                },
                refused => refused,
            }
        },
    }
}

/// The places that reading a member or a list goes through lie in order in the text.
pub proof fn lemma_member_head(s: Seq<char>, i: int)
    ensures
        ({
            let j = skip_separators(s, i);
            let k = object_key(s, j).1;
            let after_key = skip_trivia(s, k, true);
            let start = if at(s, after_key) == Some(':') {
                after_key + 1
            } else {
                after_key
            };
            at(s, j) is Some ==> {
                &&& i <= j <= k <= after_key <= start <= skip_trivia(s, start, true) <= s.len()
                &&& at(s, j) != Some('}') ==> j < start
            }
        }),
{
    let j = skip_separators(s, i);
    lemma_skip_separators(s, i);
    if at(s, j) is Some {
        lemma_object_key(s, j);
        let k = object_key(s, j).1;
        lemma_skip_trivia(s, k, true);
        let after_key = skip_trivia(s, k, true);
        let start = if at(s, after_key) == Some(':') {
            after_key + 1
        } else {
            after_key
        };
        lemma_skip_trivia(s, start, true);
        if k == j {
            lemma_skip_trivia(s, j, true);
        }
    }
}

/// Where reading goes on after an outcome.
pub open spec fn outcome_end(outcome: Outcome) -> Option<int> {
    match outcome {
        Outcome::Value(_, next) => Some(next),
        Outcome::Nothing(next) => Some(next),
        Outcome::Rejected(_) => None,
    }
}

/// A bare token that is not empty was read from at least one character.
pub proof fn lemma_bare_token(s: Seq<char>, i: int, stops: Stops, context: Context)
    requires
        0 <= i <= s.len(),
    ensures
        i <= bare_token(s, i, stops, context).1 <= s.len(),
        bare_token(s, i, stops, context).1 == i ==> bare_token(s, i, stops, context).0.len() == 0,
        !bare_ends(s, i, stops, context, Seq::empty()) ==> bare_token(s, i, stops, context).1 > i,
{
    lemma_bare_rest(s, i, stops, context, Seq::empty());
    if !bare_ends(s, i, stops, context, Seq::empty()) {
        lemma_bare_rest(s, i + 1, stops, context, Seq::empty().push(s[i]));
    }
}

/// Reading a value goes forward and stays in the text, and in a list finding a value passes
/// something.
pub proof fn lemma_value_at(s: Seq<char>, i: int, context: Context, strict: bool)
    requires
        0 <= i <= s.len(),
    ensures
        outcome_end(value_at(s, i, context, strict)) matches Some(next) ==> i <= next <= s.len(),
        value_at(s, i, context, strict) matches Outcome::Value(_, next) ==> context
            == Context::Array ==> i < next,
    decreases s.len() - i, 0int,
{
    let j = skip_trivia(s, i, true);
    lemma_skip_trivia(s, i, true);
    match at(s, j) {
        None => {},
        Some(c) => {
            if c == '{' {
                lemma_object_at(s, j + 1, strict, Seq::empty());
            } else if c == '[' {
                lemma_array_at(s, j + 1, ']', strict, Seq::empty());
            } else if c == '(' {
                if context.outside() && !parenthesis_starts_value(s, j) {
                    lemma_value_at(s, j + 1, context, strict);
                } else {
                    lemma_array_at(s, j + 1, ')', strict, Seq::empty());
                }
            } else if c == '\\' && (at(s, j + 1) matches Some(q) && is_quote(q)) {
                lemma_string_rest(s, j + 2, closing_quote(s[j + 1]), context, Seq::empty());
            } else if is_quote(c) {
                lemma_string_rest(s, j + 1, closing_quote(c), context, Seq::empty());
            } else if starts_number(c) {
                lemma_bare_token(s, j, Stops::Value, context);
            } else if c == '_' || is_letter(c) {
                let stops = if context.outside() {
                    Stops::Prose
                } else {
                    Stops::Value
                };
                lemma_bare_token(s, j, stops, context);
                match word(s, j, context) {
                    Outcome::Nothing(next) => {
                        if context.outside() && j < next {
                            lemma_value_at(s, next, context, strict);
                        }
                    },
                    _ => {},
                }
            } else if c == '`' {
                lemma_fence_end(s, j);
                lemma_value_at(s, fence_end(s, j), context, strict);
            } else if (c == ',' || c == ':') && context == Context::ObjectValue {
            } else if (c == '}' || c == ']' || c == ')') && !context.outside() {
            } else if context.outside() {
                lemma_value_at(s, j + 1, context, strict);
            }
        },
    }
}

/// Reading a member's value goes forward and stays in the text.
pub proof fn lemma_member_value(s: Seq<char>, i: int, strict: bool)
    requires
        0 <= i <= s.len(),
    ensures
        outcome_end(member_value(s, i, strict)) matches Some(next) ==> i <= next <= s.len(),
        member_value(s, i, strict) !is Nothing,
    decreases s.len() - i, 1int,
{
    lemma_value_at(s, i, Context::ObjectValue, strict);
}

/// Reading a set goes forward, stays in the text, and gives an array.
pub proof fn lemma_set_at(s: Seq<char>, i: int, items: Seq<Json>)
    requires
        0 <= i <= s.len(),
    ensures
        set_at(s, i, items) matches Outcome::Value(v, next) && v is Array && i <= next <= s.len(),
    decreases s.len() - i,
{
    let j = skip_trivia(s, i, true);
    let start = if at(s, j) == Some(',') {
        skip_trivia(s, j + 1, true)
    } else {
        j
    };
    let (key, k) = object_key(s, start);
    lemma_skip_trivia(s, i, true);
    lemma_skip_trivia(s, j + 1, true);
    if at(s, start) is Some && at(s, start) != Some('}') {
        lemma_object_key(s, start);
        lemma_set_at(
            s,
            if k > i {
                k
            } else {
                i + 1
            },
            if key.len() > 0 {
                items.push(Json::String(key))
            } else {
                items
            },
        );
    }
}

/// Reading an object goes forward and stays in the text. It finds an object, or an array if it
/// was a set.
pub proof fn lemma_object_at(
    s: Seq<char>,
    i: int,
    strict: bool,
    members: Seq<(Seq<char>, Json)>,
)
    requires
        0 <= i <= s.len(),
    ensures
        outcome_end(object_at(s, i, strict, members)) matches Some(next) ==> i <= next <= s.len(),
        object_at(s, i, strict, members) !is Nothing,
    decreases s.len() - i, 2int,
{
    let j = skip_separators(s, i);
    let (key, k) = object_key(s, j);
    let after_key = skip_trivia(s, k, true);
    let start = skip_trivia(
        s,
        if at(s, after_key) == Some(':') {
            after_key + 1
        } else {
            after_key
        },
        true,
    );
    lemma_skip_separators(s, i);
    lemma_member_head(s, i);
    match at(s, j) {
        None => {},
        Some(c) => if c == '}' || c == ']' || c == ')' || c == '[' {
        } else if at(s, after_key) == Some(',') || at(s, after_key) == Some('}') {
            lemma_set_at(s, after_key, seq![Json::String(key)]);
        } else if key.len() == 0 && at(s, after_key) is None {
        } else {
            lemma_member_value(s, start, strict);
            match (match at(s, start) {
                None | Some(',') | Some('}') | Some(']') | Some(')') => Outcome::Value(
                    Json::String(Seq::empty()),
                    start,
                ),
                _ => member_value(s, start, strict),
            }) {
                Outcome::Value(value, end) => {
                    let grown = inserted(members, key, value);
                    let next = skip_trivia(s, end, true);
                    lemma_skip_trivia(s, end, true);
                    if strict && has_key(members, key) {
                    } else if at(s, next) == Some('}') {
                    } else if at(s, next) == Some(',') {
                        lemma_object_at(s, next + 1, strict, grown);
                    } else {
                        lemma_object_at(s, next, strict, grown);
                    }
                },
                _ => {},
            }
        },
    }
}

/// Reading a list goes forward, stays in the text, and finds an array.
pub proof fn lemma_array_at(s: Seq<char>, i: int, closing: char, strict: bool, items: Seq<Json>)
    requires
        0 <= i <= s.len(),
    ensures
        outcome_end(array_at(s, i, closing, strict, items)) matches Some(next) ==> i <= next
            <= s.len(),
        array_at(s, i, closing, strict, items) !is Nothing,
        array_at(s, i, closing, strict, items) matches Outcome::Value(v, _) ==> v is Array,
    decreases s.len() - i, 2int,
{
    let j = skip_separators(s, i);
    let (key, k) = object_key(s, j);
    let after_key = skip_trivia(s, k, true);
    let start = if at(s, after_key) == Some(':') {
        after_key + 1
    } else {
        after_key
    };
    lemma_skip_separators(s, i);
    lemma_member_head(s, i);
    match at(s, j) {
        None => {},
        Some(c) => if c == closing || (c == '}' && closing == ']') || (c == ')' && closing == ']') {
        } else {
            let (grown, end) = if array_member_starts(s, j) {
                lemma_member_value(s, start, strict);
                match member_value(s, start, strict) {
                    Outcome::Value(value, end) => (
                        items.push(Json::Object(seq![(key, value)])),
                        Some(end),
                    ),
                    _ => (items, None),
                }
            } else {
                lemma_value_at(s, j, Context::Array, strict);
                match value_at(s, j, Context::Array, strict) {
                    Outcome::Value(value, end) => (item_added(items, value), Some(end)),
                    Outcome::Nothing(end) => (
                        items,
                        Some(
                            if at(s, end) is Some {
                                end + 1
                            } else {
                                end
                            },
                        ),
                    ),
                    _ => (items, None),
                }
            };
            match end {
                Some(end) => {
                    let next = skip_trivia(s, end, true);
                    lemma_skip_trivia(s, end, true);
                    if at(s, next) == Some(',') {
                        lemma_array_at(s, next + 1, closing, strict, grown);
                    } else {
                        lemma_array_at(s, next, closing, strict, grown);
                    }
                },
                None => {},
            }
        },
    }
}

/// The members of an object after the first `count` members of another were set in it.
pub open spec fn merged(
    members: Seq<(Seq<char>, Json)>,
    others: Seq<(Seq<char>, Json)>,
    count: int,
) -> Seq<(Seq<char>, Json)>
    decreases count,
{
    if count <= 0 {
        members
    } else {
        inserted(merged(members, others, count - 1), others[count - 1].0, others[count - 1].1)
    }
}

/// Whether two objects that follow each other are parts of one: they share a key, or one is
/// empty.
pub open spec fn belong_together(
    members: Seq<(Seq<char>, Json)>,
    others: Seq<(Seq<char>, Json)>,
) -> bool {
    ||| members.len() == 0
    ||| others.len() == 0
    ||| exists|i: int| 0 <= i < members.len() && has_key(others, (#[trigger] members[i]).0)
}

/// The values found outside any other after one more was found. Objects that belong together
/// become one, and a value equal to the one before takes its place; strict mode keeps them all,
/// to refuse them.
pub open spec fn found_added(values: Seq<Json>, value: Json, strict: bool) -> Seq<Json> {
    if strict || values.len() == 0 {
        values.push(value)
    } else {
        match (values.last(), value) {
            (Json::Object(members), Json::Object(others)) if belong_together(members, others) => {
                values.drop_last().push(Json::Object(merged(members, others, others.len() as int)))
            },
            _ => if same(values.last(), value) {
                values.drop_last().push(value)
            } else {
                values.push(value)
            },
        }
    }
}

/// Where the reading stands outside any value, by the values that have been found.
pub open spec fn outside_context(values: Seq<Json>) -> Context {
    if values.len() == 0 {
        Context::Start
    } else {
        Context::Top
    }
}

/// Reads on outside any value, where the given values have been found, from `i` to the end of
/// the text: all values found, or the reason of a refusal.
pub open spec fn all_found(s: Seq<char>, i: int, strict: bool, values: Seq<Json>) -> Result<
    Seq<Json>,
    Seq<char>,
>
    decreases s.len() - i,
{
    if 0 <= i < s.len() {
        let found = value_at(s, i, outside_context(values), strict);
        let next = match outcome_end(found) {
            Some(next) if i < next <= s.len() => next,
            _ => i + 1,
        };
        match found {
            Outcome::Value(value, _) => all_found(
                s,
                next,
                strict,
                if value == Json::String(Seq::empty()) {
                    values
                } else {
                    found_added(values, value, strict)
                },
            ),
            Outcome::Nothing(_) => all_found(s, next, strict, values),
            Outcome::Rejected(reason) => Err(reason),
        }
    } else {
        Ok(values)
    }
}

/// Why a text is not repaired: nothing was found in it, or strict mode refused it for a reason.
pub enum Failure {
    Empty,
    Strict(Seq<char>),
}

/// Why several values are refused.
pub open spec fn several_values_reason() -> Seq<char> {
    "multiple top-level JSON values found"@
}

/// The value of the values found: the only one, or the array of them.
pub open spec fn whole_value(values: Seq<Json>, strict: bool) -> Result<Json, Failure> {
    if values.len() == 0 {
        Err(Failure::Empty)
    } else if values.len() == 1 {
        Ok(values[0])
    } else if strict {
        Err(Failure::Strict(several_values_reason()))
    } else {
        Ok(Json::Array(values))
    }
}

/// What the repair of a text gives.
pub open spec fn repaired(s: Seq<char>, strict: bool) -> Result<Json, Failure> {
    match all_found(s, 0, strict, Seq::empty()) {
        Ok(values) => whole_value(values, strict),
        Err(reason) => Err(Failure::Strict(reason)),
    }
}

} // verus!
