//! The repair parser.

use crate::chars::{number_can_start, opens_quote};
use crate::cursor::Parser;
use crate::error::RepairError;
use crate::grammar::{
    all_found, array_at, belong_together, duplicate_key_reason, found_added, lemma_bare_token,
    lemma_member_head, lemma_member_value, lemma_set_at, lemma_value_at, member_value, merged,
    object_at, outcome_end, outside_context, repaired, set_at, value_at, without_parentheses, word,
    Failure, Outcome,
};
use crate::number::{bare_value, value_from_bare_token};
use crate::scan::{lemma_fence_end, lemma_skip_separators, Context};
use crate::text::{chars_of, is_text, string_of, trim, Trim};
use crate::token::{bare_token, lemma_object_key, quoted_string, Stops};
use crate::value::{
    has_key, items_view, lemma_array_view, lemma_items_push, lemma_object_view, members_view, same,
    values_equal, Json, JsonValue, Object,
};
use vstd::prelude::*;

verus! {

/// Whether a result and the place reached are what an outcome says.
pub(crate) open spec fn gives(
    r: Result<Option<JsonValue>, RepairError>,
    place: int,
    outcome: Outcome,
) -> bool {
    match outcome {
        Outcome::Value(value, next) => (r matches Ok(Some(v)) && v@ == value) && place == next,
        Outcome::Nothing(next) => (r matches Ok(None)) && place == next,
        Outcome::Rejected(reason) => r matches Err(RepairError::Strict(m)) && m@ == reason,
    }
}

/// The same where a value is always found.
spec fn gives_value(r: Result<JsonValue, RepairError>, place: int, outcome: Outcome) -> bool {
    match outcome {
        Outcome::Value(value, next) => (r matches Ok(v) && v@ == value) && place == next,
        Outcome::Nothing(_) => false,
        Outcome::Rejected(reason) => r matches Err(RepairError::Strict(m)) && m@ == reason,
    }
}

fn is_empty_repair(value: &JsonValue) -> (r: bool)
    ensures
        r == (value@ == Json::String(Seq::empty())),
{
    match value {
        JsonValue::String(s) => {
            let t = chars_of(s.as_str());
            assert(t@.len() == 0 ==> t@ =~= Seq::empty());
            t.len() == 0
        },
        _ => false,
    }
}

fn is_ellipsis(value: &JsonValue) -> (r: bool)
    ensures
        r == (value@ == Json::String("..."@)),
{
    match value {
        JsonValue::String(s) => {
            let t = chars_of(s.as_str());
            is_text(&t, "...")
        },
        _ => false,
    }
}

pub(crate) fn duplicate_key(key: &Vec<char>) -> (r: RepairError)
    ensures
        r matches RepairError::Strict(m) && m@ == duplicate_key_reason(key@),
{
    let name = string_of(key);
    let reason = "duplicate key `".to_owned().concat(name.as_str()).concat("` found");
    RepairError::Strict(reason)
}

impl Parser {
    fn parse_numberish_or_string(&mut self, context: Context) -> (r: JsonValue)
        requires
            old(self).in_text(),
        ensures
            final(self).same_text(*old(self)),
            final(self).in_text(),
            ({
                let (text, next) = bare_token(
                    old(self).chars@,
                    old(self).index as int,
                    Stops::Value,
                    context,
                );
                r@ == bare_value(text) && final(self).index == next
            }),
    {
        let token = self.parse_bare_until(Stops::Value, context);
        value_from_bare_token(&token)
    }

    fn parse_bare_word_value(&mut self, context: Context) -> (r: Option<JsonValue>)
        requires
            old(self).in_text(),
        ensures
            final(self).same_text(*old(self)),
            final(self).in_text(),
            gives(
                Ok(r),
                final(self).index as int,
                word(old(self).chars@, old(self).index as int, context),
            ),
            final(self).index >= old(self).index,
    {
        if context.is_outside() {
            let prose = self.parse_bare_until(Stops::Prose, context);
            if trim(&prose, Trim::White).len() == 0 || self.peek().is_some() {
                return None;
            }
            return match value_from_bare_token(&prose) {
                JsonValue::String(text) => if context == Context::Start {
                    None
                } else {
                    Some(JsonValue::String(text))
                },
                value => Some(value),
            };
        }
        let token = self.parse_bare_until(Stops::Value, context);
        if trim(&token, Trim::White).len() == 0 {
            return None;
        }
        Some(value_from_bare_token(&token))
    }

    fn parse_string_value(&mut self, context: Context) -> (r: JsonValue)
        requires
            old(self).in_text(),
        ensures
            final(self).same_text(*old(self)),
            final(self).in_text(),
            ({
                let (text, next) = quoted_string(
                    old(self).chars@,
                    old(self).index as int,
                    context,
                );
                r@ == Json::String(text) && final(self).index == next
            }),
    {
        let text = self.parse_quoted_string(context);
        JsonValue::String(string_of(&text))
    }

    fn parse_set_like_object(&mut self, first_key: Vec<char>) -> (r: JsonValue)
        requires
            old(self).in_text(),
        ensures
            final(self).same_text(*old(self)),
            final(self).in_text(),
            gives_value(
                Ok(r),
                final(self).index as int,
                set_at(
                    old(self).chars@,
                    old(self).index as int,
                    seq![Json::String(first_key@)],
                ),
            ),
    {
        let ghost s = self.chars@;
        let ghost from = self.index as int;
        let ghost first = seq![Json::String(first_key@)];
        let mut values: Vec<JsonValue> = Vec::new();
        values.push(JsonValue::String(string_of(&first_key)));
        assert(items_view(values@) =~= first);
        loop
            invariant
                self.same_text(*old(self)),
                self.in_text(),
                self.chars@ == s,
                old(self).chars@ == s,
                from == old(self).index,
                first == seq![Json::String(first_key@)],
                set_at(s, from, first) == set_at(s, self.index as int, items_view(values@)),
            decreases self.chars.len() - self.index,
        {
            let before = self.index;
            self.skip_ws_and_comments();
            if self.peek() == Some(',') {
                self.index += 1;
                self.skip_ws_and_comments();
            }
            match self.peek() {
                None => {
                    proof {
                        lemma_array_view(values);
                    }
                    return JsonValue::Array(values);
                },
                Some(c) => {
                    if c == '}' {
                        self.index += 1;
                        proof {
                            lemma_array_view(values);
                        }
                        return JsonValue::Array(values);
                    }
                },
            }
            proof {
                lemma_object_key(s, self.index as int);
            }
            let item = self.parse_object_key();
            if item.len() > 0 {
                let value = JsonValue::String(string_of(&item));
                proof {
                    lemma_items_push(values@, value);
                }
                values.push(value);
            }
            if self.index <= before {
                self.index += 1;
            }
        }
    }

    /// Reads the value that comes next. The text and the mode stay, the place never goes back
    /// and never leaves the text, and an error comes in strict mode alone.
    pub(crate) fn parse_value(&mut self, context: Context) -> (r: Result<
        Option<JsonValue>,
        RepairError,
    >)
        requires
            old(self).in_text(),
        ensures
            final(self).same_text(*old(self)),
            final(self).in_text(),
            gives(
                r,
                final(self).index as int,
                value_at(old(self).chars@, old(self).index as int, context, old(self).strict),
            ),
            final(self).index >= old(self).index,
            r matches Err(e) ==> old(self).strict && e is Strict,
        decreases old(self).chars@.len() - old(self).index, 0int,
    {
        let ghost s = self.chars@;
        let ghost from = self.index as int;
        let strict = self.strict;
        proof {
            lemma_value_at(s, from, context, strict);
        }
        loop
            invariant
                self.same_text(*old(self)),
                self.in_text(),
                self.chars@ == s,
                self.strict == strict,
                from == old(self).index,
                from <= self.index,
                outcome_end(value_at(s, from, context, strict)) matches Some(next) ==> from <= next,
                value_at(s, from, context, strict) == value_at(
                    s,
                    self.index as int,
                    context,
                    strict,
                ),
            decreases self.chars@.len() - self.index,
        {
            self.skip_ws_and_comments();
            let c = match self.peek() {
                Some(c) => c,
                None => {
                    return Ok(None);
                },
            };
            if c == '{' {
                self.index += 1;
                return match self.parse_object() {
                    Ok(v) => Ok(Some(v)),
                    Err(e) => Err(e),
                };
            }
            if c == '[' {
                self.index += 1;
                return match self.parse_array(']') {
                    Ok(v) => Ok(Some(v)),
                    Err(e) => Err(e),
                };
            }
            if c == '(' {
                if context.is_outside() && !self.top_level_parenthesis_can_start_value() {
                    self.index += 1;
                    continue;
                }
                self.index += 1;
                return match self.parse_parenthesized() {
                    Ok(v) => Ok(Some(v)),
                    Err(e) => Err(e),
                };
            }
            if c == '\\' {
                match self.peek_next() {
                    Some(q) => {
                        if opens_quote(q) {
                            self.index += 1;
                            return Ok(Some(self.parse_string_value(context)));
                        }
                    },
                    None => {},
                }
            }
            if opens_quote(c) {
                return Ok(Some(self.parse_string_value(context)));
            }
            if number_can_start(c) {
                return Ok(Some(self.parse_numberish_or_string(context)));
            }
            if c == '_' || c.is_alphabetic() {
                let ghost here = self.index as int;
                let value = self.parse_bare_word_value(context);
                if value.is_none() && context.is_outside() {
                    proof {
                        lemma_bare_token(s, here, Stops::Prose, context);
                    }
                    continue;
                }
                return Ok(value);
            }
            if c == '`' {
                proof {
                    lemma_fence_end(s, self.index as int);
                }
                self.skip_code_fence_marker();
                continue;
            }
            if (c == ',' || c == ':') && context == Context::ObjectValue {
                return Ok(Some(JsonValue::String(String::new())));
            }
            if (c == '}' || c == ']' || c == ')') && !context.is_outside() {
                return Ok(None);
            }
            self.index += 1;
            if !context.is_outside() {
                return Ok(None);
            }
        }
    }

    fn parse_member_value(&mut self) -> (r: Result<JsonValue, RepairError>)
        requires
            old(self).in_text(),
        ensures
            final(self).same_text(*old(self)),
            final(self).in_text(),
            gives_value(
                r,
                final(self).index as int,
                member_value(old(self).chars@, old(self).index as int, old(self).strict),
            ),
            final(self).index >= old(self).index,
            r matches Err(e) ==> old(self).strict && e is Strict,
        decreases old(self).chars@.len() - old(self).index, 1int,
    {
        match self.parse_value(Context::ObjectValue) {
            Ok(Some(v)) => Ok(v),
            Ok(None) => Ok(JsonValue::String(String::new())),
            Err(e) => Err(e),
        }
    }

    fn parse_object(&mut self) -> (r: Result<JsonValue, RepairError>)
        requires
            old(self).in_text(),
        ensures
            final(self).same_text(*old(self)),
            final(self).in_text(),
            gives_value(
                r,
                final(self).index as int,
                object_at(
                    old(self).chars@,
                    old(self).index as int,
                    old(self).strict,
                    Seq::empty(),
                ),
            ),
            final(self).index >= old(self).index,
            r matches Err(e) ==> old(self).strict && e is Strict,
        decreases old(self).chars@.len() - old(self).index, 2int,
    {
        let ghost s = self.chars@;
        let ghost from = self.index as int;
        let strict = self.strict;
        let mut object = Object::new();
        loop
            invariant
                self.same_text(*old(self)),
                self.in_text(),
                self.chars@ == s,
                self.strict == strict,
                from == old(self).index,
                from <= self.index,
                object_at(s, from, strict, Seq::empty()) == object_at(
                    s,
                    self.index as int,
                    strict,
                    object@,
                ),
            decreases self.chars@.len() - self.index,
        {
            let ghost i = self.index as int;
            proof {
                lemma_skip_separators(s, i);
                lemma_member_head(s, i);
            }
            self.skip_ws_comments_and_commas();
            match self.peek() {
                None => {
                    proof {
                        lemma_object_view(object);
                    }
                    return Ok(JsonValue::Object(object));
                },
                Some(c) => {
                    if c == '}' {
                        self.index += 1;
                        proof {
                            lemma_object_view(object);
                        }
                        return Ok(JsonValue::Object(object));
                    }
                    if c == ']' || c == ')' || c == '[' {
                        proof {
                            lemma_object_view(object);
                        }
                        return Ok(JsonValue::Object(object));
                    }
                },
            }
            let key = self.parse_object_key();
            self.skip_ws_and_comments();
            if self.peek() == Some(':') {
                self.index += 1;
            } else if self.peek() == Some(',') || self.peek() == Some('}') {
                proof {
                    lemma_set_at(s, self.index as int, seq![Json::String(key@)]);
                }
                return Ok(self.parse_set_like_object(key));
            } else if key.len() == 0 && self.peek().is_none() {
                proof {
                    lemma_object_view(object);
                }
                return Ok(JsonValue::Object(object));
            }
            self.skip_ws_and_comments();
            let ghost start = self.index as int;
            proof {
                lemma_member_value(s, start, strict);
            }
            let left_out = match self.peek() {
                None => true,
                Some(c) => c == ',' || c == '}' || c == ']' || c == ')',
            };
            let value = if left_out {
                JsonValue::String(String::new())
            } else {
                match self.parse_member_value() {
                    Ok(v) => v,
                    Err(e) => {
                        return Err(e);
                    },
                }
            };
            let name = string_of(&key);
            if self.strict && object.contains_key(&name) {
                return Err(duplicate_key(&key));
            }
            object.insert(name, value);
            self.skip_ws_and_comments();
            if self.peek() == Some(',') {
                self.index += 1;
            } else if self.peek() == Some('}') {
                self.index += 1;
                proof {
                    lemma_object_view(object);
                }
                return Ok(JsonValue::Object(object));
            }
        }
    }

    fn parse_array(&mut self, closing: char) -> (r: Result<JsonValue, RepairError>)
        requires
            old(self).in_text(),
        ensures
            final(self).same_text(*old(self)),
            final(self).in_text(),
            gives_value(
                r,
                final(self).index as int,
                array_at(
                    old(self).chars@,
                    old(self).index as int,
                    closing,
                    old(self).strict,
                    Seq::empty(),
                ),
            ),
            r matches Ok(v) ==> v is Array,
            final(self).index >= old(self).index,
            r matches Err(e) ==> old(self).strict && e is Strict,
        decreases old(self).chars@.len() - old(self).index, 2int,
    {
        let ghost s = self.chars@;
        let ghost from = self.index as int;
        let strict = self.strict;
        let mut values: Vec<JsonValue> = Vec::new();
        assert(items_view(values@) =~= Seq::empty());
        loop
            invariant
                self.same_text(*old(self)),
                self.in_text(),
                self.chars@ == s,
                self.strict == strict,
                from == old(self).index,
                from <= self.index,
                array_at(s, from, closing, strict, Seq::empty()) == array_at(
                    s,
                    self.index as int,
                    closing,
                    strict,
                    items_view(values@),
                ),
            decreases self.chars@.len() - self.index,
        {
            let ghost i = self.index as int;
            proof {
                lemma_skip_separators(s, i);
                lemma_member_head(s, i);
                lemma_array_view(values);
            }
            self.skip_ws_comments_and_commas();
            match self.peek() {
                None => {
                    return Ok(JsonValue::Array(values));
                },
                Some(c) => {
                    if c == closing {
                        self.index += 1;
                        return Ok(JsonValue::Array(values));
                    }
                    if c == '}' && closing == ']' {
                        return Ok(JsonValue::Array(values));
                    }
                    if c == ')' && closing == ']' {
                        self.index += 1;
                        return Ok(JsonValue::Array(values));
                    }
                },
            }
            let ghost j = self.index as int;
            if self.looks_like_array_object_entry() {
                let key = self.parse_object_key();
                self.skip_ws_and_comments();
                if self.peek() == Some(':') {
                    self.index += 1;
                }
                proof {
                    lemma_member_value(s, self.index as int, strict);
                }
                let value = match self.parse_member_value() {
                    Ok(v) => v,
                    Err(e) => {
                        return Err(e);
                    },
                };
                let mut object = Object::new();
                let ghost member = (key@, value@);
                object.insert(string_of(&key), value);
                let item = JsonValue::Object(object);
                proof {
                    lemma_object_view(object);
                    assert(object@ =~= seq![member]);
                    lemma_items_push(values@, item);
                }
                values.push(item);
            } else {
                proof {
                    lemma_value_at(s, j, Context::Array, strict);
                }
                match self.parse_value(Context::Array) {
                    Ok(Some(value)) => {
                        if !is_ellipsis(&value) && !is_empty_repair(&value) {
                            proof {
                                lemma_items_push(values@, value);
                            }
                            values.push(value);
                        }
                    },
                    Ok(None) => {
                        if self.peek().is_some() {
                            self.index += 1;
                        }
                    },
                    Err(e) => {
                        return Err(e);
                    },
                }
            }
            self.skip_ws_and_comments();
            if self.peek() == Some(',') {
                self.index += 1;
            }
        }
    }

    fn parse_parenthesized(&mut self) -> (r: Result<JsonValue, RepairError>)
        requires
            old(self).in_text(),
        ensures
            final(self).same_text(*old(self)),
            final(self).in_text(),
            gives_value(
                r,
                final(self).index as int,
                without_parentheses(
                    array_at(
                        old(self).chars@,
                        old(self).index as int,
                        ')',
                        old(self).strict,
                        Seq::empty(),
                    ),
                ),
            ),
            final(self).index >= old(self).index,
            r matches Err(e) ==> old(self).strict && e is Strict,
        decreases old(self).chars@.len() - old(self).index, 3int,
    {
        match self.parse_array(')') {
            Ok(JsonValue::Array(mut values)) => {
                proof {
                    lemma_array_view(values);
                }
                if values.len() == 1 {
                    Ok(values.remove(0))
                } else {
                    Ok(JsonValue::Array(values))
                }
            },
            Ok(value) => Ok(value),
            Err(e) => Err(e),
        }
    }
}

/// Sets the members of one object in another, in order.
fn merge(object: Object, others: Object) -> (r: Object)
    ensures
        r@ == merged(object@, others@, others@.len() as int),
{
    let ghost members = object@;
    let ghost added = others@;
    let ghost all = others.entries@;
    let mut r = object;
    for entry in iter: others.entries.into_iter()
        invariant
            iter.seq() == all,
            added == members_view(all),
            r@ == merged(members, added, iter.index()),
    {
        assert(added[iter.index()] == (entry.0@, entry.1@));
        r.insert(entry.0, entry.1);
    }
    r
}

/// Whether two objects that follow each other are parts of one.
fn objects_belong_together(object: &Object, others: &Object) -> (r: bool)
    ensures
        r == belong_together(object@, others@),
{
    if object.is_empty() || others.is_empty() {
        return true;
    }
    let mut i: usize = 0;
    while i < object.entries.len()
        invariant
            i <= object.entries.len(),
            forall|j: int| 0 <= j < i ==> !has_key(others@, (#[trigger] object@[j]).0),
        decreases object.entries.len() - i,
    {
        if others.contains_key(&object.entries[i].0) {
            assert(has_key(others@, object@[i as int].0));
            return true;
        }
        i += 1;
    }
    false
}

fn push_top_level(values: &mut Vec<JsonValue>, value: JsonValue, strict: bool)
    ensures
        items_view(final(values)@) == found_added(items_view(old(values)@), value@, strict),
{
    let ghost before = values@;
    if strict {
        proof {
            lemma_items_push(values@, value);
        }
        values.push(value);
        return;
    }
    match values.pop() {
        None => {
            proof {
                lemma_items_push(values@, value);
            }
            values.push(value);
        },
        Some(last) => {
            let ghost kept = values@;
            proof {
                assert(kept == before.drop_last());
                assert(items_view(before).last() == last@);
                assert(items_view(kept) =~= items_view(before).drop_last());
                assert(before =~= kept.push(last));
                lemma_items_push(kept, last);
                lemma_items_push(before, value);
                lemma_items_push(kept, value);
            }
            match (last, value) {
                (JsonValue::Object(object), JsonValue::Object(others)) => {
                    proof {
                        lemma_object_view(object);
                        lemma_object_view(others);
                    }
                    if objects_belong_together(&object, &others) {
                        let whole = JsonValue::Object(merge(object, others));
                        proof {
                            lemma_object_view(whole->Object_0);
                            lemma_items_push(kept, whole);
                        }
                        values.push(whole);
                    } else {
                        keep_one_or_both(
                            values,
                            JsonValue::Object(object),
                            JsonValue::Object(others),
                        );
                    }
                },
                (last, value) => {
                    keep_one_or_both(values, last, value);
                },
            }
        },
    }
}

/// Adds two values that follow each other, or only the second if they are equal.
fn keep_one_or_both(values: &mut Vec<JsonValue>, last: JsonValue, value: JsonValue)
    ensures
        final(values)@ == if same(last@, value@) {
            old(values)@.push(value)
        } else {
            old(values)@.push(last).push(value)
        },
{
    if !values_equal(&last, &value) {
        values.push(last);
    }
    values.push(value);
}

impl Parser {
    pub(crate) fn parse_top_level(&mut self) -> (r: Result<JsonValue, RepairError>)
        requires
            old(self).in_text(),
            old(self).index == 0,
        ensures
            final(self).same_text(*old(self)),
            final(self).in_text(),
            match r {
                Ok(v) => repaired(old(self).chars@, old(self).strict) == Ok::<Json, Failure>(v@),
                Err(e) => repaired(old(self).chars@, old(self).strict) == Err::<Json, Failure>(e@),
            },
            r is Ok ==> final(self).index == final(self).chars.len(),
    {
        let ghost s = self.chars@;
        let strict = self.strict;
        let mut values: Vec<JsonValue> = Vec::new();
        assert(items_view(values@) =~= Seq::empty());
        while self.index < self.chars.len()
            invariant
                self.same_text(*old(self)),
                self.in_text(),
                self.chars@ == s,
                self.strict == strict,
                all_found(s, 0, strict, Seq::empty()) == all_found(
                    s,
                    self.index as int,
                    strict,
                    items_view(values@),
                ),
            decreases self.chars.len() - self.index,
        {
            let before = self.index;
            let context = if values.len() == 0 {
                Context::Start
            } else {
                Context::Top
            };
            assert(context == outside_context(items_view(values@)));
            proof {
                lemma_value_at(s, before as int, context, strict);
            }
            match self.parse_value(context) {
                Ok(Some(value)) => {
                    if !is_empty_repair(&value) {
                        push_top_level(&mut values, value, strict);
                    }
                },
                Ok(None) => {},
                Err(e) => {
                    return Err(e);
                },
            }
            if self.index <= before {
                self.index += 1;
            }
        }
        proof {
            lemma_array_view(values);
        }
        if values.len() == 0 {
            Err(RepairError::Empty)
        } else if values.len() == 1 {
            Ok(values.remove(0))
        } else if strict {
            Err(RepairError::Strict("multiple top-level JSON values found".to_owned()))
        } else {
            Ok(JsonValue::Array(values))
        }
    }
}

} // verus!
