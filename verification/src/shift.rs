//! What is read at a place depends on what follows there alone, not on what stands before.

use crate::chars::{closing_quote, is_letter, is_quote, starts_number};
use crate::grammar::{
    all_found, array_at, duplicate_key_reason, found_added, item_added, lemma_bare_token,
    lemma_member_head, lemma_member_value, lemma_value_at, member_value, object_at, outcome_end,
    outside_context, set_at, string_value, value_at, without_parentheses, word, Outcome,
};
use crate::number::bare_value;
use crate::scan::{
    at, block_comment_end, comment_end, comment_starts, fence_end, lemma_comment_end,
    lemma_fence_end, lemma_skip_separators, lemma_skip_trivia, lemma_skip_white, letter_run,
    line_comment_end, member_starts, name_end, name_run, parenthesis_starts_value, quoted_name_end,
    skip_separators, skip_trivia, skip_white, string_can_close, value_after_white, Context,
};
use crate::token::{
    array_member_starts, bare_ends, bare_rest, bare_token, escape, lemma_object_key, object_key,
    quoted_string, string_rest, Stops,
};
use crate::value::{has_key, inserted, Json, Object};
use vstd::prelude::*;

verus! {

proof fn lemma_at(p: Seq<char>, s: Seq<char>, i: int)
    requires
        0 <= i,
    ensures
        at(p + s, p.len() + i) == at(s, i),
{
    if i < s.len() {
        assert((p + s)[p.len() + i] == s[i]);
    }
}

proof fn lemma_shift_white(p: Seq<char>, s: Seq<char>, i: int)
    requires
        0 <= i,
    ensures
        skip_white(p + s, p.len() + i) == p.len() + skip_white(s, i),
    decreases s.len() - i,
{
    lemma_at(p, s, i);
    if i < s.len() {
        assert((p + s)[p.len() + i] == s[i]);
        lemma_shift_white(p, s, i + 1);
    }
}

proof fn lemma_shift_line(p: Seq<char>, s: Seq<char>, i: int, f: bool)
    requires
        0 <= i,
    ensures
        line_comment_end(p + s, p.len() + i, f) == p.len() + line_comment_end(s, i, f),
    decreases s.len() - i,
{
    if i < s.len() {
        assert((p + s)[p.len() + i] == s[i]);
        lemma_shift_line(p, s, i + 1, f);
    }
}

proof fn lemma_shift_block(p: Seq<char>, s: Seq<char>, i: int)
    requires
        0 <= i,
    ensures
        block_comment_end(p + s, p.len() + i) == p.len() + block_comment_end(s, i),
    decreases s.len() - i,
{
    lemma_at(p, s, i + 1);
    if i < s.len() {
        assert((p + s)[p.len() + i] == s[i]);
        lemma_shift_block(p, s, i + 1);
    }
}

proof fn lemma_shift_trivia(p: Seq<char>, s: Seq<char>, i: int, f: bool)
    requires
        0 <= i,
    ensures
        skip_trivia(p + s, p.len() + i, f) == p.len() + skip_trivia(s, i, f),
    decreases s.len() - i,
{
    lemma_shift_white(p, s, i);
    let j = skip_white(s, i);
    lemma_skip_white(s, i);
    lemma_at(p, s, j);
    lemma_at(p, s, j + 1);
    lemma_shift_line(p, s, j + 1, f);
    lemma_shift_line(p, s, j + 2, f);
    lemma_shift_block(p, s, j + 2);
    if comment_starts(s, j) {
        lemma_comment_end(s, j, f);
        lemma_shift_trivia(p, s, comment_end(s, j, f), f);
    }
}

proof fn lemma_shift_separators(p: Seq<char>, s: Seq<char>, i: int)
    requires
        0 <= i,
    ensures
        skip_separators(p + s, p.len() + i) == p.len() + skip_separators(s, i),
    decreases s.len() - i,
{
    lemma_shift_trivia(p, s, i, true);
    let j = skip_trivia(s, i, true);
    lemma_skip_trivia(s, i, true);
    lemma_at(p, s, j);
    if at(s, j) == Some(',') {
        lemma_shift_separators(p, s, j + 1);
    }
}

/// A place that was found, seen from further ahead.
pub open spec fn moved(place: Option<int>, d: int) -> Option<int> {
    match place {
        Some(n) => Some(n + d),
        None => None,
    }
}

proof fn lemma_shift_quoted_name(p: Seq<char>, s: Seq<char>, i: int, close: char, escapes: bool)
    requires
        0 <= i,
    ensures
        quoted_name_end(p + s, p.len() + i, close, escapes) == moved(
            quoted_name_end(s, i, close, escapes),
            p.len() as int,
        ),
    decreases s.len() - i,
{
    if i < s.len() {
        assert((p + s)[p.len() + i] == s[i]);
        lemma_shift_quoted_name(p, s, i + 1, close, escapes);
        if i + 2 <= s.len() {
            lemma_shift_quoted_name(p, s, i + 2, close, escapes);
        }
    }
}

proof fn lemma_shift_name_run(p: Seq<char>, s: Seq<char>, i: int)
    requires
        0 <= i,
    ensures
        name_run(p + s, p.len() + i) == p.len() + name_run(s, i),
    decreases s.len() - i,
{
    if i < s.len() {
        assert((p + s)[p.len() + i] == s[i]);
        lemma_shift_name_run(p, s, i + 1);
    }
}

proof fn lemma_name_run_forward(s: Seq<char>, i: int)
    ensures
        i <= name_run(s, i),
    decreases s.len() - i,
{
    if 0 <= i < s.len() {
        lemma_name_run_forward(s, i + 1);
    }
}

proof fn lemma_quoted_name_forward(s: Seq<char>, i: int, close: char, escapes: bool)
    ensures
        quoted_name_end(s, i, close, escapes) matches Some(n) ==> i <= n,
    decreases s.len() - i,
{
    if 0 <= i < s.len() {
        lemma_quoted_name_forward(s, i + 1, close, escapes);
        if i + 2 <= s.len() {
            lemma_quoted_name_forward(s, i + 2, close, escapes);
        }
    }
}

proof fn lemma_shift_name(p: Seq<char>, s: Seq<char>, i: int, escapes: bool)
    requires
        0 <= i,
    ensures
        name_end(p + s, p.len() + i, escapes) == moved(name_end(s, i, escapes), p.len() as int),
        name_end(s, i, escapes) matches Some(n) ==> i <= n,
{
    lemma_at(p, s, i);
    lemma_shift_name_run(p, s, i);
    lemma_name_run_forward(s, i);
    if let Some(c) = at(s, i) {
        lemma_shift_quoted_name(p, s, i + 1, closing_quote(c), escapes);
        lemma_quoted_name_forward(s, i + 1, closing_quote(c), escapes);
    }
}

proof fn lemma_shift_member_starts(p: Seq<char>, s: Seq<char>, i: int)
    requires
        0 <= i,
    ensures
        member_starts(p + s, p.len() + i) == member_starts(s, i),
        value_after_white(p + s, p.len() + i) == value_after_white(s, i),
{
    lemma_at(p, s, i);
    lemma_shift_white(p, s, i);
    let j = skip_white(s, i);
    lemma_skip_white(s, i);
    lemma_at(p, s, j);
    lemma_shift_name(p, s, j, false);
    if let Some(k) = name_end(s, j, false) {
        lemma_shift_white(p, s, k);
        lemma_skip_white(s, k);
        lemma_at(p, s, skip_white(s, k));
    }
}

proof fn lemma_shift_can_close(p: Seq<char>, s: Seq<char>, i: int, context: Context)
    requires
        0 <= i,
    ensures
        string_can_close(p + s, p.len() + i, context) == string_can_close(s, i, context),
{
    lemma_at(p, s, i);
    lemma_shift_trivia(p, s, i, false);
    let j = skip_trivia(s, i, false);
    lemma_skip_trivia(s, i, false);
    lemma_at(p, s, j);
    lemma_shift_name(p, s, j, true);
    if let Some(k) = name_end(s, j, true) {
        lemma_shift_trivia(p, s, k, false);
        lemma_skip_trivia(s, k, false);
        lemma_at(p, s, skip_trivia(s, k, false));
    }
}

proof fn lemma_shift_fence(p: Seq<char>, s: Seq<char>, i: int)
    requires
        0 <= i,
    ensures
        fence_end(p + s, p.len() + i) == p.len() + fence_end(s, i),
    decreases s.len() - i,
{
    lemma_at(p, s, i);
    if at(s, i) == Some('`') {
        lemma_shift_fence(p, s, i + 1);
    } else {
        lemma_shift_letters(p, s, i);
    }
}

proof fn lemma_shift_letters(p: Seq<char>, s: Seq<char>, i: int)
    requires
        0 <= i,
    ensures
        letter_run(p + s, p.len() + i) == p.len() + letter_run(s, i),
    decreases s.len() - i,
{
    if i < s.len() {
        assert((p + s)[p.len() + i] == s[i]);
        lemma_shift_letters(p, s, i + 1);
    }
}

proof fn lemma_shift_escape(p: Seq<char>, s: Seq<char>, i: int)
    requires
        0 <= i,
    ensures
        escape(p + s, p.len() + i).0 == escape(s, i).0,
        escape(p + s, p.len() + i).1 == p.len() + escape(s, i).1,
        i <= escape(s, i).1,
{
    lemma_at(p, s, i);
    if i + 5 <= s.len() {
        assert((p + s).subrange(p.len() + i + 1, p.len() + i + 5) =~= s.subrange(i + 1, i + 5));
    }
    if i + 3 <= s.len() {
        assert((p + s).subrange(p.len() + i + 1, p.len() + i + 3) =~= s.subrange(i + 1, i + 3));
    }
}

proof fn lemma_shift_string(
    p: Seq<char>,
    s: Seq<char>,
    i: int,
    close: char,
    context: Context,
    out: Seq<char>,
)
    requires
        0 <= i,
    ensures
        string_rest(p + s, p.len() + i, close, context, out).0 == string_rest(
            s,
            i,
            close,
            context,
            out,
        ).0,
        string_rest(p + s, p.len() + i, close, context, out).1 == p.len() + string_rest(
            s,
            i,
            close,
            context,
            out,
        ).1,
    decreases s.len() - i,
{
    lemma_at(p, s, i + 1);
    if i < s.len() {
        let c = s[i];
        assert((p + s)[p.len() + i] == c);
        lemma_shift_can_close(p, s, i + 1, context);
        lemma_shift_can_close(p, s, i + 2, context);
        lemma_shift_escape(p, s, i + 1);
        if c == '\\' {
            let (given, next) = escape(s, i + 1);
            lemma_shift_string(
                p,
                s,
                next,
                close,
                context,
                out.push(
                    match given {
                        Some(e) => e,
                        None => '\\',
                    },
                ),
            );
        } else {
            lemma_shift_string(p, s, i + 1, close, context, out.push(c));
        }
    }
}

proof fn lemma_shift_quoted(p: Seq<char>, s: Seq<char>, i: int, context: Context)
    requires
        0 <= i,
    ensures
        quoted_string(p + s, p.len() + i, context).0 == quoted_string(s, i, context).0,
        quoted_string(p + s, p.len() + i, context).1 == p.len() + quoted_string(s, i, context).1,
{
    lemma_at(p, s, i);
    if let Some(open) = at(s, i) {
        lemma_shift_string(p, s, i + 1, closing_quote(open), context, Seq::empty());
    }
}

proof fn lemma_shift_bare_ends(
    p: Seq<char>,
    s: Seq<char>,
    i: int,
    stops: Stops,
    context: Context,
    out: Seq<char>,
)
    requires
        0 <= i,
    ensures
        bare_ends(p + s, p.len() + i, stops, context, out) == bare_ends(
            s,
            i,
            stops,
            context,
            out,
        ),
{
    lemma_at(p, s, i);
    lemma_at(p, s, i + 1);
    lemma_shift_member_starts(p, s, i);
}

proof fn lemma_shift_bare(
    p: Seq<char>,
    s: Seq<char>,
    i: int,
    stops: Stops,
    context: Context,
    out: Seq<char>,
)
    requires
        0 <= i,
    ensures
        bare_rest(p + s, p.len() + i, stops, context, out).0 == bare_rest(
            s,
            i,
            stops,
            context,
            out,
        ).0,
        bare_rest(p + s, p.len() + i, stops, context, out).1 == p.len() + bare_rest(
            s,
            i,
            stops,
            context,
            out,
        ).1,
        i <= bare_rest(s, i, stops, context, out).1,
    decreases s.len() - i,
{
    lemma_shift_bare_ends(p, s, i, stops, context, out);
    if !bare_ends(s, i, stops, context, out) {
        assert((p + s)[p.len() + i] == s[i]);
        lemma_shift_bare(p, s, i + 1, stops, context, out.push(s[i]));
    }
}

proof fn lemma_shift_key(p: Seq<char>, s: Seq<char>, i: int)
    requires
        0 <= i <= s.len(),
    ensures
        object_key(p + s, p.len() + i).0 == object_key(s, i).0,
        object_key(p + s, p.len() + i).1 == p.len() + object_key(s, i).1,
        i <= object_key(s, i).1 <= s.len(),
{
    lemma_shift_trivia(p, s, i, true);
    let j = skip_trivia(s, i, true);
    lemma_skip_trivia(s, i, true);
    lemma_at(p, s, j);
    lemma_at(p, s, j + 1);
    let k = if at(s, j) == Some('\\') && (at(s, j + 1) matches Some(q) && is_quote(q)) {
        j + 1
    } else {
        j
    };
    lemma_at(p, s, k);
    lemma_shift_quoted(p, s, k, Context::ObjectKey);
    lemma_shift_bare(p, s, k + 1, Stops::BracketKey, Context::ObjectKey, Seq::empty());
    lemma_at(p, s, bare_rest(s, k + 1, Stops::BracketKey, Context::ObjectKey, Seq::empty()).1);
    lemma_shift_bare(p, s, k, Stops::Key, Context::ObjectKey, Seq::empty());
    lemma_object_key(s, i);
}

proof fn lemma_shift_array_member(p: Seq<char>, s: Seq<char>, i: int)
    requires
        0 <= i <= s.len(),
    ensures
        array_member_starts(p + s, p.len() + i) == array_member_starts(s, i),
{
    lemma_at(p, s, i);
    lemma_shift_key(p, s, i);
    let k = object_key(s, i).1;
    lemma_shift_trivia(p, s, k, true);
    lemma_skip_trivia(s, k, true);
    lemma_at(p, s, skip_trivia(s, k, true));
}

/// An outcome, seen from further ahead.
pub open spec fn shifted(outcome: Outcome, d: int) -> Outcome {
    match outcome {
        Outcome::Value(v, next) => Outcome::Value(v, next + d),
        Outcome::Nothing(next) => Outcome::Nothing(next + d),
        Outcome::Rejected(reason) => Outcome::Rejected(reason),
    }
}

/// The readings of the grammar, each as one thing.
#[verifier::opaque]
spec fn read_value_at(s: Seq<char>, i: int, context: Context, strict: bool) -> Outcome {
    value_at(s, i, context, strict)
}

#[verifier::opaque]
spec fn read_member(s: Seq<char>, i: int, strict: bool) -> Outcome {
    member_value(s, i, strict)
}

#[verifier::opaque]
spec fn read_object(
    s: Seq<char>,
    i: int,
    strict: bool,
    members: Seq<(Seq<char>, Json)>,
) -> Outcome {
    object_at(s, i, strict, members)
}

#[verifier::opaque]
spec fn read_list(
    s: Seq<char>,
    i: int,
    closing: char,
    strict: bool,
    items: Seq<Json>,
) -> Outcome {
    array_at(s, i, closing, strict, items)
}

proof fn lemma_reads_forward(s: Seq<char>, i: int, context: Context, strict: bool)
    requires
        0 <= i <= s.len(),
    ensures
        outcome_end(read_value_at(s, i, context, strict)) matches Some(next) ==> i <= next
            <= s.len(),
        outcome_end(read_member(s, i, strict)) matches Some(next) ==> i <= next <= s.len(),
        read_member(s, i, strict) == match read_value_at(s, i, Context::ObjectValue, strict) {
            Outcome::Nothing(next) => Outcome::Value(Json::String(Seq::empty()), next),
            found => found,
        },
{
    reveal(read_value_at);
    reveal(read_member);
    lemma_value_at(s, i, context, strict);
    lemma_member_value(s, i, strict);
}

/// What reading a value at `i` comes to: an outcome, or reading something else further on.
enum ValueStep {
    Done(Outcome),
    Object(int),
    List(int),
    Parentheses(int),
    Again(int),
}

#[verifier::opaque]
spec fn value_step(s: Seq<char>, i: int, context: Context) -> ValueStep {
    let j = skip_trivia(s, i, true);
    match at(s, j) {
        None => ValueStep::Done(Outcome::Nothing(j)),
        Some(c) => if c == '{' {
            ValueStep::Object(j + 1)
        } else if c == '[' {
            ValueStep::List(j + 1)
        } else if c == '(' {
            if context.outside() && !parenthesis_starts_value(s, j) {
                ValueStep::Again(j + 1)
            } else {
                ValueStep::Parentheses(j + 1)
            }
        } else if c == '\\' && (at(s, j + 1) matches Some(q) && is_quote(q)) {
            ValueStep::Done(string_value(s, j + 1, context))
        } else if is_quote(c) {
            ValueStep::Done(string_value(s, j, context))
        } else if starts_number(c) {
            let (text, next) = bare_token(s, j, Stops::Value, context);
            ValueStep::Done(Outcome::Value(bare_value(text), next))
        } else if c == '_' || is_letter(c) {
            match word(s, j, context) {
                Outcome::Nothing(next) if context.outside() && j < next => ValueStep::Again(next),
                found => ValueStep::Done(found),
            }
        } else if c == '`' {
            ValueStep::Again(fence_end(s, j))
        } else if (c == ',' || c == ':') && context == Context::ObjectValue {
            ValueStep::Done(Outcome::Value(Json::String(Seq::empty()), j))
        } else if (c == '}' || c == ']' || c == ')') && !context.outside() {
            ValueStep::Done(Outcome::Nothing(j))
        } else if context.outside() {
            ValueStep::Again(j + 1)
        } else {
            ValueStep::Done(Outcome::Nothing(j + 1))
        },
    }
}

spec fn after_value_step(s: Seq<char>, step: ValueStep, context: Context, strict: bool) -> Outcome {
    match step {
        ValueStep::Done(outcome) => outcome,
        ValueStep::Object(k) => read_object(s, k, strict, Seq::empty()),
        ValueStep::List(k) => read_list(s, k, ']', strict, Seq::empty()),
        ValueStep::Parentheses(k) => without_parentheses(
            read_list(s, k, ')', strict, Seq::empty()),
        ),
        ValueStep::Again(k) => read_value_at(s, k, context, strict),
    }
}

spec fn value_step_place(step: ValueStep) -> Option<int> {
    match step {
        ValueStep::Done(_) => None,
        ValueStep::Object(k) => Some(k),
        ValueStep::List(k) => Some(k),
        ValueStep::Parentheses(k) => Some(k),
        ValueStep::Again(k) => Some(k),
    }
}

spec fn shifted_value_step(step: ValueStep, d: int) -> ValueStep {
    match step {
        ValueStep::Done(outcome) => ValueStep::Done(shifted(outcome, d)),
        ValueStep::Object(k) => ValueStep::Object(k + d),
        ValueStep::List(k) => ValueStep::List(k + d),
        ValueStep::Parentheses(k) => ValueStep::Parentheses(k + d),
        ValueStep::Again(k) => ValueStep::Again(k + d),
    }
}

proof fn lemma_value_step(s: Seq<char>, i: int, context: Context, strict: bool)
    requires
        0 <= i <= s.len(),
    ensures
        read_value_at(s, i, context, strict) == after_value_step(
            s,
            value_step(s, i, context),
            context,
            strict,
        ),
        value_step_place(value_step(s, i, context)) matches Some(k) ==> i < k <= s.len(),
{
    reveal(read_value_at);
    reveal(read_object);
    reveal(read_list);
    reveal(value_step);
    let j = skip_trivia(s, i, true);
    lemma_skip_trivia(s, i, true);
    if let Some(c) = at(s, j) {
        if c == '`' {
            lemma_fence_end(s, j);
        } else if c == '_' || is_letter(c) {
            lemma_bare_token(s, j, Stops::Prose, context);
            lemma_bare_token(s, j, Stops::Value, context);
        }
    }
}

#[verifier::spinoff_prover]
proof fn lemma_shift_value_step(p: Seq<char>, s: Seq<char>, i: int, context: Context)
    requires
        0 <= i <= s.len(),
    ensures
        value_step(p + s, p.len() + i, context) == shifted_value_step(
            value_step(s, i, context),
            p.len() as int,
        ),
{
    reveal(value_step);
    let j = skip_trivia(s, i, true);
    lemma_shift_trivia(p, s, i, true);
    lemma_skip_trivia(s, i, true);
    lemma_at(p, s, j);
    lemma_at(p, s, j + 1);
    if let Some(c) = at(s, j) {
        lemma_shift_white(p, s, j + 1);
        lemma_skip_white(s, j + 1);
        lemma_at(p, s, skip_white(s, j + 1));
        lemma_shift_quoted(p, s, j + 1, context);
        lemma_shift_quoted(p, s, j, context);
        lemma_shift_bare(p, s, j, Stops::Value, context, Seq::empty());
        lemma_shift_bare(p, s, j, Stops::Prose, context, Seq::empty());
        lemma_at(p, s, bare_rest(s, j, Stops::Prose, context, Seq::empty()).1);
        lemma_at(p, s, bare_rest(s, j, Stops::Value, context, Seq::empty()).1);
        lemma_shift_fence(p, s, j);
    }
}

proof fn lemma_shift_value(p: Seq<char>, s: Seq<char>, i: int, context: Context, strict: bool)
    requires
        0 <= i <= s.len(),
    ensures
        read_value_at(p + s, p.len() + i, context, strict) == shifted(
            read_value_at(s, i, context, strict),
            p.len() as int,
        ),
    decreases s.len() - i, 0int,
{
    lemma_value_step(s, i, context, strict);
    lemma_value_step(p + s, p.len() + i, context, strict);
    lemma_shift_value_step(p, s, i, context);
    match value_step(s, i, context) {
        ValueStep::Done(_) => {},
        ValueStep::Object(k) => {
            lemma_shift_object(p, s, k, strict, Seq::empty());
        },
        ValueStep::List(k) => {
            lemma_shift_array(p, s, k, ']', strict, Seq::empty());
        },
        ValueStep::Parentheses(k) => {
            lemma_shift_array(p, s, k, ')', strict, Seq::empty());
        },
        ValueStep::Again(k) => {
            lemma_shift_value(p, s, k, context, strict);
        },
    }
}

proof fn lemma_shift_member(p: Seq<char>, s: Seq<char>, i: int, strict: bool)
    requires
        0 <= i <= s.len(),
    ensures
        read_member(p + s, p.len() + i, strict) == shifted(
            read_member(s, i, strict),
            p.len() as int,
        ),
    decreases s.len() - i, 1int,
{
    lemma_reads_forward(s, i, Context::ObjectValue, strict);
    lemma_reads_forward(p + s, p.len() + i, Context::ObjectValue, strict);
    lemma_shift_value(p, s, i, Context::ObjectValue, strict);
}

proof fn lemma_shift_set(p: Seq<char>, s: Seq<char>, i: int, items: Seq<Json>)
    requires
        0 <= i <= s.len(),
    ensures
        set_at(p + s, p.len() + i, items) == shifted(set_at(s, i, items), p.len() as int),
    decreases s.len() - i,
{
    let j = skip_trivia(s, i, true);
    lemma_shift_trivia(p, s, i, true);
    lemma_skip_trivia(s, i, true);
    lemma_at(p, s, j);
    let start = if at(s, j) == Some(',') {
        skip_trivia(s, j + 1, true)
    } else {
        j
    };
    lemma_shift_trivia(p, s, j + 1, true);
    lemma_skip_trivia(s, j + 1, true);
    lemma_at(p, s, start);
    if at(s, start) is Some && at(s, start) != Some('}') {
        lemma_shift_key(p, s, start);
        let (key, k) = object_key(s, start);
        lemma_shift_set(
            p,
            s,
            if k > i {
                k
            } else {
                i + 1
            },
            if key.len() > 0 {
                items.push(Json::String(key))
            } else {
                items
            },
        );
    }
}

/// Where the value of the member at `j` starts.
#[verifier::opaque]
spec fn value_start(s: Seq<char>, j: int) -> int {
    let after_key = skip_trivia(s, object_key(s, j).1, true);
    if at(s, after_key) == Some(':') {
        after_key + 1
    } else {
        after_key
    }
}

/// What reading on in a container comes to: an outcome, or reading on further ahead with more in
/// it.
enum Step<T> {
    Done(Outcome),
    More(int, Seq<T>),
}

spec fn shifted_step<T>(step: Step<T>, d: int) -> Step<T> {
    match step {
        Step::Done(outcome) => Step::Done(shifted(outcome, d)),
        Step::More(next, parts) => Step::More(next + d, parts),
    }
}

/// What reading on in an object comes to, given the value of its next member.
#[verifier::opaque]
spec fn object_step(
    s: Seq<char>,
    i: int,
    strict: bool,
    members: Seq<(Seq<char>, Json)>,
    read: Outcome,
) -> Step<(Seq<char>, Json)> {
    let j = skip_separators(s, i);
    let key = object_key(s, j).0;
    let after_key = skip_trivia(s, object_key(s, j).1, true);
    let start = skip_trivia(s, value_start(s, j), true);
    match at(s, j) {
        None => Step::Done(Outcome::Value(Json::Object(members), j)),
        Some(c) => if c == '}' {
            Step::Done(Outcome::Value(Json::Object(members), j + 1))
        } else if c == ']' || c == ')' || c == '[' {
            Step::Done(Outcome::Value(Json::Object(members), j))
        } else if at(s, after_key) == Some(',') || at(s, after_key) == Some('}') {
            Step::Done(set_at(s, after_key, seq![Json::String(key)]))
        } else if key.len() == 0 && at(s, after_key) is None {
            Step::Done(Outcome::Value(Json::Object(members), after_key))
        } else {
            match (match at(s, start) {
                None | Some(',') | Some('}') | Some(']') | Some(')') => Outcome::Value(
                    Json::String(Seq::empty()),
                    start,
                ),
                _ => read,
            }) {
                Outcome::Value(value, end) => if strict && has_key(members, key) {
                    Step::Done(Outcome::Rejected(duplicate_key_reason(key)))
                } else {
                    let grown = inserted(members, key, value);
                    let next = skip_trivia(s, end, true);
                    if at(s, next) == Some('}') {
                        Step::Done(Outcome::Value(Json::Object(grown), next + 1))
                    } else if at(s, next) == Some(',') {
                        Step::More(next + 1, grown)
                    } else {
                        Step::More(next, grown)
                    }
                },
                refused => Step::Done(refused),
            }
        },
    }
}

spec fn object_read(s: Seq<char>, i: int, strict: bool) -> Outcome {
    read_member(s, skip_trivia(s, value_start(s, skip_separators(s, i)), true), strict)
}

proof fn lemma_object_step(
    s: Seq<char>,
    i: int,
    strict: bool,
    members: Seq<(Seq<char>, Json)>,
)
    requires
        0 <= i <= s.len(),
    ensures
        read_object(s, i, strict, members) == match object_step(
            s,
            i,
            strict,
            members,
            object_read(s, i, strict),
        ) {
            Step::Done(outcome) => outcome,
            Step::More(next, grown) => read_object(s, next, strict, grown),
        },
        object_step(s, i, strict, members, object_read(s, i, strict)) matches Step::More(next, _)
            ==> i < next <= s.len(),
{
    reveal(read_object);
    reveal(read_member);
    reveal(object_step);
    reveal(value_start);
    let j = skip_separators(s, i);
    lemma_skip_separators(s, i);
    lemma_member_head(s, i);
    if at(s, j) is Some {
        let start = skip_trivia(s, value_start(s, j), true);
        lemma_member_value(s, start, strict);
        if let Outcome::Value(_, end) = read_member(s, start, strict) {
            lemma_skip_trivia(s, end, true);
        }
        lemma_skip_trivia(s, start, true);
    }
}

#[verifier::spinoff_prover]
proof fn lemma_shift_head(p: Seq<char>, s: Seq<char>, i: int)
    requires
        0 <= i <= s.len(),
    ensures
        ({
            let d = p.len() as int;
            let j = skip_separators(s, i);
            &&& skip_separators(p + s, d + i) == d + j
            &&& at(p + s, d + j) == at(s, j)
            &&& at(s, j) is Some ==> {
                let k = object_key(s, j).1;
                let after_key = skip_trivia(s, k, true);
                let start = skip_trivia(s, value_start(s, j), true);
                &&& object_key(p + s, d + j).0 == object_key(s, j).0
                &&& object_key(p + s, d + j).1 == d + k
                &&& skip_trivia(p + s, d + k, true) == d + after_key
                &&& at(p + s, d + after_key) == at(s, after_key)
                &&& value_start(p + s, d + j) == d + value_start(s, j)
                &&& skip_trivia(p + s, d + value_start(s, j), true) == d + start
                &&& at(p + s, d + start) == at(s, start)
                &&& i <= j <= after_key <= value_start(s, j) <= start <= s.len()
                &&& at(s, j) != Some('}') ==> j < value_start(s, j)
            }
        }),
{
    reveal(value_start);
    let j = skip_separators(s, i);
    lemma_shift_separators(p, s, i);
    lemma_skip_separators(s, i);
    lemma_at(p, s, j);
    if at(s, j) is Some {
        lemma_shift_key(p, s, j);
        let k = object_key(s, j).1;
        lemma_shift_trivia(p, s, k, true);
        lemma_skip_trivia(s, k, true);
        lemma_at(p, s, skip_trivia(s, k, true));
        lemma_shift_trivia(p, s, value_start(s, j), true);
        lemma_skip_trivia(s, value_start(s, j), true);
        lemma_at(p, s, skip_trivia(s, value_start(s, j), true));
        lemma_member_head(s, i);
    }
}

#[verifier::spinoff_prover]
proof fn lemma_shift_object_step(
    p: Seq<char>,
    s: Seq<char>,
    i: int,
    strict: bool,
    members: Seq<(Seq<char>, Json)>,
    read: Outcome,
)
    requires
        0 <= i <= s.len(),
        at(s, skip_separators(s, i)) is Some ==> (outcome_end(read) matches Some(end) ==> 0 <= end
            <= s.len()),
    ensures
        object_step(p + s, p.len() + i, strict, members, shifted(read, p.len() as int))
            == shifted_step(object_step(s, i, strict, members, read), p.len() as int),
{
    reveal(object_step);
    let j = skip_separators(s, i);
    lemma_shift_head(p, s, i);
    if at(s, j) is Some {
        let after_key = skip_trivia(s, object_key(s, j).1, true);
        let start = skip_trivia(s, value_start(s, j), true);
        lemma_shift_set(p, s, after_key, seq![Json::String(object_key(s, j).0)]);
        lemma_shift_trivia(p, s, start, true);
        lemma_skip_trivia(s, start, true);
        lemma_at(p, s, skip_trivia(s, start, true));
        if let Some(end) = outcome_end(read) {
            lemma_shift_trivia(p, s, end, true);
            lemma_skip_trivia(s, end, true);
            lemma_at(p, s, skip_trivia(s, end, true));
        }
    }
}

proof fn lemma_shift_object(
    p: Seq<char>,
    s: Seq<char>,
    i: int,
    strict: bool,
    members: Seq<(Seq<char>, Json)>,
)
    requires
        0 <= i <= s.len(),
    ensures
        read_object(p + s, p.len() + i, strict, members) == shifted(
            read_object(s, i, strict, members),
            p.len() as int,
        ),
    decreases s.len() - i, 2int,
{
    let j = skip_separators(s, i);
    let read = object_read(s, i, strict);
    lemma_shift_head(p, s, i);
    lemma_object_step(s, i, strict, members);
    lemma_object_step(p + s, p.len() + i, strict, members);
    if at(s, j) is Some && at(s, j) != Some('}') {
        let start = skip_trivia(s, value_start(s, j), true);
        lemma_shift_member(p, s, start, strict);
        lemma_reads_forward(s, start, Context::ObjectValue, strict);
        lemma_shift_object_step(p, s, i, strict, members, read);
        if let Step::More(next, grown) = object_step(s, i, strict, members, read) {
            lemma_shift_object(p, s, next, strict, grown);
        }
    } else {
        reveal(object_step);
    }
}

/// What reading the next item of a list comes to.
#[verifier::opaque]
spec fn list_read(s: Seq<char>, j: int, strict: bool, items: Seq<Json>) -> Step<Json> {
    if array_member_starts(s, j) {
        match read_member(s, value_start(s, j), strict) {
            Outcome::Value(value, end) => Step::More(
                end,
                items.push(Json::Object(seq![(object_key(s, j).0, value)])),
            ),
            refused => Step::Done(refused),
        }
    } else {
        match read_value_at(s, j, Context::Array, strict) {
            Outcome::Value(value, end) => Step::More(end, item_added(items, value)),
            Outcome::Nothing(end) => Step::More(
                if at(s, end) is Some {
                    end + 1
                } else {
                    end
                },
                items,
            ),
            refused => Step::Done(refused),
        }
    }
}

/// What reading on in a list comes to, given what reading its next item comes to.
#[verifier::opaque]
spec fn list_step(
    s: Seq<char>,
    i: int,
    closing: char,
    items: Seq<Json>,
    read: Step<Json>,
) -> Step<Json> {
    let j = skip_separators(s, i);
    match at(s, j) {
        None => Step::Done(Outcome::Value(Json::Array(items), j)),
        Some(c) => if c == closing {
            Step::Done(Outcome::Value(Json::Array(items), j + 1))
        } else if c == '}' && closing == ']' {
            Step::Done(Outcome::Value(Json::Array(items), j))
        } else if c == ')' && closing == ']' {
            Step::Done(Outcome::Value(Json::Array(items), j + 1))
        } else {
            match read {
                Step::Done(refused) => Step::Done(refused),
                Step::More(end, grown) => {
                    let next = skip_trivia(s, end, true);
                    if at(s, next) == Some(',') {
                        Step::More(next + 1, grown)
                    } else {
                        Step::More(next, grown)
                    }
                },
            }
        },
    }
}

proof fn lemma_list_step(
    s: Seq<char>,
    i: int,
    closing: char,
    strict: bool,
    items: Seq<Json>,
)
    requires
        0 <= i <= s.len(),
    ensures
        ({
            let read = list_read(s, skip_separators(s, i), strict, items);
            let step = list_step(s, i, closing, items, read);
            &&& read_list(s, i, closing, strict, items) == match step {
                Step::Done(outcome) => outcome,
                Step::More(next, grown) => read_list(s, next, closing, strict, grown),
            }
            &&& step matches Step::More(next, _) ==> i < next <= s.len()
        }),
{
    reveal(read_list);
    reveal(read_member);
    reveal(read_value_at);
    reveal(list_step);
    reveal(list_read);
    reveal(value_start);
    let j = skip_separators(s, i);
    lemma_skip_separators(s, i);
    lemma_member_head(s, i);
    if at(s, j) is Some && at(s, j) != Some('}') {
        lemma_member_value(s, value_start(s, j), strict);
        lemma_value_at(s, j, Context::Array, strict);
        if let Step::More(end, _) = list_read(s, j, strict, items) {
            lemma_skip_trivia(s, end, true);
        }
    } else if at(s, j) is Some {
        lemma_value_at(s, j, Context::Array, strict);
        if let Step::More(end, _) = list_read(s, j, strict, items) {
            lemma_skip_trivia(s, end, true);
        }
    }
}

#[verifier::spinoff_prover]
proof fn lemma_shift_list_step(
    p: Seq<char>,
    s: Seq<char>,
    i: int,
    closing: char,
    items: Seq<Json>,
    read: Step<Json>,
)
    requires
        0 <= i <= s.len(),
        at(s, skip_separators(s, i)) is Some ==> (read matches Step::More(end, _) ==> 0 <= end
            <= s.len()),
    ensures
        list_step(p + s, p.len() + i, closing, items, shifted_step(read, p.len() as int))
            == shifted_step(list_step(s, i, closing, items, read), p.len() as int),
{
    reveal(list_step);
    let j = skip_separators(s, i);
    lemma_shift_separators(p, s, i);
    lemma_skip_separators(s, i);
    lemma_at(p, s, j);
    if let Step::More(end, _) = read {
        if at(s, j) is Some {
            lemma_shift_trivia(p, s, end, true);
            lemma_skip_trivia(s, end, true);
            lemma_at(p, s, skip_trivia(s, end, true));
        }
    }
}

#[verifier::spinoff_prover]
proof fn lemma_shift_list_read(
    p: Seq<char>,
    s: Seq<char>,
    i: int,
    strict: bool,
    items: Seq<Json>,
)
    requires
        0 <= i <= s.len(),
        ({
            let d = p.len() as int;
            let j = skip_separators(s, i);
            &&& at(s, j) is Some
            &&& read_value_at(p + s, d + j, Context::Array, strict) == shifted(
                read_value_at(s, j, Context::Array, strict),
                d,
            )
            &&& at(s, j) != Some('}') ==> read_member(p + s, d + value_start(s, j), strict)
                == shifted(read_member(s, value_start(s, j), strict), d)
        }),
    ensures
        ({
            let d = p.len() as int;
            let j = skip_separators(s, i);
            &&& list_read(p + s, d + j, strict, items) == shifted_step(
                list_read(s, j, strict, items),
                d,
            )
            &&& list_read(s, j, strict, items) matches Step::More(end, _) ==> 0 <= end <= s.len()
        }),
{
    reveal(list_read);
    let j = skip_separators(s, i);
    lemma_shift_head(p, s, i);
    lemma_shift_array_member(p, s, j);
    lemma_reads_forward(s, j, Context::Array, strict);
    if let Some(end) = outcome_end(read_value_at(s, j, Context::Array, strict)) {
        lemma_at(p, s, end);
    }
    lemma_reads_forward(s, value_start(s, j), Context::Array, strict);
}

proof fn lemma_shift_array(
    p: Seq<char>,
    s: Seq<char>,
    i: int,
    closing: char,
    strict: bool,
    items: Seq<Json>,
)
    requires
        0 <= i <= s.len(),
    ensures
        read_list(p + s, p.len() + i, closing, strict, items) == shifted(
            read_list(s, i, closing, strict, items),
            p.len() as int,
        ),
    decreases s.len() - i, 2int,
{
    let j = skip_separators(s, i);
    let read = list_read(s, j, strict, items);
    lemma_shift_head(p, s, i);
    lemma_list_step(s, i, closing, strict, items);
    lemma_list_step(p + s, p.len() + i, closing, strict, items);
    if at(s, j) is Some {
        lemma_shift_value(p, s, j, Context::Array, strict);
        if at(s, j) != Some('}') {
            lemma_shift_member(p, s, value_start(s, j), strict);
        }
        lemma_shift_list_read(p, s, i, strict, items);
        lemma_shift_list_step(p, s, i, closing, items, read);
        if let Step::More(next, grown) = list_step(s, i, closing, items, read) {
            lemma_shift_array(p, s, next, closing, strict, grown);
        }
    } else {
        reveal(list_step);
    }
}

/// A value is the same whatever stands before it.
pub proof fn lemma_value_depends_on_what_follows(
    p: Seq<char>,
    s: Seq<char>,
    i: int,
    context: Context,
    strict: bool,
)
    requires
        0 <= i <= s.len(),
    ensures
        value_at(p + s, p.len() + i, context, strict) == shifted(
            value_at(s, i, context, strict),
            p.len() as int,
        ),
{
    reveal(read_value_at);
    lemma_shift_value(p, s, i, context, strict);
}

/// The value that comes next outside any value, as one thing.
#[verifier::opaque]
spec fn reads(s: Seq<char>, i: int, values: Seq<Json>, strict: bool) -> Outcome {
    value_at(s, i, outside_context(values), strict)
}

/// What finding values at `i` comes to, given what is read there: the place to go on and the
/// values, or the reason of a refusal.
spec fn found_step(found: Outcome, i: int, strict: bool, values: Seq<Json>) -> Result<
    (int, Seq<Json>),
    Seq<char>,
> {
    let next = match outcome_end(found) {
        Some(next) if i < next => next,
        _ => i + 1,
    };
    match found {
        Outcome::Value(value, _) => Ok(
            (
                next,
                if value == Json::String(Seq::empty()) {
                    values
                } else {
                    found_added(values, value, strict)
                },
            ),
        ),
        Outcome::Nothing(_) => Ok((next, values)),
        Outcome::Rejected(reason) => Err(reason),
    }
}

proof fn lemma_found_step(s: Seq<char>, i: int, strict: bool, values: Seq<Json>)
    requires
        0 <= i < s.len(),
    ensures
        all_found(s, i, strict, values) == match found_step(
            reads(s, i, values, strict),
            i,
            strict,
            values,
        ) {
            Ok((next, grown)) => all_found(s, next, strict, grown),
            Err(reason) => Err(reason),
        },
        outcome_end(reads(s, i, values, strict)) matches Some(next) ==> i <= next <= s.len(),
{
    reveal(reads);
    lemma_value_at(s, i, outside_context(values), strict);
}

proof fn lemma_shift_reads(p: Seq<char>, s: Seq<char>, i: int, values: Seq<Json>, strict: bool)
    requires
        0 <= i <= s.len(),
    ensures
        reads(p + s, p.len() + i, values, strict) == shifted(
            reads(s, i, values, strict),
            p.len() as int,
        ),
{
    reveal(reads);
    lemma_value_depends_on_what_follows(p, s, i, outside_context(values), strict);
}

/// The values that are found from a place on are the same whatever stands before it.
pub proof fn lemma_found_depends_on_what_follows(
    p: Seq<char>,
    s: Seq<char>,
    i: int,
    strict: bool,
    values: Seq<Json>,
)
    requires
        0 <= i,
    ensures
        all_found(p + s, p.len() + i, strict, values) == all_found(s, i, strict, values),
    decreases s.len() - i,
{
    if i < s.len() {
        lemma_found_step(s, i, strict, values);
        lemma_found_step(p + s, p.len() + i, strict, values);
        lemma_shift_reads(p, s, i, values, strict);
        if let Ok((next, grown)) = found_step(reads(s, i, values, strict), i, strict, values) {
            lemma_found_depends_on_what_follows(p, s, next, strict, grown);
        }
    }
}

} // verus!
