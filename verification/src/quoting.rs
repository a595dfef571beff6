//! Where strings end, and what is kept of them.

use crate::chars::is_white;
use crate::gaps::{all_white, lemma_no_trivia, lemma_white_run, lemma_white_stands};
use crate::grammar::{value_at, Outcome};
use crate::scan::{
    at, close_is_missing, member_follows, member_starts, name_end, name_run, quoted_name_end,
    skip_trivia, skip_white, string_can_close, Context,
};
use crate::standard::{lemma_part_stands, stands};
use crate::text::{trimmed, trimmed_end, trimmed_start, Trim};
use crate::token::{object_key, quoted_string, string_rest, tidy_string};
use crate::value::Json;
use vstd::prelude::*;

verus! {

/// The quotation marks that open and close a string.
pub open spec fn is_pair(open: char, close: char) -> bool {
    ||| open == '"' && close == '"'
    ||| open == '\'' && close == '\''
    ||| open == '\u{201c}' && close == '\u{201d}'
}

/// Whether a character does not occur in a text.
pub open spec fn lacks(t: Seq<char>, c: char) -> bool {
    forall|k: int| 0 <= k < t.len() ==> #[trigger] t[k] != c
}

/// Whether `u` is what is kept of the text that the four parts make: backquotes at the end go,
/// and space around the rest goes.
pub open spec fn is_kept(
    lead: Seq<char>,
    u: Seq<char>,
    trail: Seq<char>,
    ticks: Seq<char>,
) -> bool {
    &&& all_white(lead)
    &&& all_white(trail)
    &&& forall|k: int| 0 <= k < ticks.len() ==> #[trigger] ticks[k] == '`'
    &&& u.len() > 0 ==> !is_white(u[0]) && !is_white(u.last()) && (trail.len() == 0 ==> u.last()
        != '`')
}

/// The text of a string.
pub open spec fn string_between(open: char, t: Seq<char>, close: char) -> Seq<char> {
    seq![open] + t + seq![close]
}

/// Whether whitespace and then something that ends a value in an object or an array, or the end
/// of the text, comes at `n`.
pub open spec fn value_ends(s: Seq<char>, n: int, w: Seq<char>) -> bool {
    &&& stands(s, n, w)
    &&& all_white(w)
    &&& match at(s, n + w.len()) {
        Some(c) => c == ',' || c == '}' || c == ']',
        None => true,
    }
}

/// The characters of a plain name.
pub open spec fn is_plain_name(name: Seq<char>) -> bool {
    &&& name.len() > 0
    &&& forall|k: int| 0 <= k < name.len() ==> is_plain_char(#[trigger] name[k])
}

pub open spec fn is_plain_char(c: char) -> bool {
    'a' <= c <= 'z' || 'A' <= c <= 'Z' || '0' <= c <= '9' || c == '_' || c == '-'
}

/// Whether a text is whitespace of JSON.
pub open spec fn all_blank(w: Seq<char>) -> bool {
    forall|k: int| 0 <= k < w.len() ==> is_blank(#[trigger] w[k])
}

pub open spec fn is_blank(c: char) -> bool {
    c == ' ' || c == '\t' || c == '\n' || c == '\r'
}

/// The way a key is written: bare, or in quotation marks.
pub open spec fn written_key(name: Seq<char>, bare: bool, open: char, close: char) -> Seq<char> {
    if bare {
        name
    } else {
        string_between(open, name, close)
    }
}

/// Whether a key and a colon come at `n`, after whitespace that is not empty.
pub open spec fn member_ahead(
    s: Seq<char>,
    n: int,
    w: Seq<char>,
    name: Seq<char>,
    bare: bool,
    open: char,
    close: char,
    before_colon: Seq<char>,
) -> bool {
    &&& all_white(w)
    &&& w.len() > 0
    &&& is_plain_name(name)
    &&& is_pair(open, close)
    &&& all_blank(before_colon)
    &&& stands(
        s,
        n,
        w + written_key(name, bare, open, close) + before_colon + seq![':'],
    )
}

pub proof fn lemma_trim_end_run(a: Seq<char>, b: Seq<char>, what: Trim)
    requires
        forall|k: int| 0 <= k < b.len() ==> what.spec_matches(#[trigger] b[k]),
    ensures
        trimmed_end(a + b, what) == trimmed_end(a, what),
    decreases b.len(),
{
    if b.len() == 0 {
        assert(a + b =~= a);
    } else {
        assert((a + b).last() == b.last());
        assert((a + b).drop_last() =~= a + b.drop_last());
        lemma_trim_end_run(a, b.drop_last(), what);
    }
}

pub proof fn lemma_trim_start_run(a: Seq<char>, b: Seq<char>, what: Trim)
    requires
        forall|k: int| 0 <= k < a.len() ==> what.spec_matches(#[trigger] a[k]),
    ensures
        trimmed_start(a + b, what) == trimmed_start(b, what),
    decreases a.len(),
{
    if a.len() == 0 {
        assert(a + b =~= b);
    } else {
        assert((a + b)[0] == a[0]);
        assert((a + b).skip(1) =~= a.skip(1) + b);
        lemma_trim_start_run(a.skip(1), b, what);
    }
}

/// Whitespace around a text is trimmed off, and nothing else.
pub proof fn lemma_trim_white(lead: Seq<char>, u: Seq<char>, trail: Seq<char>)
    requires
        all_white(lead),
        all_white(trail),
        u.len() > 0 ==> !is_white(u[0]) && !is_white(u.last()),
    ensures
        trimmed(lead + u + trail, Trim::White) == u,
{
    assert(lead + u + trail =~= lead + (u + trail));
    lemma_trim_start_run(lead, u + trail, Trim::White);
    if u.len() > 0 {
        assert((u + trail)[0] == u[0]);
        lemma_trim_end_run(u, trail, Trim::White);
    } else {
        assert(u + trail =~= trail + Seq::empty());
        lemma_trim_start_run(trail, Seq::empty(), Trim::White);
        assert(u =~= Seq::empty());
    }
}

/// What is kept of a string.
pub proof fn lemma_kept(lead: Seq<char>, u: Seq<char>, trail: Seq<char>, ticks: Seq<char>)
    requires
        is_kept(lead, u, trail, ticks),
    ensures
        tidy_string(lead + u + trail + ticks) == u,
{
    let body = lead + u + trail;
    lemma_trim_end_run(body, ticks, Trim::Only('`'));
    if body.len() > 0 {
        if trail.len() > 0 {
            assert(body.last() == trail.last());
            assert(is_white(trail[trail.len() - 1]));
        } else if u.len() > 0 {
            assert(body.last() == u.last());
        } else {
            assert(body.last() == lead.last());
            assert(is_white(lead[lead.len() - 1]));
        }
    }
    assert(trimmed_end(body, Trim::Only('`')) == body);
    lemma_trim_white(lead, u, trail);
}

/// Characters that neither end nor escape go into the string.
pub proof fn lemma_string_body(
    s: Seq<char>,
    i: int,
    n: int,
    close: char,
    context: Context,
    out: Seq<char>,
)
    requires
        0 <= i <= n <= s.len(),
        forall|k: int|
            i <= k < n ==> #[trigger] s[k] != '\\' && (s[k] == close ==> !string_can_close(
                s,
                k + 1,
                context,
            )) && (s[k] != close ==> !close_is_missing(s[k], context)),
    ensures
        string_rest(s, i, close, context, out) == string_rest(
            s,
            n,
            close,
            context,
            out + s.subrange(i, n),
        ),
    decreases n - i,
{
    if i < n {
        assert(s[i] != '\\');
        lemma_string_body(s, i + 1, n, close, context, out.push(s[i]));
        assert(out.push(s[i]) + s.subrange(i + 1, n) =~= out + s.subrange(i, n));
    } else {
        assert(out + s.subrange(i, n) =~= out);
    }
}

/// The string between quotation marks, where the second can close it and nothing before it ends
/// it.
pub proof fn lemma_string_between(
    s: Seq<char>,
    i: int,
    open: char,
    close: char,
    t: Seq<char>,
    context: Context,
)
    requires
        is_pair(open, close),
        stands(s, i, string_between(open, t, close)),
        forall|k: int|
            0 <= k < t.len() ==> #[trigger] t[k] != '\\' && (t[k] == close ==> !string_can_close(
                s,
                i + k + 2,
                context,
            )) && (t[k] != close ==> !close_is_missing(t[k], context)),
        string_can_close(s, i + t.len() + 2, context),
    ensures
        quoted_string(s, i, context) == (tidy_string(t), i + t.len() + 2),
        s[i] == open,
{
    let whole = string_between(open, t, close);
    let n = i + 1 + t.len();
    lemma_part_stands(s, i, whole, 0, whole.len() as int);
    assert(s[i + 0] == whole[0]);
    assert(s[i + (whole.len() - 1)] == whole[whole.len() - 1]);
    assert forall|k: int| i + 1 <= k < n implies #[trigger] s[k] != '\\' && (s[k] == close
        ==> !string_can_close(s, k + 1, context)) && (s[k] != close ==> !close_is_missing(
        s[k],
        context,
    )) by {
        assert(s[i + (k - i)] == whole[k - i]);
        assert(whole[k - i] == t[k - i - 1]);
    }
    lemma_string_body(s, i + 1, n, close, context, Seq::empty());
    assert(s.subrange(i + 1, n) =~= t) by {
        assert forall|k: int| 0 <= k < t.len() implies s[i + 1 + k] == t[k] by {
            assert(s[i + (k + 1)] == whole[k + 1]);
        }
    }
    assert(Seq::empty() + s.subrange(i + 1, n) =~= t);
}

pub proof fn lemma_value_ends(s: Seq<char>, n: int, w: Seq<char>)
    requires
        value_ends(s, n, w),
    ensures
        string_can_close(s, n, Context::ObjectValue),
        string_can_close(s, n, Context::Array),
{
    lemma_white_stands(s, n, w);
    lemma_no_trivia(s, n + w.len());
    assert(skip_trivia(s, n, false) == skip_trivia(s, n + w.len(), false));
}

/// A string that is closed where a value can end is read whole, with the commas, colons, line
/// breaks and other quotation marks in it: in an object if no brace or bracket closes in it, in
/// an array if no bracket does.
pub proof fn lemma_closed_string_is_read_whole(
    s: Seq<char>,
    i: int,
    open: char,
    close: char,
    lead: Seq<char>,
    u: Seq<char>,
    trail: Seq<char>,
    ticks: Seq<char>,
    w: Seq<char>,
    strict: bool,
)
    requires
        is_pair(open, close),
        is_kept(lead, u, trail, ticks),
        stands(s, i, string_between(open, lead + u + trail + ticks, close)),
        lacks(lead + u + trail + ticks, close),
        lacks(lead + u + trail + ticks, '\\'),
        lacks(lead + u + trail + ticks, ']'),
        value_ends(s, i + (lead + u + trail + ticks).len() + 2, w),
    ensures
        lacks(lead + u + trail + ticks, '}') ==> value_at(s, i, Context::ObjectValue, strict)
            == Outcome::Value(Json::String(u), i + (lead + u + trail + ticks).len() + 2),
        value_at(s, i, Context::Array, strict) == Outcome::Value(
            Json::String(u),
            i + (lead + u + trail + ticks).len() + 2,
        ),
{
    let t = lead + u + trail + ticks;
    lemma_kept(lead, u, trail, ticks);
    lemma_value_ends(s, i + t.len() + 2, w);
    lemma_string_between(s, i, open, close, t, Context::Array);
    if lacks(t, '}') {
        lemma_string_between(s, i, open, close, t, Context::ObjectValue);
    }
    lemma_no_trivia(s, i);
}

proof fn lemma_name_run(s: Seq<char>, i: int, n: int)
    requires
        0 <= i <= n <= s.len(),
        forall|k: int| i <= k < n ==> is_plain_char(#[trigger] s[k]),
        match at(s, n) {
            Some(c) => is_blank(c) || c == ':',
            None => true,
        },
    ensures
        name_run(s, i) == n,
    decreases n - i,
{
    if i < n {
        assert(is_plain_char(s[i]));
        lemma_name_run(s, i + 1, n);
    }
}

proof fn lemma_quoted_name(s: Seq<char>, i: int, n: int, close: char, escapes: bool)
    requires
        0 <= i <= n < s.len(),
        forall|k: int| i <= k < n ==> is_plain_char(#[trigger] s[k]),
        close == '"' || close == '\'' || close == '\u{201d}',
        s[n] == close,
    ensures
        quoted_name_end(s, i, close, escapes) == Some(n + 1),
    decreases n - i,
{
    if i < n {
        assert(is_plain_char(s[i]));
        lemma_quoted_name(s, i + 1, n, close, escapes);
    }
}

/// A plain key is seen as a name up to its end, however it is written.
pub proof fn lemma_key_is_name(
    s: Seq<char>,
    i: int,
    name: Seq<char>,
    bare: bool,
    open: char,
    close: char,
    before_colon: Seq<char>,
    escapes: bool,
)
    requires
        is_plain_name(name),
        is_pair(open, close),
        all_blank(before_colon),
        stands(s, i, written_key(name, bare, open, close) + before_colon + seq![':']),
    ensures
        name_end(s, i, escapes) == Some(i + written_key(name, bare, open, close).len()),
        ({
            let n = i + written_key(name, bare, open, close).len();
            let colon = n + before_colon.len();
            &&& skip_white(s, n) == colon
            &&& forall|f: bool| #[trigger] skip_trivia(s, n, f) == colon
            &&& at(s, colon) == Some(':')
        }),
        skip_white(s, i) == i,
        forall|f: bool| #[trigger] skip_trivia(s, i, f) == i,
{
    let key = written_key(name, bare, open, close);
    let whole = key + before_colon + seq![':'];
    let n = i + key.len();
    let colon = n + before_colon.len();
    lemma_part_stands(s, i, whole, 0, whole.len() as int);
    assert(s[i + (whole.len() - 1)] == whole[whole.len() - 1]);
    assert(s[i + 0] == whole[0]);
    let k = key.len() as int;
    lemma_part_stands(s, i, whole, k, k + before_colon.len());
    assert(whole.subrange(k, k + before_colon.len()) =~= before_colon);
    lemma_white_stands(s, n, before_colon);
    lemma_no_trivia(s, colon);
    assert(skip_trivia(s, n, true) == skip_trivia(s, colon, true));
    assert(skip_trivia(s, n, false) == skip_trivia(s, colon, false));
    assert(s[i + key.len()] == whole[key.len() as int]);
    if bare {
        assert forall|k: int| i <= k < n implies is_plain_char(#[trigger] s[k]) by {
            assert(s[i + (k - i)] == whole[k - i]);
            assert(whole[k - i] == name[k - i]);
        }
        assert(is_plain_char(name[0]));
        assert(is_plain_char(s[i]));
        assert(whole[key.len() as int] == ':' || is_blank(before_colon[0]));
        lemma_name_run(s, i, n);
        lemma_no_trivia(s, i);
    } else {
        assert forall|k: int| i + 1 <= k < n - 1 implies is_plain_char(#[trigger] s[k]) by {
            assert(s[i + (k - i)] == whole[k - i]);
            assert(whole[k - i] == name[k - i - 1]);
        }
        assert(s[i + (key.len() - 1)] == whole[key.len() - 1]);
        lemma_quoted_name(s, i + 1, n - 1, close, escapes);
        lemma_no_trivia(s, i);
    }
}

/// A key and a colon that come at `n` after whitespace are seen.
pub proof fn lemma_member_ahead(
    s: Seq<char>,
    n: int,
    w: Seq<char>,
    name: Seq<char>,
    bare: bool,
    open: char,
    close: char,
    before_colon: Seq<char>,
)
    requires
        member_ahead(s, n, w, name, bare, open, close, before_colon),
    ensures
        member_follows(s, n),
        member_starts(s, n),
        forall|f: bool| #[trigger] skip_trivia(s, n, f) == n + w.len(),
        skip_white(s, n) == n + w.len(),
{
    let key = written_key(name, bare, open, close);
    let whole = w + key + before_colon + seq![':'];
    let m = n + w.len();
    lemma_part_stands(s, n, whole, 0, w.len() as int);
    assert(whole.subrange(0, w.len() as int) =~= w);
    lemma_part_stands(s, n, whole, w.len() as int, whole.len() as int);
    assert(whole.subrange(w.len() as int, whole.len() as int) =~= key + before_colon + seq![':']);
    assert(s[n + 0] == whole[0]);
    assert(is_white(w[0]));
    lemma_white_stands(s, n, w);
    lemma_key_is_name(s, m, name, bare, open, close, before_colon, true);
    lemma_key_is_name(s, m, name, bare, open, close, before_colon, false);
    assert forall|f: bool| #[trigger] skip_trivia(s, n, f) == m by {
        assert(skip_trivia(s, n, f) == skip_trivia(s, m, f));
    }
    assert(skip_trivia(s, n, false) == m);
    assert(skip_trivia(s, m + key.len(), false) == m + key.len() + before_colon.len());
}

/// A string in an object is also closed where the next member follows after whitespace, with
/// the comma left out.
pub proof fn lemma_string_closes_before_member(
    s: Seq<char>,
    i: int,
    open: char,
    close: char,
    lead: Seq<char>,
    u: Seq<char>,
    trail: Seq<char>,
    ticks: Seq<char>,
    w: Seq<char>,
    name: Seq<char>,
    bare: bool,
    key_open: char,
    key_close: char,
    before_colon: Seq<char>,
    strict: bool,
)
    requires
        is_pair(open, close),
        is_kept(lead, u, trail, ticks),
        stands(s, i, string_between(open, lead + u + trail + ticks, close)),
        lacks(lead + u + trail + ticks, close),
        lacks(lead + u + trail + ticks, '\\'),
        lacks(lead + u + trail + ticks, ']'),
        lacks(lead + u + trail + ticks, '}'),
        member_ahead(
            s,
            i + (lead + u + trail + ticks).len() + 2,
            w,
            name,
            bare,
            key_open,
            key_close,
            before_colon,
        ),
    ensures
        value_at(s, i, Context::ObjectValue, strict) == Outcome::Value(
            Json::String(u),
            i + (lead + u + trail + ticks).len() + 2,
        ),
{
    let t = lead + u + trail + ticks;
    lemma_kept(lead, u, trail, ticks);
    lemma_member_ahead(s, i + t.len() + 2, w, name, bare, key_open, key_close, before_colon);
    lemma_string_between(s, i, open, close, t, Context::ObjectValue);
    lemma_no_trivia(s, i);
}

/// The characters that a value can start with.
pub open spec fn opens_any_value(c: char) -> bool {
    ||| is_plain_char(c)
    ||| c == '.' || c == '"' || c == '\'' || c == '\u{201c}'
    ||| c == '{' || c == '[' || c == '('
}

/// A string in an array is also closed where the next value follows after whitespace, with the
/// comma left out.
pub proof fn lemma_string_closes_before_value(
    s: Seq<char>,
    i: int,
    open: char,
    close: char,
    lead: Seq<char>,
    u: Seq<char>,
    trail: Seq<char>,
    ticks: Seq<char>,
    w: Seq<char>,
    strict: bool,
)
    requires
        is_pair(open, close),
        is_kept(lead, u, trail, ticks),
        stands(s, i, string_between(open, lead + u + trail + ticks, close)),
        lacks(lead + u + trail + ticks, close),
        lacks(lead + u + trail + ticks, '\\'),
        lacks(lead + u + trail + ticks, ']'),
        all_white(w),
        w.len() > 0,
        stands(s, i + (lead + u + trail + ticks).len() + 2, w),
        at(s, i + (lead + u + trail + ticks).len() + 2 + w.len()) matches Some(c)
            && opens_any_value(c),
    ensures
        value_at(s, i, Context::Array, strict) == Outcome::Value(
            Json::String(u),
            i + (lead + u + trail + ticks).len() + 2,
        ),
{
    let t = lead + u + trail + ticks;
    let n = i + t.len() + 2;
    lemma_kept(lead, u, trail, ticks);
    lemma_white_stands(s, n, w);
    lemma_part_stands(s, n, w, 0, w.len() as int);
    assert(s[n + 0] == w[0]);
    lemma_no_trivia(s, n + w.len());
    assert(skip_trivia(s, n, false) == skip_trivia(s, n + w.len(), false));
    lemma_string_between(s, i, open, close, t, Context::Array);
    lemma_no_trivia(s, i);
}

/// Outside any value a string goes on to the last quotation mark of the text.
pub proof fn lemma_string_alone_is_read_whole(
    s: Seq<char>,
    i: int,
    open: char,
    close: char,
    lead: Seq<char>,
    u: Seq<char>,
    trail: Seq<char>,
    ticks: Seq<char>,
    w: Seq<char>,
    context: Context,
    strict: bool,
)
    requires
        context == Context::Start || context == Context::Top,
        is_pair(open, close),
        is_kept(lead, u, trail, ticks),
        stands(s, i, string_between(open, lead + u + trail + ticks, close) + w),
        i + (lead + u + trail + ticks).len() + 2 + w.len() == s.len(),
        all_white(w),
        lacks(lead + u + trail + ticks, '#'),
        lacks(lead + u + trail + ticks, '/'),
        lacks(lead + u + trail + ticks, '\\'),
    ensures
        value_at(s, i, context, strict) == Outcome::Value(
            Json::String(u),
            i + (lead + u + trail + ticks).len() + 2,
        ),
{
    let t = lead + u + trail + ticks;
    let text = string_between(open, t, close);
    let n = i + t.len() + 2;
    lemma_kept(lead, u, trail, ticks);
    lemma_part_stands(s, i, text + w, 0, text.len() as int);
    assert((text + w).subrange(0, text.len() as int) =~= text);
    lemma_part_stands(s, i, text + w, text.len() as int, (text + w).len() as int);
    assert((text + w).subrange(text.len() as int, (text + w).len() as int) =~= w);
    lemma_white_stands(s, n, w);
    lemma_no_trivia(s, n + w.len());
    assert(skip_trivia(s, n, false) == skip_trivia(s, n + w.len(), false));
    lemma_part_stands(s, i, text, 0, text.len() as int);
    assert(s[i + (text.len() - 1)] == text[text.len() - 1]);
    assert forall|k: int| 0 <= k < t.len() implies #[trigger] t[k] != '\\' && (t[k] == close
        ==> !string_can_close(s, i + k + 2, context)) && (t[k] != close ==> !close_is_missing(
        t[k],
        context,
    )) by {
        assert forall|j: int| i + k + 2 <= j < i + text.len() - 1 implies #[trigger] s[j] != '#'
            && s[j] != '/' by {
            assert(s[i + (j - i)] == text[j - i]);
            assert(text[j - i] == t[j - i - 1]);
        }
        lemma_rest_is_significant(s, i + k + 2, i + text.len() - 1);
    }
    lemma_string_between(s, i, open, close, t, context);
    lemma_no_trivia(s, i);
}

/// Where a character follows that is neither whitespace nor part of a comment, something is
/// left.
proof fn lemma_rest_is_significant(s: Seq<char>, i: int, n: int)
    requires
        0 <= i <= n < s.len(),
        forall|k: int| i <= k < n ==> #[trigger] s[k] != '#' && s[k] != '/',
        !is_white(s[n]),
        s[n] != '#',
        s[n] != '/',
    ensures
        at(s, skip_trivia(s, i, false)) is Some,
    decreases n - i,
{
    if i < n && is_white(s[i]) {
        lemma_rest_is_significant(s, i + 1, n);
        assert(skip_white(s, i) == skip_white(s, i + 1));
        assert(skip_trivia(s, i, false) == skip_trivia(s, i + 1, false));
    } else {
        lemma_no_trivia(s, i);
    }
}

/// A key in quotation marks is read as it stands between them, whatever name it is, if it holds
/// no colon, closing brace or line break.
pub proof fn lemma_quoted_key_is_read_whole(
    s: Seq<char>,
    i: int,
    open: char,
    close: char,
    lead: Seq<char>,
    u: Seq<char>,
    trail: Seq<char>,
    ticks: Seq<char>,
    w: Seq<char>,
)
    requires
        is_pair(open, close),
        is_kept(lead, u, trail, ticks),
        stands(s, i, string_between(open, lead + u + trail + ticks, close)),
        lacks(lead + u + trail + ticks, close),
        lacks(lead + u + trail + ticks, '\\'),
        lacks(lead + u + trail + ticks, ':'),
        lacks(lead + u + trail + ticks, '}'),
        lacks(lead + u + trail + ticks, '\n'),
        lacks(lead + u + trail + ticks, '\r'),
        all_white(w),
        stands(s, i + (lead + u + trail + ticks).len() + 2, w),
        at(s, i + (lead + u + trail + ticks).len() + 2 + w.len()) matches Some(c) && (c == ':' || c
            == ',' || c == '}'),
    ensures
        object_key(s, i) == (u, i + (lead + u + trail + ticks).len() + 2),
{
    let t = lead + u + trail + ticks;
    let n = i + t.len() + 2;
    lemma_kept(lead, u, trail, ticks);
    lemma_white_stands(s, n, w);
    lemma_no_trivia(s, n + w.len());
    assert(skip_trivia(s, n, false) == skip_trivia(s, n + w.len(), false));
    lemma_string_between(s, i, open, close, t, Context::ObjectKey);
    lemma_no_trivia(s, i);
}

/// Whether a character right after a quotation mark shows that it closes nothing: it neither
/// separates nor closes, is no whitespace and starts no comment.
pub open spec fn goes_on_with(c: char) -> bool {
    !is_white(c) && c != '#' && c != '/' && c != ',' && c != '}' && c != ']'
}

/// A quotation mark inside a string does not close it if what follows right after it neither
/// separates nor closes.
pub proof fn lemma_inner_quote_is_kept(
    s: Seq<char>,
    i: int,
    open: char,
    close: char,
    lead: Seq<char>,
    u: Seq<char>,
    trail: Seq<char>,
    ticks: Seq<char>,
    w: Seq<char>,
    strict: bool,
)
    requires
        is_pair(open, close),
        is_kept(lead, u, trail, ticks),
        stands(s, i, string_between(open, lead + u + trail + ticks, close)),
        ({
            let t = lead + u + trail + ticks;
            forall|k: int|
                0 <= k < t.len() && #[trigger] t[k] == close ==> k + 1 < t.len() && goes_on_with(
                    t[k + 1],
                )
        }),
        lacks(lead + u + trail + ticks, '\\'),
        lacks(lead + u + trail + ticks, ']'),
        value_ends(s, i + (lead + u + trail + ticks).len() + 2, w),
    ensures
        lacks(lead + u + trail + ticks, '}') ==> value_at(s, i, Context::ObjectValue, strict)
            == Outcome::Value(Json::String(u), i + (lead + u + trail + ticks).len() + 2),
        value_at(s, i, Context::Array, strict) == Outcome::Value(
            Json::String(u),
            i + (lead + u + trail + ticks).len() + 2,
        ),
{
    let t = lead + u + trail + ticks;
    let text = string_between(open, t, close);
    lemma_kept(lead, u, trail, ticks);
    lemma_value_ends(s, i + t.len() + 2, w);
    lemma_part_stands(s, i, text, 0, text.len() as int);
    assert forall|k: int| 0 <= k < t.len() && #[trigger] t[k] == close implies !string_can_close(
        s,
        i + k + 2,
        Context::Array,
    ) && !string_can_close(s, i + k + 2, Context::ObjectValue) by {
        assert(s[i + (k + 2)] == text[k + 2]);
        assert(text[k + 2] == t[k + 1]);
        assert(goes_on_with(t[k + 1]));
        lemma_no_trivia(s, i + k + 2);
    }
    lemma_string_between(s, i, open, close, t, Context::Array);
    if lacks(t, '}') {
        lemma_string_between(s, i, open, close, t, Context::ObjectValue);
    }
    lemma_no_trivia(s, i);
}

/// A quotation mark inside a key does not close it if neither a colon nor what ends a key follows.
pub proof fn lemma_inner_quote_of_key_is_kept(
    s: Seq<char>,
    i: int,
    open: char,
    close: char,
    lead: Seq<char>,
    u: Seq<char>,
    trail: Seq<char>,
    ticks: Seq<char>,
    w: Seq<char>,
)
    requires
        is_pair(open, close),
        is_kept(lead, u, trail, ticks),
        stands(s, i, string_between(open, lead + u + trail + ticks, close)),
        ({
            let t = lead + u + trail + ticks;
            forall|k: int|
                0 <= k < t.len() && #[trigger] t[k] == close ==> k + 1 < t.len() && goes_on_with(
                    t[k + 1],
                )
        }),
        lacks(lead + u + trail + ticks, '\\'),
        lacks(lead + u + trail + ticks, ':'),
        lacks(lead + u + trail + ticks, '}'),
        lacks(lead + u + trail + ticks, '\n'),
        lacks(lead + u + trail + ticks, '\r'),
        all_white(w),
        stands(s, i + (lead + u + trail + ticks).len() + 2, w),
        match at(s, i + (lead + u + trail + ticks).len() + 2 + w.len()) {
            Some(c) => c == ':' || c == ',' || c == '}',
            None => true,
        },
    ensures
        object_key(s, i) == (u, i + (lead + u + trail + ticks).len() + 2),
{
    let t = lead + u + trail + ticks;
    let text = string_between(open, t, close);
    let n = i + t.len() + 2;
    lemma_kept(lead, u, trail, ticks);
    lemma_part_stands(s, i, text, 0, text.len() as int);
    assert forall|k: int| 0 <= k < t.len() && #[trigger] t[k] == close implies !string_can_close(
        s,
        i + k + 2,
        Context::ObjectKey,
    ) by {
        assert(s[i + (k + 2)] == text[k + 2]);
        assert(text[k + 2] == t[k + 1]);
        assert(t[k + 1] != ':');
        lemma_no_trivia(s, i + k + 2);
    }
    lemma_white_stands(s, n, w);
    lemma_no_trivia(s, n + w.len());
    assert(skip_trivia(s, n, false) == skip_trivia(s, n + w.len(), false));
    lemma_string_between(s, i, open, close, t, Context::ObjectKey);
    lemma_no_trivia(s, i);
}

/// The end of a name in quotation marks, whatever characters it has.
proof fn lemma_any_quoted_name(s: Seq<char>, i: int, n: int, close: char, escapes: bool)
    requires
        0 <= i <= n < s.len(),
        forall|k: int|
            i <= k < n ==> #[trigger] s[k] != close && s[k] != '\\' && s[k] != '\n' && s[k] != '\r',
        close != '\\',
        s[n] == close,
    ensures
        quoted_name_end(s, i, close, escapes) == Some(n + 1),
    decreases n - i,
{
    if i < n {
        assert(s[i] != close);
        lemma_any_quoted_name(s, i + 1, n, close, escapes);
    }
}

/// A key in quotation marks, whatever characters it has, and a colon after whitespace close the
/// string before them.
pub proof fn lemma_string_closes_before_any_quoted_key(
    s: Seq<char>,
    i: int,
    open: char,
    close: char,
    lead: Seq<char>,
    u: Seq<char>,
    trail: Seq<char>,
    ticks: Seq<char>,
    w: Seq<char>,
    key_open: char,
    key: Seq<char>,
    key_close: char,
    before_colon: Seq<char>,
    strict: bool,
)
    requires
        is_pair(open, close),
        is_kept(lead, u, trail, ticks),
        stands(s, i, string_between(open, lead + u + trail + ticks, close)),
        lacks(lead + u + trail + ticks, close),
        lacks(lead + u + trail + ticks, '\\'),
        lacks(lead + u + trail + ticks, ']'),
        lacks(lead + u + trail + ticks, '}'),
        all_white(w),
        w.len() > 0,
        is_pair(key_open, key_close),
        lacks(key, key_close),
        lacks(key, '\\'),
        lacks(key, '\n'),
        lacks(key, '\r'),
        all_white(before_colon),
        stands(
            s,
            i + (lead + u + trail + ticks).len() + 2,
            w + string_between(key_open, key, key_close) + before_colon + seq![':'],
        ),
    ensures
        value_at(s, i, Context::ObjectValue, strict) == Outcome::Value(
            Json::String(u),
            i + (lead + u + trail + ticks).len() + 2,
        ),
{
    let t = lead + u + trail + ticks;
    let n = i + t.len() + 2;
    let text = string_between(key_open, key, key_close);
    let whole = w + text + before_colon + seq![':'];
    let a = w.len() as int;
    let b = a + text.len();
    let c = b + before_colon.len();
    lemma_part_stands(s, n, whole, 0, whole.len() as int);
    lemma_part_stands(s, n, whole, 0, a);
    assert(whole.subrange(0, a) =~= w);
    assert(s[n + 0] == whole[0]);
    assert(is_white(w[0]));
    lemma_white_stands(s, n, w);
    assert(s[n + a] == whole[a]);
    lemma_no_trivia(s, n + a);
    assert(skip_trivia(s, n, false) == skip_trivia(s, n + a, false));
    assert(s[n + (b - 1)] == whole[b - 1]);
    assert forall|k: int| n + a + 1 <= k < n + b - 1 implies #[trigger] s[k] != key_close && s[k]
        != '\\' && s[k] != '\n' && s[k] != '\r' by {
        assert(s[n + (k - n)] == whole[k - n]);
        assert(whole[k - n] == key[k - n - a - 1]);
    }
    lemma_any_quoted_name(s, n + a + 1, n + b - 1, key_close, true);
    lemma_part_stands(s, n, whole, b, c);
    assert(whole.subrange(b, c) =~= before_colon);
    lemma_white_stands(s, n + b, before_colon);
    assert(s[n + c] == whole[c]);
    lemma_no_trivia(s, n + c);
    assert(skip_trivia(s, n + b, false) == skip_trivia(s, n + c, false));
    assert(member_follows(s, n));
    lemma_kept(lead, u, trail, ticks);
    lemma_string_between(s, i, open, close, t, Context::ObjectValue);
    lemma_no_trivia(s, i);
}

/// Words after a quotation mark that no colon follows are part of the string in an object, and
/// the quotation mark too.
pub proof fn lemma_quote_before_words_is_kept(
    s: Seq<char>,
    i: int,
    open: char,
    close: char,
    first: Seq<char>,
    w: Seq<char>,
    name: Seq<char>,
    v: Seq<char>,
    d: char,
    last: Seq<char>,
    end: Seq<char>,
    strict: bool,
)
    requires
        is_pair(open, close),
        all_blank(w),
        w.len() > 0,
        is_plain_name(name),
        all_blank(v),
        d <= '\u{7f}',
        goes_on_with(d),
        d != ':',
        d != close,
        v.len() == 0 ==> !is_plain_char(d),
        ({
            let t = first + seq![close] + w + name + v + seq![d] + last;
            &&& lacks(t, '\\')
            &&& lacks(t, '}')
            &&& lacks(t, ']')
            &&& is_kept(Seq::empty(), t, Seq::empty(), Seq::empty())
            &&& stands(s, i, string_between(open, t, close))
            &&& value_ends(s, i + t.len() + 2, end)
        }),
        lacks(first, close),
        lacks(last, close),
    ensures
        ({
            let t = first + seq![close] + w + name + v + seq![d] + last;
            value_at(s, i, Context::ObjectValue, strict) == Outcome::Value(
                Json::String(t),
                i + t.len() + 2,
            )
        }),
{
    let t = first + seq![close] + w + name + v + seq![d] + last;
    let text = string_between(open, t, close);
    let none = Seq::<char>::empty();
    let f = first.len() as int;
    let after = i + f + 2;
    let at_name = after + w.len();
    let at_v = at_name + name.len();
    let at_d = at_v + v.len();
    lemma_part_stands(s, i, text, 0, text.len() as int);
    assert forall|k: int| 0 <= k < t.len() implies #[trigger] s[i + 1 + k] == t[k] by {
        assert(s[i + (k + 1)] == text[k + 1]);
    }
    assert forall|k: int| after <= k < at_name implies is_white(#[trigger] s[k]) by {
        assert(s[i + 1 + (k - i - 1)] == t[k - i - 1]);
        assert(t[k - i - 1] == w[k - after]);
        assert(is_blank(w[k - after]));
    }
    assert forall|k: int| at_name <= k < at_v implies is_plain_char(#[trigger] s[k]) by {
        assert(s[i + 1 + (k - i - 1)] == t[k - i - 1]);
        assert(t[k - i - 1] == name[k - at_name]);
    }
    assert forall|k: int| at_v <= k < at_d implies is_white(#[trigger] s[k]) && is_blank(s[k]) by {
        assert(s[i + 1 + (k - i - 1)] == t[k - i - 1]);
        assert(t[k - i - 1] == v[k - at_v]);
        assert(is_blank(v[k - at_v]));
    }
    assert(s[i + 1 + (at_d - i - 1)] == t[at_d - i - 1]);
    assert(s[at_d] == d);
    lemma_white_run(s, after, at_name);
    lemma_white_run(s, at_v, at_d);
    assert(is_plain_char(s[at_name]));
    lemma_no_trivia(s, at_name);
    lemma_no_trivia(s, at_d);
    assert(skip_trivia(s, after, false) == skip_trivia(s, at_name, false));
    assert(skip_trivia(s, at_v, false) == skip_trivia(s, at_d, false));
    lemma_name_run_to(s, at_name, at_v);
    assert(!member_follows(s, after));
    assert(!string_can_close(s, after, Context::ObjectValue));
    assert forall|k: int| 0 <= k < t.len() && #[trigger] t[k] == close implies !string_can_close(
        s,
        i + k + 2,
        Context::ObjectValue,
    ) by {
        if k < f {
            assert(t[k] == first[k]);
        } else if k > f {
            if k - f - 1 < w.len() {
                assert(t[k] == w[k - f - 1]);
                assert(is_blank(w[k - f - 1]));
            } else if k < at_v - i - 1 {
                assert(t[k] == name[k - f - 1 - w.len()]);
                assert(is_plain_char(t[k]));
            } else if k < at_d - i - 1 {
                assert(t[k] == v[k - (at_v - i - 1)]);
                assert(is_blank(t[k]));
            } else if k > at_d - i - 1 {
                assert(t[k] == last[k - (at_d - i)]);
            }
        }
    }
    assert(none + t + none + none =~= t);
    lemma_kept(none, t, none, none);
    lemma_value_ends(s, i + t.len() + 2, end);
    lemma_string_between(s, i, open, close, t, Context::ObjectValue);
    lemma_no_trivia(s, i);
}

proof fn lemma_name_run_to(s: Seq<char>, i: int, n: int)
    requires
        0 <= i <= n < s.len(),
        forall|k: int| i <= k < n ==> is_plain_char(#[trigger] s[k]),
        s[n] <= '\u{7f}',
        !is_plain_char(s[n]),
    ensures
        name_run(s, i) == n,
    decreases n - i,
{
    if i < n {
        assert(is_plain_char(s[i]));
        lemma_name_run_to(s, i + 1, n);
    }
}

/// The same of a key that holds an escape: what is escaped does not end the key.
pub proof fn lemma_string_closes_before_key_with_escape(
    s: Seq<char>,
    i: int,
    open: char,
    close: char,
    t: Seq<char>,
    w: Seq<char>,
    key_open: char,
    key: Seq<char>,
    c: char,
    rest: Seq<char>,
    key_close: char,
    before_colon: Seq<char>,
    strict: bool,
)
    requires
        is_pair(open, close),
        is_kept(Seq::empty(), t, Seq::empty(), Seq::empty()),
        stands(s, i, string_between(open, t, close)),
        lacks(t, close),
        lacks(t, '\\'),
        lacks(t, ']'),
        lacks(t, '}'),
        all_white(w),
        w.len() > 0,
        is_pair(key_open, key_close),
        lacks(key, key_close) && lacks(key, '\\') && lacks(key, '\n') && lacks(key, '\r'),
        lacks(rest, key_close) && lacks(rest, '\\') && lacks(rest, '\n') && lacks(rest, '\r'),
        all_white(before_colon),
        stands(
            s,
            i + t.len() + 2,
            w + string_between(key_open, key + seq!['\\', c] + rest, key_close) + before_colon
                + seq![':'],
        ),
    ensures
        value_at(s, i, Context::ObjectValue, strict) == Outcome::Value(
            Json::String(t),
            i + t.len() + 2,
        ),
{
    let none = Seq::<char>::empty();
    let n = i + t.len() + 2;
    let body = key + seq!['\\', c] + rest;
    let text = string_between(key_open, body, key_close);
    let whole = w + text + before_colon + seq![':'];
    let a = w.len() as int;
    let e = a + 1 + key.len();
    let b = a + text.len();
    let d = b + before_colon.len();
    lemma_part_stands(s, n, whole, 0, whole.len() as int);
    lemma_part_stands(s, n, whole, 0, a);
    assert(whole.subrange(0, a) =~= w);
    assert(s[n + 0] == whole[0]);
    assert(is_white(w[0]));
    lemma_white_stands(s, n, w);
    assert(s[n + a] == whole[a]);
    lemma_no_trivia(s, n + a);
    assert(skip_trivia(s, n, false) == skip_trivia(s, n + a, false));
    assert(s[n + (b - 1)] == whole[b - 1]);
    assert(s[n + e] == whole[e]);
    assert forall|k: int| n + a + 1 <= k < n + e implies #[trigger] s[k] != key_close && s[k]
        != '\\' && s[k] != '\n' && s[k] != '\r' by {
        assert(s[n + (k - n)] == whole[k - n]);
        assert(whole[k - n] == key[k - n - a - 1]);
    }
    assert forall|k: int| n + e + 2 <= k < n + b - 1 implies #[trigger] s[k] != key_close && s[k]
        != '\\' && s[k] != '\n' && s[k] != '\r' by {
        assert(s[n + (k - n)] == whole[k - n]);
        assert(whole[k - n] == rest[k - n - e - 2]);
    }
    lemma_any_quoted_name(s, n + e + 2, n + b - 1, key_close, true);
    lemma_name_goes_on(s, n + a + 1, n + e, key_close);
    lemma_part_stands(s, n, whole, b, d);
    assert(whole.subrange(b, d) =~= before_colon);
    lemma_white_stands(s, n + b, before_colon);
    assert(s[n + d] == whole[d]);
    lemma_no_trivia(s, n + d);
    assert(skip_trivia(s, n + b, false) == skip_trivia(s, n + d, false));
    assert(member_follows(s, n));
    assert(none + t + none + none =~= t);
    lemma_kept(none, t, none, none);
    lemma_string_between(s, i, open, close, t, Context::ObjectValue);
    lemma_no_trivia(s, i);
}

/// A name goes on behind an escape.
proof fn lemma_name_goes_on(s: Seq<char>, i: int, n: int, close: char)
    requires
        0 <= i <= n,
        n + 2 <= s.len(),
        forall|k: int|
            i <= k < n ==> #[trigger] s[k] != close && s[k] != '\\' && s[k] != '\n' && s[k] != '\r',
        s[n] == '\\',
    ensures
        quoted_name_end(s, i, close, true) == quoted_name_end(s, n + 2, close, true),
    decreases n - i,
{
    if i < n {
        assert(s[i] != close);
        lemma_name_goes_on(s, i + 1, n, close);
    }
}

} // verus!
