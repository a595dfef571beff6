//! What stands around a value is passed over: prose, punctuation and code fences.

use crate::chars::{closing_quote, is_letter, is_quote, is_white, starts_number};
use crate::gaps::{
    all_white, gap_is_proper, gap_text, lemma_gap_before_value, lemma_no_trivia, lemma_white_stands,
    Piece,
};
use crate::grammar::{
    all_found, found_added, lemma_array_at, lemma_bare_token, lemma_object_at, lemma_value_at,
    outcome_end, outside_context, repaired, value_at, word, Outcome,
};
use crate::quoting::{all_blank, is_blank};
use crate::scan::{
    at, fence_end, lemma_fence_end, lemma_skip_trivia, letter_run, skip_trivia, Context,
};
use crate::shift::{lemma_found_depends_on_what_follows, lemma_value_depends_on_what_follows};
use crate::standard::{lemma_part_stands, stands};
use crate::token::{bare_rest, lemma_string_rest, Stops};
use crate::value::Json;
use vstd::prelude::*;

verus! {

/// Outside any value, reading passes something.
proof fn lemma_outside_progress(s: Seq<char>, i: int, context: Context, strict: bool)
    requires
        0 <= i < s.len(),
        context.outside(),
    ensures
        outcome_end(value_at(s, i, context, strict)) matches Some(next) ==> i < next,
    decreases s.len() - i,
{
    let j = skip_trivia(s, i, true);
    lemma_skip_trivia(s, i, true);
    if let Some(c) = at(s, j) {
        if c == '{' {
            lemma_object_at(s, j + 1, strict, Seq::empty());
        } else if c == '[' {
            lemma_array_at(s, j + 1, ']', strict, Seq::empty());
        } else if c == '(' {
            lemma_array_at(s, j + 1, ')', strict, Seq::empty());
            lemma_value_at(s, j + 1, context, strict);
        } else if c == '\\' && (at(s, j + 1) matches Some(q) && is_quote(q)) {
            lemma_string_rest(s, j + 2, closing_quote(s[j + 1]), context, Seq::empty());
        } else if is_quote(c) {
            lemma_string_rest(s, j + 1, closing_quote(c), context, Seq::empty());
        } else if starts_number(c) {
            lemma_bare_token(s, j, Stops::Value, context);
        } else if c == '_' || is_letter(c) {
            lemma_bare_token(s, j, Stops::Prose, context);
            if let Outcome::Nothing(next) = word(s, j, context) {
                lemma_value_at(s, next, context, strict);
            }
            lemma_letter_is_no_stop(c);
        } else if c == '`' {
            lemma_fence_end(s, j);
            lemma_value_at(s, fence_end(s, j), context, strict);
        } else {
            lemma_value_at(s, j + 1, context, strict);
        }
    }
}

proof fn lemma_letter_is_no_stop(c: char)
    requires
        c == '_' || is_letter(c),
    ensures
        !Stops::Prose.has(c),
        c != '/',
        c != '#',
{
}

/// A beginning that a value is read past leaves the values of the rest as they are.
proof fn lemma_passed_over(p: Seq<char>, s: Seq<char>, strict: bool, values: Seq<Json>)
    requires
        p.len() > 0,
        s.len() > 0,
        value_at(p + s, 0, outside_context(values), strict) == value_at(
            p + s,
            p.len() as int,
            outside_context(values),
            strict,
        ),
    ensures
        all_found(p + s, 0, strict, values) == all_found(s, 0, strict, values),
{
    let context = outside_context(values);
    let d = p.len() as int;
    lemma_value_depends_on_what_follows(p, s, 0, context, strict);
    lemma_outside_progress(s, 0, context, strict);
    lemma_value_at(s, 0, context, strict);
    let found = value_at(s, 0, context, strict);
    match found {
        Outcome::Value(value, next) => {
            let grown = if value == Json::String(Seq::empty()) {
                values
            } else {
                found_added(values, value, strict)
            };
            lemma_found_depends_on_what_follows(p, s, next, strict, grown);
        },
        Outcome::Nothing(next) => {
            lemma_found_depends_on_what_follows(p, s, next, strict, values);
        },
        Outcome::Rejected(_) => {},
    }
}

/// Whether a text is prose: it starts with a letter or an underline and holds nothing that opens
/// a container, a code fence or a comment.
pub open spec fn is_prose(p: Seq<char>) -> bool {
    &&& p.len() > 0
    &&& p[0] == '_' || (is_letter(p[0]) && !is_white(p[0]) && p[0] != '\u{201c}')
    &&& forall|k: int|
        0 <= k < p.len() ==> #[trigger] p[k] != '{' && p[k] != '[' && p[k] != '(' && p[k] != '`'
            && p[k] != '#' && p[k] != '/'
}

proof fn lemma_prose_run(s: Seq<char>, i: int, n: int, context: Context, out: Seq<char>)
    requires
        0 <= i <= n < s.len(),
        context.outside(),
        forall|k: int|
            i <= k < n ==> #[trigger] s[k] != '{' && s[k] != '[' && s[k] != '(' && s[k] != '`'
                && s[k] != '#' && s[k] != '/',
        s[n] == '{' || s[n] == '[' || s[n] == '(' || s[n] == '`',
    ensures
        bare_rest(s, i, Stops::Prose, context, out) == (out + s.subrange(i, n), n),
    decreases n - i,
{
    if i < n {
        lemma_prose_run(s, i + 1, n, context, out.push(s[i]));
        assert(out.push(s[i]) + s.subrange(i + 1, n) =~= out + s.subrange(i, n));
    } else {
        assert(out + s.subrange(i, n) =~= out);
    }
}

/// Prose before a container, a parenthesis or a code fence is passed over.
pub proof fn lemma_prose_is_passed_over(
    p: Seq<char>,
    s: Seq<char>,
    strict: bool,
    values: Seq<Json>,
)
    requires
        is_prose(p),
        s.len() > 0,
        s[0] == '{' || s[0] == '[' || s[0] == '(' || s[0] == '`',
    ensures
        all_found(p + s, 0, strict, values) == all_found(s, 0, strict, values),
        repaired(p + s, strict) == repaired(s, strict),
{
    assert forall|vs: Seq<Json>| #[trigger]
        all_found(p + s, 0, strict, vs) == all_found(s, 0, strict, vs) by {
        let t = p + s;
        let n = p.len() as int;
        let context = outside_context(vs);
        assert forall|k: int| 0 <= k < n implies #[trigger] t[k] != '{' && t[k] != '[' && t[k]
            != '(' && t[k] != '`' && t[k] != '#' && t[k] != '/' by {
            assert(t[k] == p[k]);
        }
        assert(t[n] == s[0]);
        assert(t[0] == p[0]);
        lemma_prose_run(t, 0, n, context, Seq::empty());
        lemma_letter_value(t, n, context, strict);
        lemma_passed_over(p, s, strict, vs);
    }
}

/// The letter at the start of a text starts the prose that is read there.
proof fn lemma_letter_value(t: Seq<char>, n: int, context: Context, strict: bool)
    requires
        context.outside(),
        0 < n < t.len(),
        t[0] == '_' || (is_letter(t[0]) && !is_white(t[0]) && t[0] != '\u{201c}'),
        bare_rest(t, 0, Stops::Prose, context, Seq::empty()).1 == n,
    ensures
        value_at(t, 0, context, strict) == value_at(t, n, context, strict),
{
    lemma_letter_is_no_stop(t[0]);
    lemma_no_trivia(t, 0);
}

/// Punctuation that opens nothing.
pub open spec fn is_punctuation(c: char) -> bool {
    ||| c == '}' || c == ']' || c == ')'
    ||| c == ',' || c == ':' || c == ';' || c == '!' || c == '?' || c == '*' || c == '=' || c == '|'
    ||| c == '<' || c == '>' || c == '+' || c == '~' || c == '&' || c == '%' || c == '$' || c == '@'
    ||| c == '^'
}

/// Punctuation outside any value is passed over, and so is a parenthesis that a letter follows.
pub proof fn lemma_punctuation_is_passed_over(
    c: char,
    s: Seq<char>,
    strict: bool,
    values: Seq<Json>,
)
    requires
        s.len() > 0,
        is_punctuation(c) || (c == '(' && ('a' <= s[0] <= 'z' || 'A' <= s[0] <= 'Z')),
    ensures
        all_found(seq![c] + s, 0, strict, values) == all_found(s, 0, strict, values),
        repaired(seq![c] + s, strict) == repaired(s, strict),
{
    assert forall|vs: Seq<Json>| #[trigger]
        all_found(seq![c] + s, 0, strict, vs) == all_found(s, 0, strict, vs) by {
        let t = seq![c] + s;
        let context = outside_context(vs);
        assert(t[0] == c && t[1] == s[0]);
        lemma_no_trivia(t, 0);
        if c == '(' {
            lemma_no_trivia(t, 1);
        }
        assert(value_at(t, 0, context, strict) == value_at(t, 1, context, strict));
        lemma_passed_over(seq![c], s, strict, vs);
    }
}

/// Whitespace and comments before a value outside any other are passed over.
pub proof fn lemma_gap_is_passed_over(
    pieces: Seq<Piece>,
    s: Seq<char>,
    strict: bool,
    values: Seq<Json>,
)
    requires
        gap_is_proper(pieces),
        s.len() > 0,
    ensures
        all_found(gap_text(pieces) + s, 0, strict, values) == all_found(s, 0, strict, values),
        repaired(gap_text(pieces) + s, strict) == repaired(s, strict),
{
    let p = gap_text(pieces);
    assert forall|vs: Seq<Json>| #[trigger]
        all_found(p + s, 0, strict, vs) == all_found(s, 0, strict, vs) by {
        assert((p + s).subrange(0, p.len() as int) =~= p);
        lemma_gap_before_value(p + s, 0, pieces, outside_context(vs), strict);
        if p.len() > 0 {
            lemma_passed_over(p, s, strict, vs);
        } else {
            assert(p + s =~= s);
        }
    }
}

/// Whether a text is the marker of a code fence: backquotes and the name of a language.
pub open spec fn is_fence(ticks: Seq<char>, language: Seq<char>) -> bool {
    &&& ticks.len() > 0
    &&& forall|k: int| 0 <= k < ticks.len() ==> #[trigger] ticks[k] == '`'
    &&& forall|k: int| 0 <= k < language.len() ==> is_letter(#[trigger] language[k])
}

proof fn lemma_fence(s: Seq<char>, i: int, ticks: Seq<char>, language: Seq<char>)
    requires
        is_fence(ticks, language),
        stands(s, i, ticks + language),
        match at(s, i + ticks.len() + language.len()) {
            Some(c) => !is_letter(c) && c != '`',
            None => true,
        },
    ensures
        fence_end(s, i) == i + ticks.len() + language.len(),
        at(s, i) == Some('`'),
{
    let t = ticks + language;
    let m = i + ticks.len();
    let n = m + language.len();
    lemma_part_stands(s, i, t, 0, t.len() as int);
    assert(s[i + 0] == t[0]);
    assert forall|k: int| i <= k < m implies #[trigger] s[k] == '`' by {
        assert(s[i + (k - i)] == t[k - i]);
    }
    assert forall|k: int| m <= k < n implies is_letter(#[trigger] s[k]) by {
        assert(s[i + (k - i)] == t[k - i]);
        assert(t[k - i] == language[k - m]);
    }
    lemma_ticks_run(s, i, m, n);
}

proof fn lemma_ticks_run(s: Seq<char>, i: int, m: int, n: int)
    requires
        0 <= i <= m <= n <= s.len(),
        forall|k: int| i <= k < m ==> #[trigger] s[k] == '`',
        forall|k: int| m <= k < n ==> is_letter(#[trigger] s[k]),
        match at(s, n) {
            Some(c) => !is_letter(c) && c != '`',
            None => true,
        },
    ensures
        fence_end(s, i) == n,
    decreases n - i,
{
    if i < m {
        lemma_ticks_run(s, i + 1, m, n);
    } else {
        lemma_letters_to(s, m, n);
        if m < n {
            assert(is_letter(s[m]));
        }
    }
}

proof fn lemma_letters_to(s: Seq<char>, i: int, n: int)
    requires
        0 <= i <= n <= s.len(),
        forall|k: int| i <= k < n ==> is_letter(#[trigger] s[k]),
        match at(s, n) {
            Some(c) => !is_letter(c),
            None => true,
        },
    ensures
        letter_run(s, i) == n,
    decreases n - i,
{
    if i < n {
        lemma_letters_to(s, i + 1, n);
    }
}

/// The marker of a code fence before a value is passed over.
pub proof fn lemma_fence_is_passed_over(
    ticks: Seq<char>,
    language: Seq<char>,
    s: Seq<char>,
    strict: bool,
    values: Seq<Json>,
)
    requires
        is_fence(ticks, language),
        s.len() > 0,
        !is_letter(s[0]),
        s[0] != '`',
    ensures
        all_found(ticks + language + s, 0, strict, values) == all_found(s, 0, strict, values),
        repaired(ticks + language + s, strict) == repaired(s, strict),
{
    let p = ticks + language;
    assert forall|vs: Seq<Json>| #[trigger]
        all_found(p + s, 0, strict, vs) == all_found(s, 0, strict, vs) by {
        let t = p + s;
        assert(t.subrange(0, p.len() as int) =~= p);
        assert(t[p.len() as int] == s[0]);
        lemma_fence(t, 0, ticks, language);
        lemma_no_trivia(t, 0);
        assert(value_at(t, 0, outside_context(vs), strict) == value_at(
            t,
            p.len() as int,
            outside_context(vs),
            strict,
        ));
        lemma_passed_over(p, s, strict, vs);
    }
}

/// After the last value, whitespace and the closing marker of a code fence add nothing.
pub proof fn lemma_closing_fence_adds_nothing(
    s: Seq<char>,
    i: int,
    before: Seq<char>,
    ticks: Seq<char>,
    after: Seq<char>,
    strict: bool,
    values: Seq<Json>,
)
    requires
        all_white(before),
        forall|k: int| 0 <= k < ticks.len() ==> #[trigger] ticks[k] == '`',
        all_blank(after),
        stands(s, i, before + ticks + after),
        i + before.len() + ticks.len() + after.len() == s.len(),
    ensures
        all_found(s, i, strict, values) == Ok::<Seq<Json>, Seq<char>>(values),
{
    let t = before + ticks + after;
    let b = before.len() as int;
    let m = b + ticks.len();
    let context = outside_context(values);
    lemma_part_stands(s, i, t, 0, b);
    assert(t.subrange(0, b) =~= before);
    lemma_part_stands(s, i, t, b, m);
    assert(t.subrange(b, m) =~= ticks);
    lemma_part_stands(s, i, t, m, t.len() as int);
    assert(t.subrange(m, t.len() as int) =~= after);
    assert forall|k: int| 0 <= k < after.len() implies is_white(#[trigger] after[k]) by {
        assert(is_blank(after[k]));
    }
    lemma_white_stands(s, i, before);
    lemma_white_stands(s, i + m, after);
    lemma_no_trivia(s, s.len() as int);
    assert(skip_trivia(s, i, true) == skip_trivia(s, i + b, true));
    assert(skip_trivia(s, i + m, true) == skip_trivia(s, s.len() as int, true));
    if i < s.len() {
        if ticks.len() > 0 {
            let none = Seq::<char>::empty();
            assert(ticks + none =~= ticks);
            if after.len() > 0 {
                lemma_part_stands(s, i + m, after, 0, 1);
                assert(s[i + m + 0] == after[0]);
                assert(is_blank(after[0]));
            }
            lemma_fence(s, i + b, ticks, none);
            lemma_no_trivia(s, i + b);
            assert(value_at(s, i + m, context, strict) == Outcome::Nothing(s.len() as int));
        }
        assert(value_at(s, i, context, strict) == Outcome::Nothing(s.len() as int));
        assert(all_found(s, s.len() as int, strict, values) == Ok::<Seq<Json>, Seq<char>>(values));
    }
}

} // verus!
