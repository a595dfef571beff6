//! More of values without quotation marks: phrases, fractions, words outside any value, and
//! comments after values.

use crate::chars::{is_ascii_digit, is_letter, is_name_char, is_white, starts_number};
use crate::gaps::{
    all_white, gap_is_proper, gap_text, lemma_gap, lemma_no_trivia, piece_is_proper, piece_text,
    Piece,
};
use crate::grammar::{all_found, found_added, repaired, value_at, word, Failure, Outcome};
use crate::number::{
    bare_value, completed, double_text, is_decimal_text, is_float_text, numeric_shape, unwrapped,
    without,
};
use crate::quoting::{
    all_blank, is_blank, is_kept, is_pair, is_plain_name, lacks, lemma_kept, lemma_key_is_name,
    lemma_string_between, lemma_trim_end_run, lemma_trim_start_run, opens_any_value, string_between,
    written_key,
};
use crate::scan::{
    at, comment_starts, member_follows, member_starts, name_run, skip_trivia, skip_white,
    string_can_close, Context,
};
use crate::standard::{lemma_part_stands, stands};
use crate::text::{lowered, trimmed, trimmed_end, Trim};
use crate::token::{bare_ends, bare_rest, bare_token, tidy_bare, Stops};
use crate::value::{Json, Num};
use crate::words::{
    is_numeral, is_token, is_token_char, lemma_digits_to, lemma_numeral, lemma_tidy_with_white,
    lemma_token_chars, lemma_token_is_tidy, lemma_token_run, lemma_token_value,
    lemma_white_token_run, lemma_without_keeps, lemma_without_none, lemma_words, spells_false,
    spells_null, spells_true,
};
use vstd::prelude::*;

verus! {

/// Whether a text is made of one character.
pub open spec fn all_are(t: Seq<char>, c: char) -> bool {
    forall|k: int| 0 <= k < t.len() ==> #[trigger] t[k] == c
}

proof fn lemma_trim_runs(a: Seq<char>, b: Seq<char>, c: Seq<char>, what: Trim)
    requires
        forall|k: int| 0 <= k < a.len() ==> what.spec_matches(#[trigger] a[k]),
        forall|k: int| 0 <= k < c.len() ==> what.spec_matches(#[trigger] c[k]),
        b.len() > 0,
        !what.spec_matches(b[0]),
        !what.spec_matches(b.last()),
    ensures
        trimmed(a + b + c, what) == b,
{
    assert(a + b + c =~= a + (b + c));
    lemma_trim_start_run(a, b + c, what);
    assert((b + c)[0] == b[0]);
    lemma_trim_end_run(b, c, what);
}

/// Backquotes around a token and points after it do not count.
pub proof fn lemma_points_fall_off(
    b: Seq<char>,
    lead: Seq<char>,
    points: Seq<char>,
    trail: Seq<char>,
)
    requires
        is_token(b),
        all_are(lead, '`'),
        all_are(points, '.'),
        all_are(trail, '`'),
    ensures
        bare_value(lead + b + points + trail) == bare_value(b),
{
    let t = lead + b + points + trail;
    let none = Seq::<char>::empty();
    let body = b + points;
    lemma_token_is_tidy(b);
    assert(is_token_char(b[0]) && is_token_char(b[b.len() - 1]));
    assert(body[0] == b[0]);
    if points.len() > 0 {
        assert(body.last() == points[points.len() - 1]);
    } else {
        assert(body.last() == b.last());
    }
    assert(t =~= lead + body + trail);
    assert(t.last() == if trail.len() > 0 {
        trail[trail.len() - 1]
    } else {
        body.last()
    });
    assert(t[0] == if lead.len() > 0 {
        lead[0]
    } else {
        body[0]
    });
    assert(none + t + none =~= t);
    lemma_trim_runs(none, t, none, Trim::White);
    lemma_trim_runs(lead, body, trail, Trim::Only('`'));
    lemma_trim_end_run(b, points, Trim::Only('.'));
    assert(trimmed_end(b, Trim::Only('.')) == b);
    assert(unwrapped(t) == b);
}

/// Points alone are no value.
pub proof fn lemma_ellipsis(points: Seq<char>)
    requires
        all_are(points, '.'),
        points.len() > 0,
    ensures
        bare_value(points) == Json::String(Seq::empty()),
{
    let none = Seq::<char>::empty();
    assert(points[0] == '.' && points[points.len() - 1] == '.');
    assert(none + points + none =~= points);
    lemma_trim_runs(none, points, none, Trim::White);
    lemma_trim_runs(none, points, none, Trim::Only('`'));
    assert(none + points =~= points);
    lemma_trim_end_run(none, points, Trim::Only('.'));
    assert(unwrapped(points) == none);
    assert(lowered(none) =~= none);
    assert(without(none, '_') =~= none);
    lemma_words(none);
}

/// Digits, an exponent mark and digits are the double that is nearest to them.
pub proof fn lemma_exponents(a: Seq<char>, mark: char, c: Seq<char>, double: Seq<char>)
    requires
        is_numeral(a),
        mark == 'e' || mark == 'E',
        is_numeral(c),
        c[0] != '-',
        double_text(a + seq![mark] + c) == Some(double),
        is_float_text(double),
    ensures
        bare_value(a + seq![mark] + c) == Json::Number(Num::Float(double)),
{
    let b = a + seq![mark] + c;
    let p = a.len() as int;
    lemma_numeral(a);
    assert(b[p] == mark);
    assert(is_ascii_digit(c[c.len() - 1]));
    assert(b.last() == c[c.len() - 1]);
    assert forall|k: int| 0 <= k < b.len() implies is_ascii_digit(#[trigger] b[k]) || k == p || (k
        == 0 && b[0] == '-') by {
        if k < p {
            assert(b[k] == a[k]);
        } else if k > p {
            assert(b[k] == c[k - p - 1]);
        }
    }
    assert(b[0] == a[0]);
    assert(is_token(b));
    lemma_token_is_tidy(b);
    lemma_words(b);
    assert(!spells_true(b) && !spells_false(b) && !spells_null(b)) by {
        assert(is_ascii_digit(b[b.len() - 1]));
    }
    lemma_without_none(b, '_');
    assert(completed(b) == b);
    assert(b.contains(mark));
    let start = if b[0] == '-' {
        1int
    } else {
        0
    };
    lemma_digits_to(b, start, p);
    lemma_digits_to(b, p + 1, b.len() as int);
    assert(is_decimal_text(b));
}

/// A fraction is its own text.
pub proof fn lemma_fractions_are_text(a: Seq<char>, c: Seq<char>)
    requires
        is_numeral(a),
        is_numeral(c),
    ensures
        bare_value(a + seq!['/'] + c) == Json::String(a + seq!['/'] + c),
{
    let b = a + seq!['/'] + c;
    let none = Seq::<char>::empty();
    let p = a.len() as int;
    assert(b[p] == '/');
    assert(b[0] == a[0]);
    assert(b.last() == c[c.len() - 1]);
    assert(is_ascii_digit(c[c.len() - 1]) || c[c.len() - 1] == '-');
    assert(none + b + none =~= b);
    lemma_trim_runs(none, b, none, Trim::White);
    lemma_trim_runs(none, b, none, Trim::Only('`'));
    assert(trimmed_end(b, Trim::Only('.')) == b);
    assert(unwrapped(b) == b);
    lemma_words(b);
    assert(!spells_true(b) && !spells_false(b) && !spells_null(b)) by {
        assert(b[p] == '/');
    }
    assert forall|k: int| 0 <= k < b.len() implies #[trigger] b[k] != '_' by {
        if k < p {
            assert(b[k] == a[k]);
        } else if k > p {
            assert(b[k] == c[k - p - 1]);
        }
    }
    lemma_without_none(b, '_');
    assert(!numeric_shape(b));
}

/// Words with whitespace between them: only token characters and blanks, with token characters
/// at both ends.
pub open spec fn is_phrase(p: Seq<char>) -> bool {
    &&& p.len() > 0
    &&& forall|k: int| 0 <= k < p.len() ==> is_token_char(#[trigger] p[k]) || is_blank(p[k])
    &&& is_token_char(p[0]) && p[0] != '+'
    &&& is_token_char(p.last()) && p.last() != '.'
}

proof fn lemma_no_member_in_phrase(s: Seq<char>, k: int, n: int)
    requires
        0 <= k <= n < s.len(),
        forall|j: int| k <= j < n ==> is_token_char(#[trigger] s[j]) || is_blank(s[j]),
        s[n] == ',' || s[n] == '}',
    ensures
        !member_starts(s, k),
{
    let j = skip_white(s, k);
    lemma_white_stops(s, k, n);
    assert(s[j] == s[j]);
    if is_name_char(s[j]) {
        lemma_name_stops(s, j, n);
        lemma_white_stops(s, name_run(s, j), n);
    }
}

proof fn lemma_white_stops(s: Seq<char>, k: int, n: int)
    requires
        0 <= k <= n < s.len(),
        !is_white(s[n]),
    ensures
        k <= skip_white(s, k) <= n,
    decreases n - k,
{
    if k < n && is_white(s[k]) {
        lemma_white_stops(s, k + 1, n);
    }
}

proof fn lemma_name_stops(s: Seq<char>, k: int, n: int)
    requires
        0 <= k <= n < s.len(),
        !is_name_char(s[n]),
    ensures
        k <= name_run(s, k) <= n,
    decreases n - k,
{
    if k < n && is_name_char(s[k]) {
        lemma_name_stops(s, k + 1, n);
    }
}

proof fn lemma_phrase_run(s: Seq<char>, i: int, n: int, out: Seq<char>)
    requires
        0 <= i <= n < s.len(),
        forall|j: int| i <= j < n ==> is_token_char(#[trigger] s[j]) || is_blank(s[j]),
        s[n] == ',' || s[n] == '}',
    ensures
        bare_rest(s, i, Stops::Value, Context::ObjectValue, out) == (out + s.subrange(i, n), n),
    decreases n - i,
{
    if i < n {
        assert(is_token_char(s[i]) || is_blank(s[i]));
        lemma_no_member_in_phrase(s, i, n);
        assert(!bare_ends(s, i, Stops::Value, Context::ObjectValue, out));
        lemma_phrase_run(s, i + 1, n, out.push(s[i]));
        assert(out.push(s[i]) + s.subrange(i + 1, n) =~= out + s.subrange(i, n));
    } else {
        assert(out + s.subrange(i, n) =~= out);
    }
}

/// A phrase with a blank and a letter other than those of an exponent is its own text.
pub proof fn lemma_phrases_are_text(p: Seq<char>)
    requires
        is_phrase(p),
        exists|k: int| 0 <= k < p.len() && is_blank(#[trigger] p[k]),
        exists|k: int|
            0 <= k < p.len() && ('a' <= #[trigger] p[k] <= 'z' || 'A' <= p[k] <= 'Z') && p[k] != 'e'
                && p[k] != 'E',
    ensures
        bare_value(p) == Json::String(p),
{
    let none = Seq::<char>::empty();
    assert(none + p + none =~= p);
    lemma_trim_runs(none, p, none, Trim::White);
    lemma_trim_runs(none, p, none, Trim::Only('`'));
    assert(trimmed_end(p, Trim::Only('.')) == p);
    assert(unwrapped(p) == p);
    lemma_words(p);
    let blank = choose|k: int| 0 <= k < p.len() && is_blank(#[trigger] p[k]);
    assert(!spells_true(p) && !spells_false(p) && !spells_null(p)) by {
        assert(is_blank(p[blank]));
    }
    let k = choose|k: int|
        0 <= k < p.len() && ('a' <= #[trigger] p[k] <= 'z' || 'A' <= p[k] <= 'Z') && p[k] != 'e'
            && p[k] != 'E';
    lemma_without_keeps(p, '_', k);
    let q = without(p, '_');
    let j = choose|j: int| 0 <= j < q.len() && q[j] == p[k];
    assert(is_letter(q[j]));
    assert(!numeric_shape(q));
}

/// A phrase in an object is read whole, up to the comma or closing brace after it.
pub proof fn lemma_phrase_is_read_whole(s: Seq<char>, i: int, p: Seq<char>, strict: bool)
    requires
        is_phrase(p),
        stands(s, i, p),
        at(s, i + p.len()) == Some(',') || at(s, i + p.len()) == Some('}'),
    ensures
        value_at(s, i, Context::ObjectValue, strict) == Outcome::Value(
            bare_value(p),
            i + p.len(),
        ),
{
    let n = i + p.len();
    let none = Seq::<char>::empty();
    lemma_part_stands(s, i, p, 0, p.len() as int);
    assert(s[i + 0] == p[0]);
    assert forall|j: int| i <= j < n implies is_token_char(#[trigger] s[j]) || is_blank(s[j]) by {
        assert(s[i + (j - i)] == p[j - i]);
    }
    lemma_phrase_run(s, i, n, none);
    assert(none + s.subrange(i, n) =~= p);
    assert(none + p + none =~= p);
    lemma_trim_runs(none, p, none, Trim::White);
    assert(trimmed_end(p, Trim::Only('`')) == p);
    assert(tidy_bare(p) == p);
    lemma_no_trivia(s, i);
}

/// A token that is all there is outside any value: the value of a number, or of true, false or
/// null, and no value if it is a word.
pub proof fn lemma_token_alone(b: Seq<char>, w: Seq<char>, strict: bool)
    requires
        is_token(b),
        all_white(w),
    ensures
        ({
            let starts_word = !('0' <= b[0] <= '9' || b[0] == '-' || b[0] == '.');
            &&& starts_word && bare_value(b) is String ==> repaired(b + w, strict) == Err::<
                Json,
                Failure,
            >(Failure::Empty)
            &&& !(bare_value(b) is String) ==> repaired(b + w, strict) == Ok::<Json, Failure>(
                bare_value(b),
            )
            &&& !starts_word && bare_value(b) != Json::String(Seq::empty()) ==> repaired(
                b + w,
                strict,
            ) == Ok::<Json, Failure>(bare_value(b))
        }),
{
    let s = b + w;
    let none = Seq::<Json>::empty();
    let n = s.len() as int;
    assert(s.subrange(0, b.len() as int) =~= b);
    assert(s.subrange(b.len() as int, n) =~= w);
    lemma_token_to_the_end(s, 0, b, w, Context::Start);
    assert(all_found(s, n, strict, none) == Ok::<Seq<Json>, Seq<char>>(none));
    let found = none.push(bare_value(b));
    assert(all_found(s, n, strict, found) == Ok::<Seq<Json>, Seq<char>>(found));
    assert(found_added(none, bare_value(b), strict) == found);
    assert(s[0] == b[0]);
    assert(is_token_char(b[0]));
    lemma_no_trivia(s, 0);
    lemma_no_trivia(s, n);
    if !starts_number(b[0]) && bare_value(b) is String {
        assert(word(s, 0, Context::Start) == Outcome::Nothing(n));
        assert(value_at(s, n, Context::Start, strict) == Outcome::Nothing(n));
        assert(value_at(s, 0, Context::Start, strict) == Outcome::Nothing(n));
    } else {
        assert(value_at(s, 0, Context::Start, strict) == Outcome::Value(bare_value(b), n));
    }
}

/// A token up to the end of the text, outside any value.
proof fn lemma_token_to_the_end(s: Seq<char>, i: int, b: Seq<char>, w: Seq<char>, context: Context)
    requires
        context == Context::Start || context == Context::Top,
        is_token(b),
        all_white(w),
        stands(s, i, b),
        stands(s, i + b.len(), w),
        i + b.len() + w.len() == s.len(),
    ensures
        bare_token(s, i, Stops::Prose, context) == (b, s.len() as int),
        bare_token(s, i, Stops::Value, context) == (b, s.len() as int),
        s[i] == b[0],
        trimmed(b, Trim::White) == b,
{
    let n = i + b.len();
    lemma_token_chars(s, i, b);
    lemma_part_stands(s, n, w, 0, w.len() as int);
    assert forall|k: int| n <= k < n + w.len() implies is_white(#[trigger] s[k]) by {
        assert(s[n + (k - n)] == w[k - n]);
    }
    assert(s.subrange(n, n + w.len()) =~= w);
    assert(Seq::empty() + s.subrange(i, n) =~= b);
    lemma_token_run(s, i, n, Stops::Prose, context, Seq::empty());
    lemma_white_token_run(s, n, n + w.len(), Stops::Prose, context, b);
    lemma_token_run(s, i, n, Stops::Value, context, Seq::empty());
    lemma_white_token_run(s, n, n + w.len(), Stops::Value, context, b);
    lemma_tidy_with_white(b, w);
    lemma_token_is_tidy(b);
}

/// A token that the text ends with, after a value was found, is one more value.
pub proof fn lemma_token_after_a_value(
    s: Seq<char>,
    i: int,
    b: Seq<char>,
    w: Seq<char>,
    strict: bool,
    values: Seq<Json>,
)
    requires
        values.len() > 0,
        is_token(b),
        bare_value(b) != Json::String(Seq::empty()),
        all_white(w),
        stands(s, i, b),
        stands(s, i + b.len(), w),
        i + b.len() + w.len() == s.len(),
    ensures
        all_found(s, i, strict, values) == Ok::<Seq<Json>, Seq<char>>(
            found_added(values, bare_value(b), strict),
        ),
{
    let n = s.len() as int;
    lemma_token_to_the_end(s, i, b, w, Context::Top);
    let found = found_added(values, bare_value(b), strict);
    assert(all_found(s, n, strict, found) == Ok::<Seq<Json>, Seq<char>>(found));
    assert(is_token_char(b[0]));
    lemma_no_trivia(s, i);
    assert(value_at(s, i, Context::Top, strict) == Outcome::Value(bare_value(b), n));
}

/// A token in an object or a list ends where a comment starts, and whitespace before that does
/// not count.
pub proof fn lemma_token_before_comment(
    s: Seq<char>,
    i: int,
    b: Seq<char>,
    comment: Piece,
    context: Context,
    strict: bool,
)
    requires
        is_token(b),
        context == Context::ObjectValue || context == Context::Array,
        !(comment is White),
        stands(s, i, b + piece_text(comment)),
    ensures
        value_at(s, i, context, strict) == Outcome::Value(bare_value(b), i + b.len()),
{
    let t = b + piece_text(comment);
    let n = i + b.len();
    let m = b.len() as int;
    lemma_part_stands(s, i, t, 0, t.len() as int);
    lemma_part_stands(s, i, t, 0, m);
    assert(t.subrange(0, m) =~= b);
    assert(s[i + m] == t[m]);
    assert(t[m] == piece_text(comment)[0]);
    if !(comment is Hash) {
        assert(s[i + (m + 1)] == t[m + 1]);
        assert(t[m + 1] == piece_text(comment)[1]);
    }
    assert(comment_starts(s, n));
    lemma_token_chars(s, i, b);
    lemma_token_run(s, i, n, Stops::Value, context, Seq::empty());
    assert(Seq::empty() + s.subrange(i, n) =~= b);
    assert(bare_ends(s, n, Stops::Value, context, b));
    lemma_token_is_tidy(b);
    lemma_token_value(s, i, b, context, strict);
}

/// Where a string may close behind whitespace and comments, by what comes after them.
proof fn lemma_gap_then_end(s: Seq<char>, n: int, pieces: Seq<Piece>)
    requires
        gap_is_proper(pieces),
        stands(s, n, gap_text(pieces)),
        match at(s, n + gap_text(pieces).len()) {
            Some(c) => c == ',' || c == '}' || c == ']',
            None => true,
        },
    ensures
        string_can_close(s, n, Context::ObjectValue),
        string_can_close(s, n, Context::Array),
{
    lemma_gap(s, n, pieces, false);
    lemma_no_trivia(s, n + gap_text(pieces).len());
}

/// A string is closed where a value can end behind whitespace and comments.
pub proof fn lemma_string_before_comment(
    s: Seq<char>,
    i: int,
    open: char,
    close: char,
    lead: Seq<char>,
    u: Seq<char>,
    trail: Seq<char>,
    ticks: Seq<char>,
    pieces: Seq<Piece>,
    strict: bool,
)
    requires
        is_pair(open, close),
        is_kept(lead, u, trail, ticks),
        stands(s, i, string_between(open, lead + u + trail + ticks, close)),
        lacks(lead + u + trail + ticks, close),
        lacks(lead + u + trail + ticks, '\\'),
        lacks(lead + u + trail + ticks, ']'),
        lacks(lead + u + trail + ticks, '}'),
        gap_is_proper(pieces),
        stands(s, i + (lead + u + trail + ticks).len() + 2, gap_text(pieces)),
        match at(s, i + (lead + u + trail + ticks).len() + 2 + gap_text(pieces).len()) {
            Some(c) => c == ',' || c == '}' || c == ']',
            None => true,
        },
    ensures
        value_at(s, i, Context::ObjectValue, strict) == Outcome::Value(
            Json::String(u),
            i + (lead + u + trail + ticks).len() + 2,
        ),
        value_at(s, i, Context::Array, strict) == Outcome::Value(
            Json::String(u),
            i + (lead + u + trail + ticks).len() + 2,
        ),
{
    let t = lead + u + trail + ticks;
    lemma_gap_then_end(s, i + t.len() + 2, pieces);
    lemma_kept(lead, u, trail, ticks);
    lemma_string_between(s, i, open, close, t, Context::ObjectValue);
    lemma_string_between(s, i, open, close, t, Context::Array);
    lemma_no_trivia(s, i);
}

/// A comment between a string and the next member is enough to close the string, with the comma
/// left out.
pub proof fn lemma_string_before_comment_and_member(
    s: Seq<char>,
    i: int,
    open: char,
    close: char,
    lead: Seq<char>,
    u: Seq<char>,
    trail: Seq<char>,
    ticks: Seq<char>,
    pieces: Seq<Piece>,
    name: Seq<char>,
    bare: bool,
    key_open: char,
    key_close: char,
    before_colon: Seq<char>,
    strict: bool,
)
    requires
        is_pair(open, close),
        is_kept(lead, u, trail, ticks),
        stands(s, i, string_between(open, lead + u + trail + ticks, close)),
        lacks(lead + u + trail + ticks, close),
        lacks(lead + u + trail + ticks, '\\'),
        lacks(lead + u + trail + ticks, ']'),
        lacks(lead + u + trail + ticks, '}'),
        gap_is_proper(pieces),
        pieces.len() > 0,
        stands(s, i + (lead + u + trail + ticks).len() + 2, gap_text(pieces)),
        is_plain_name(name),
        is_pair(key_open, key_close),
        all_blank(before_colon),
        stands(
            s,
            i + (lead + u + trail + ticks).len() + 2 + gap_text(pieces).len(),
            written_key(name, bare, key_open, key_close) + before_colon + seq![':'],
        ),
    ensures
        value_at(s, i, Context::ObjectValue, strict) == Outcome::Value(
            Json::String(u),
            i + (lead + u + trail + ticks).len() + 2,
        ),
{
    let t = lead + u + trail + ticks;
    let n = i + t.len() + 2;
    let gap = gap_text(pieces);
    lemma_gap(s, n, pieces, false);
    lemma_key_is_name(
        s,
        n + gap.len(),
        name,
        bare,
        key_open,
        key_close,
        before_colon,
        true,
    );
    let k = n + gap.len() + written_key(name, bare, key_open, key_close).len();
    assert(skip_trivia(s, n + gap.len(), false) == n + gap.len());
    assert(skip_trivia(s, k, false) == k + before_colon.len());
    lemma_gap_start(s, n, pieces);
    assert(member_follows(s, n));
    lemma_kept(lead, u, trail, ticks);
    lemma_string_between(s, i, open, close, t, Context::ObjectValue);
    lemma_no_trivia(s, i);
}

/// A comment between a string and the next value is enough to close the string in a list, with
/// the comma left out.
pub proof fn lemma_string_before_comment_and_value(
    s: Seq<char>,
    i: int,
    open: char,
    close: char,
    lead: Seq<char>,
    u: Seq<char>,
    trail: Seq<char>,
    ticks: Seq<char>,
    pieces: Seq<Piece>,
    strict: bool,
)
    requires
        is_pair(open, close),
        is_kept(lead, u, trail, ticks),
        stands(s, i, string_between(open, lead + u + trail + ticks, close)),
        lacks(lead + u + trail + ticks, close),
        lacks(lead + u + trail + ticks, '\\'),
        lacks(lead + u + trail + ticks, ']'),
        gap_is_proper(pieces),
        pieces.len() > 0,
        stands(s, i + (lead + u + trail + ticks).len() + 2, gap_text(pieces)),
        at(s, i + (lead + u + trail + ticks).len() + 2 + gap_text(pieces).len()) matches Some(c)
            && opens_any_value(c),
    ensures
        value_at(s, i, Context::Array, strict) == Outcome::Value(
            Json::String(u),
            i + (lead + u + trail + ticks).len() + 2,
        ),
{
    let t = lead + u + trail + ticks;
    let n = i + t.len() + 2;
    lemma_gap(s, n, pieces, false);
    lemma_no_trivia(s, n + gap_text(pieces).len());
    lemma_gap_start(s, n, pieces);
    lemma_kept(lead, u, trail, ticks);
    lemma_string_between(s, i, open, close, t, Context::Array);
    lemma_no_trivia(s, i);
}

proof fn lemma_gap_start(s: Seq<char>, n: int, pieces: Seq<Piece>)
    requires
        gap_is_proper(pieces),
        pieces.len() > 0,
        stands(s, n, gap_text(pieces)),
    ensures
        at(s, n) matches Some(c) && (is_white(c) || c == '#' || c == '/'),
{
    let gap = gap_text(pieces);
    lemma_part_stands(s, n, gap, 0, gap.len() as int);
    assert(piece_is_proper(pieces[0]));
    assert(gap[0] == piece_text(pieces[0])[0]);
    assert(s[n + 0] == gap[0]);
}

/// A phrase that is all there is has no value.
pub proof fn lemma_phrase_alone(p: Seq<char>, strict: bool)
    requires
        is_phrase(p),
        'a' <= p[0] <= 'z' || 'A' <= p[0] <= 'Z' || p[0] == '_',
        exists|k: int| 0 <= k < p.len() && is_blank(#[trigger] p[k]),
        exists|k: int|
            0 <= k < p.len() && ('a' <= #[trigger] p[k] <= 'z' || 'A' <= p[k] <= 'Z') && p[k] != 'e'
                && p[k] != 'E',
    ensures
        repaired(p, strict) == Err::<Json, Failure>(Failure::Empty),
{
    let n = p.len() as int;
    let none = Seq::<char>::empty();
    let found = Seq::<Json>::empty();
    lemma_phrases_are_text(p);
    lemma_phrase_to_the_end(p, 0, none);
    assert(none + p.subrange(0, n) =~= p);
    assert(none + p + none =~= p);
    lemma_trim_runs(none, p, none, Trim::White);
    assert(trimmed_end(p, Trim::Only('`')) == p);
    assert(bare_token(p, 0, Stops::Prose, Context::Start) == (p, n));
    lemma_no_trivia(p, 0);
    lemma_no_trivia(p, n);
    assert(word(p, 0, Context::Start) == Outcome::Nothing(n));
    assert(value_at(p, n, Context::Start, strict) == Outcome::Nothing(n));
    assert(value_at(p, 0, Context::Start, strict) == Outcome::Nothing(n));
    assert(all_found(p, n, strict, found) == Ok::<Seq<Json>, Seq<char>>(found));
    assert(all_found(p, 0, strict, found) == Ok::<Seq<Json>, Seq<char>>(found));
}

proof fn lemma_phrase_to_the_end(s: Seq<char>, i: int, out: Seq<char>)
    requires
        0 <= i <= s.len(),
        forall|j: int| i <= j < s.len() ==> is_token_char(#[trigger] s[j]) || is_blank(s[j]),
    ensures
        bare_rest(s, i, Stops::Prose, Context::Start, out) == (
            out + s.subrange(i, s.len() as int),
            s.len() as int,
        ),
    decreases s.len() - i,
{
    if i < s.len() {
        assert(is_token_char(s[i]) || is_blank(s[i]));
        lemma_phrase_to_the_end(s, i + 1, out.push(s[i]));
        assert(out.push(s[i]) + s.subrange(i + 1, s.len() as int) =~= out + s.subrange(
            i,
            s.len() as int,
        ));
    } else {
        assert(out + s.subrange(i, s.len() as int) =~= out);
    }
}

} // verus!
