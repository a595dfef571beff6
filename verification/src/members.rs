//! How objects are read, member by member.

use crate::chars::is_white;
use crate::escapes::lemma_missing_quote_of_key;
use crate::gaps::{
    all_white, gap_is_proper, gap_text, lemma_gap, lemma_no_trivia, lemma_white_run,
    lemma_white_stands, Piece,
};
use crate::grammar::{
    duplicate_key_reason, lemma_member_head, lemma_member_value, lemma_value_at, member_value,
    object_at, value_at, Outcome,
};
use crate::quoting::{
    all_blank, is_blank, is_pair, is_plain_char, is_plain_name, lemma_inner_quote_of_key_is_kept,
    lemma_key_is_name, lemma_quoted_key_is_read_whole, lemma_trim_white, written_key,
};
use crate::scan::{
    at, lemma_skip_separators, lemma_skip_trivia, skip_separators, skip_trivia, Context,
};
use crate::standard::{lemma_part_stands, stands};
use crate::text::{trimmed, trimmed_end, Trim};
use crate::token::{bare_rest, object_key, tidy_bare, tidy_key, Stops};
use crate::value::{has_key, lemma_position, position, Json};
use vstd::prelude::*;

verus! {

/// Whether a text is whitespace and commas.
pub open spec fn all_separators(w: Seq<char>) -> bool {
    forall|k: int| 0 <= k < w.len() ==> is_white(#[trigger] w[k]) || w[k] == ','
}

/// Whether whitespace, comments and commas end at `i`.
pub open spec fn starts_token(s: Seq<char>, i: int) -> bool {
    match at(s, i) {
        Some(c) => !is_white(c) && c != '#' && c != '/' && c != ',',
        None => true,
    }
}

pub proof fn lemma_separators(s: Seq<char>, i: int, w: Seq<char>)
    requires
        stands(s, i, w),
        all_separators(w),
        starts_token(s, i + w.len()),
    ensures
        skip_separators(s, i) == i + w.len(),
    decreases w.len(),
{
    let n = i + w.len();
    if w.len() == 0 {
        lemma_no_trivia(s, n);
    } else {
        lemma_part_stands(s, i, w, 0, w.len() as int);
        assert(s[i + 0] == w[0]);
        lemma_part_stands(s, i, w, 1, w.len() as int);
        assert(w.subrange(1, w.len() as int) =~= w.skip(1));
        assert forall|k: int| 0 <= k < w.skip(1).len() implies is_white(#[trigger] w.skip(1)[k])
            || w.skip(1)[k] == ',' by {
            assert(w.skip(1)[k] == w[k + 1]);
        }
        lemma_separators(s, i + 1, w.skip(1));
        if w[0] == ',' {
            lemma_no_trivia(s, i);
        } else {
            lemma_white_run(s, i, i + 1);
            assert(skip_trivia(s, i, true) == skip_trivia(s, i + 1, true));
        }
    }
}

proof fn lemma_trim_nothing(t: Seq<char>, what: Trim)
    requires
        t.len() > 0 ==> !what.spec_matches(t[0]) && !what.spec_matches(t.last()),
    ensures
        trimmed(t, what) == t,
        trimmed_end(t, what) == t,
{
}

/// A plain name is left as it is by all the trimming that keys get.
proof fn lemma_plain_name_is_tidy(name: Seq<char>, w: Seq<char>)
    requires
        is_plain_name(name),
        all_white(w),
    ensures
        tidy_bare(name + w) == name,
        tidy_key(name) == name,
{
    assert(is_plain_char(name[0]));
    assert(is_plain_char(name[name.len() - 1]));
    assert(Seq::<char>::empty() + name + w =~= name + w);
    lemma_trim_white(Seq::empty(), name, w);
    lemma_trim_nothing(name, Trim::Only('`'));
    lemma_trim_nothing(name, Trim::White);
    lemma_trim_nothing(name, Trim::Only('"'));
    lemma_trim_nothing(name, Trim::Only('\''));
    lemma_trim_nothing(name, Trim::Only('\u{201c}'));
    lemma_trim_nothing(name, Trim::Only('\u{201d}'));
}

proof fn lemma_key_run(s: Seq<char>, i: int, n: int, out: Seq<char>)
    requires
        0 <= i <= n <= s.len(),
        forall|k: int| i <= k < n ==> is_plain_char(#[trigger] s[k]) || is_blank(s[k]),
        match at(s, n) {
            Some(c) => c == ':' || c == ',' || c == '}',
            None => true,
        },
    ensures
        bare_rest(s, i, Stops::Key, Context::ObjectKey, out) == (out + s.subrange(i, n), n),
    decreases n - i,
{
    if i < n {
        assert(is_plain_char(s[i]) || is_blank(s[i]));
        lemma_key_run(s, i + 1, n, out.push(s[i]));
        assert(out.push(s[i]) + s.subrange(i + 1, n) =~= out + s.subrange(i, n));
    } else {
        assert(out + s.subrange(i, n) =~= out);
    }
}

/// A plain key is read as its name, bare or in any of the quotation marks.
pub proof fn lemma_plain_key(
    s: Seq<char>,
    i: int,
    name: Seq<char>,
    bare: bool,
    open: char,
    close: char,
    before_colon: Seq<char>,
)
    requires
        is_plain_name(name),
        is_pair(open, close),
        all_blank(before_colon),
        stands(s, i, written_key(name, bare, open, close) + before_colon + seq![':']),
    ensures
        object_key(s, i).0 == name,
        ({
            let n = i + written_key(name, bare, open, close).len() + before_colon.len();
            skip_trivia(s, object_key(s, i).1, true) == n && at(s, n) == Some(':')
        }),
{
    let key = written_key(name, bare, open, close);
    let whole = key + before_colon + seq![':'];
    let n = i + key.len() + before_colon.len();
    lemma_key_is_name(s, i, name, bare, open, close, before_colon, false);
    lemma_part_stands(s, i, whole, 0, whole.len() as int);
    assert(skip_trivia(s, i, true) == i);
    assert(s[i + 0] == whole[0]);
    if bare {
        assert forall|k: int| i <= k < n implies is_plain_char(#[trigger] s[k]) || is_blank(
            s[k],
        ) by {
            assert(s[i + (k - i)] == whole[k - i]);
            if k - i < name.len() {
                assert(whole[k - i] == name[k - i]);
            } else {
                assert(whole[k - i] == before_colon[k - i - name.len()]);
            }
        }
        lemma_key_run(s, i, n, Seq::empty());
        assert(s.subrange(i, n) =~= name + before_colon) by {
            assert forall|k: int| 0 <= k < n - i implies s[i + k] == (name + before_colon)[k] by {
                assert(s[i + k] == whole[k]);
            }
        }
        assert(Seq::empty() + s.subrange(i, n) =~= name + before_colon);
        lemma_plain_name_is_tidy(name, before_colon);
        assert(is_plain_char(name[0]));
        lemma_no_trivia(s, n);
    } else {
        let none = Seq::<char>::empty();
        assert(is_plain_char(name[0]) && is_plain_char(name[name.len() - 1]));
        assert(none + name + none + none =~= name);
        lemma_part_stands(s, i, whole, 0, key.len() as int);
        assert(whole.subrange(0, key.len() as int) =~= key);
        let k = key.len() as int;
        lemma_part_stands(s, i, whole, k, k + before_colon.len());
        assert(whole.subrange(k, k + before_colon.len()) =~= before_colon);
        assert forall|k: int| 0 <= k < name.len() implies is_plain_char(#[trigger] name[k]) by {}
        lemma_quoted_key_is_read_whole(s, i, open, close, none, name, none, none, before_colon);
        assert(skip_trivia(s, i + k, true) == n);
    }
}

/// Whether some member has the given key.
pub open spec fn is_among(members: Seq<(Seq<char>, Json)>, key: Seq<char>) -> bool {
    exists|k: int| 0 <= k < members.len() && (#[trigger] members[k]).0 == key
}

/// What the rest of an object gives after a member, by what comes at the member's end: a closing
/// brace ends the object, a comma is passed over, and without either the next member comes.
pub open spec fn object_after(
    s: Seq<char>,
    end: int,
    strict: bool,
    members: Seq<(Seq<char>, Json)>,
) -> Outcome {
    let next = skip_trivia(s, end, true);
    if at(s, next) == Some('}') {
        Outcome::Value(Json::Object(members), next + 1)
    } else if at(s, next) == Some(',') {
        object_at(s, next + 1, strict, members)
    } else {
        object_at(s, next, strict, members)
    }
}

/// Reading one member of an object whose key ends with a colon at `colon`.
pub proof fn lemma_member_by_key(
    s: Seq<char>,
    i: int,
    strict: bool,
    members: Seq<(Seq<char>, Json)>,
    j: int,
    name: Seq<char>,
    colon: int,
    start: int,
    value: Json,
    end: int,
)
    requires
        0 <= i <= s.len(),
        skip_separators(s, i) == j,
        at(s, j) matches Some(c) && c != '}' && c != ']' && c != ')' && c != '[',
        object_key(s, j).0 == name,
        skip_trivia(s, object_key(s, j).1, true) == colon,
        at(s, colon) == Some(':'),
        skip_trivia(s, colon + 1, true) == start,
        at(s, start) matches Some(c) && c != ',' && c != '}' && c != ']' && c != ')',
        value_at(s, start, Context::ObjectValue, strict) == Outcome::Value(value, end),
    ensures
        !is_among(members, name) ==> object_at(s, i, strict, members) == object_after(
            s,
            end,
            strict,
            members.push((name, value)),
        ),
        is_among(members, name) && strict ==> object_at(s, i, strict, members)
            == Outcome::Rejected("duplicate key `"@ + name + "` found"@),
        forall|p: int|
            0 <= p < members.len() && (#[trigger] members[p]).0 == name && (forall|q: int|
                0 <= q < p ==> (#[trigger] members[q]).0 != name) && !strict ==> object_at(
                s,
                i,
                strict,
                members,
            ) == object_after(s, end, strict, members.update(p, (name, value))),
{
    lemma_member_head(s, i);
    lemma_skip_trivia(s, colon + 1, true);
    lemma_member_value(s, start, strict);
    lemma_skip_trivia(s, end, true);
    lemma_position(members, name, 0);
    assert(is_among(members, name) == has_key(members, name));
    assert forall|p: int|
        0 <= p < members.len() && (#[trigger] members[p]).0 == name && (forall|q: int|
            0 <= q < p ==> (#[trigger] members[q]).0 != name) implies position(members, name)
        == p by {}
    assert(duplicate_key_reason(name) == "duplicate key `"@ + name + "` found"@);
}

/// Reading one member of an object: a key, bare or in quotation marks, a colon, and a value. A
/// new key is added at the end. A key that is known takes the new value at its place, or is
/// refused in strict mode, and for no other reason is anything refused here.
pub proof fn lemma_object_member(
    s: Seq<char>,
    i: int,
    strict: bool,
    members: Seq<(Seq<char>, Json)>,
    before: Seq<char>,
    name: Seq<char>,
    bare: bool,
    open: char,
    close: char,
    before_colon: Seq<char>,
    after_colon: Seq<char>,
    value: Json,
    end: int,
)
    requires
        all_separators(before),
        is_plain_name(name),
        is_pair(open, close),
        all_blank(before_colon),
        all_white(after_colon),
        ({
            let head = before + written_key(name, bare, open, close) + before_colon + seq![':']
                + after_colon;
            let start = i + head.len();
            &&& stands(s, i, head)
            &&& at(s, start) matches Some(c) && !is_white(c) && c != '#' && c != '/' && c != ','
                && c != '}' && c != ']' && c != ')'
            &&& value_at(s, start, Context::ObjectValue, strict) == Outcome::Value(value, end)
        }),
    ensures
        !is_among(members, name) ==> object_at(s, i, strict, members) == object_after(
            s,
            end,
            strict,
            members.push((name, value)),
        ),
        is_among(members, name) && strict ==> object_at(s, i, strict, members)
            == Outcome::Rejected("duplicate key `"@ + name + "` found"@),
        forall|p: int|
            0 <= p < members.len() && (#[trigger] members[p]).0 == name && (forall|q: int|
                0 <= q < p ==> (#[trigger] members[q]).0 != name) && !strict ==> object_at(
                s,
                i,
                strict,
                members,
            ) == object_after(s, end, strict, members.update(p, (name, value))),
{
    let key = written_key(name, bare, open, close);
    let head = before + key + before_colon + seq![':'] + after_colon;
    let start = i + head.len();
    let b = before.len() as int;
    let j = i + b;
    let colon = j + key.len() + before_colon.len();
    let colon_at = b + key.len() + before_colon.len();
    lemma_part_stands(s, i, head, 0, head.len() as int);
    lemma_part_stands(s, i, head, 0, b);
    assert(head.subrange(0, b) =~= before);
    lemma_part_stands(s, i, head, b, colon_at + 1);
    assert(head.subrange(b, colon_at + 1) =~= key + before_colon + seq![':']);
    lemma_part_stands(s, i, head, colon_at + 1, head.len() as int);
    assert(head.subrange(colon_at + 1, head.len() as int) =~= after_colon);
    assert(s[i + b] == head[b]);
    assert(is_plain_char(name[0]));
    assert(starts_token(s, j) && at(s, j) is Some);
    lemma_separators(s, i, before);
    lemma_plain_key(s, j, name, bare, open, close, before_colon);
    lemma_white_stands(s, colon + 1, after_colon);
    lemma_no_trivia(s, start);
    assert(skip_trivia(s, colon + 1, true) == skip_trivia(s, start, true));
    lemma_member_by_key(s, i, strict, members, j, name, colon, start, value, end);
}

/// A plain key is read as its name, bare or in any of the quotation marks, whichever of the marks
/// that end a key comes after it, or the end of the text.
pub proof fn lemma_plain_key_ends(
    s: Seq<char>,
    i: int,
    name: Seq<char>,
    bare: bool,
    open: char,
    close: char,
    after: Seq<char>,
)
    requires
        is_plain_name(name),
        is_pair(open, close),
        all_blank(after),
        stands(s, i, written_key(name, bare, open, close) + after),
        match at(s, i + written_key(name, bare, open, close).len() + after.len()) {
            Some(c) => c == ':' || c == ',' || c == '}',
            None => true,
        },
    ensures
        object_key(s, i).0 == name,
        i < object_key(s, i).1,
        ({
            let n = i + written_key(name, bare, open, close).len() + after.len();
            skip_trivia(s, object_key(s, i).1, true) == n
        }),
{
    let key = written_key(name, bare, open, close);
    let whole = key + after;
    let n = i + key.len() + after.len();
    let none = Seq::<char>::empty();
    let k = key.len() as int;
    assert(is_plain_char(name[0]) && is_plain_char(name[name.len() - 1]));
    lemma_part_stands(s, i, whole, 0, whole.len() as int);
    assert(s[i + 0] == whole[0]);
    lemma_no_trivia(s, i);
    lemma_no_trivia(s, n);
    if bare {
        assert forall|k: int| i <= k < n implies is_plain_char(#[trigger] s[k]) || is_blank(
            s[k],
        ) by {
            assert(s[i + (k - i)] == whole[k - i]);
            if k - i < name.len() {
                assert(whole[k - i] == name[k - i]);
            } else {
                assert(whole[k - i] == after[k - i - name.len()]);
            }
        }
        lemma_key_run(s, i, n, none);
        assert(none + s.subrange(i, n) =~= name + after) by {
            assert forall|k: int| 0 <= k < n - i implies s[i + k] == (name + after)[k] by {
                assert(s[i + k] == whole[k]);
            }
        }
        lemma_plain_name_is_tidy(name, after);
    } else {
        assert(none + name + none + none =~= name);
        lemma_part_stands(s, i, whole, 0, k);
        assert(whole.subrange(0, k) =~= key);
        lemma_part_stands(s, i, whole, k, k + after.len());
        assert(whole.subrange(k, k + after.len()) =~= after);
        assert forall|k: int| 0 <= k < name.len() implies is_plain_char(#[trigger] name[k]) by {}
        lemma_inner_quote_of_key_is_kept(s, i, open, close, none, name, none, none, after);
        lemma_white_stands(s, i + k, after);
        assert(skip_trivia(s, i + k, true) == skip_trivia(s, n, true));
    }
}

proof fn lemma_bracket_run(s: Seq<char>, i: int, n: int, out: Seq<char>)
    requires
        0 <= i <= n < s.len(),
        forall|k: int| i <= k < n ==> is_plain_char(#[trigger] s[k]),
        s[n] == ']',
    ensures
        bare_rest(s, i, Stops::BracketKey, Context::ObjectKey, out) == (out + s.subrange(i, n), n),
    decreases n - i,
{
    if i < n {
        assert(is_plain_char(s[i]));
        lemma_bracket_run(s, i + 1, n, out.push(s[i]));
        assert(out.push(s[i]) + s.subrange(i + 1, n) =~= out + s.subrange(i, n));
    } else {
        assert(out + s.subrange(i, n) =~= out);
    }
}

/// A key in brackets is read as the name in them.
pub proof fn lemma_bracket_key(s: Seq<char>, i: int, name: Seq<char>)
    requires
        is_plain_name(name),
        stands(s, i, seq!['['] + name + seq![']']),
    ensures
        object_key(s, i) == (name, i + name.len() + 2),
{
    let whole = seq!['['] + name + seq![']'];
    let n = i + 1 + name.len();
    let none = Seq::<char>::empty();
    lemma_part_stands(s, i, whole, 0, whole.len() as int);
    assert(s[i + 0] == whole[0]);
    assert(s[i + (whole.len() - 1)] == whole[whole.len() - 1]);
    assert forall|k: int| i + 1 <= k < n implies is_plain_char(#[trigger] s[k]) by {
        assert(s[i + (k - i)] == whole[k - i]);
        assert(whole[k - i] == name[k - i - 1]);
    }
    lemma_bracket_run(s, i + 1, n, none);
    assert(none + s.subrange(i + 1, n) =~= name + none) by {
        assert forall|k: int| 0 <= k < name.len() implies s[i + 1 + k] == name[k] by {
            assert(s[i + (k + 1)] == whole[k + 1]);
        }
    }
    lemma_plain_name_is_tidy(name, none);
    lemma_no_trivia(s, i);
}

/// A member whose value was left out has the empty text.
pub proof fn lemma_missing_value(
    s: Seq<char>,
    i: int,
    strict: bool,
    members: Seq<(Seq<char>, Json)>,
    before: Seq<char>,
    name: Seq<char>,
    bare: bool,
    open: char,
    close: char,
    before_colon: Seq<char>,
    after_colon: Seq<char>,
)
    requires
        all_separators(before),
        is_plain_name(name),
        is_pair(open, close),
        all_blank(before_colon),
        all_white(after_colon),
        !is_among(members, name),
        ({
            let head = before + written_key(name, bare, open, close) + before_colon + seq![':']
                + after_colon;
            &&& stands(s, i, head)
            &&& match at(s, i + head.len()) {
                Some(c) => c == ',' || c == '}' || c == ']' || c == ')',
                None => true,
            }
        }),
    ensures
        ({
            let head = before + written_key(name, bare, open, close) + before_colon + seq![':']
                + after_colon;
            object_at(s, i, strict, members) == object_after(
                s,
                i + head.len(),
                strict,
                members.push((name, Json::String(Seq::empty()))),
            )
        }),
{
    let key = written_key(name, bare, open, close);
    let head = before + key + before_colon + seq![':'] + after_colon;
    let start = i + head.len();
    let b = before.len() as int;
    let j = i + b;
    let colon_at = b + key.len() + before_colon.len();
    let colon = i + colon_at;
    lemma_part_stands(s, i, head, 0, head.len() as int);
    lemma_part_stands(s, i, head, 0, b);
    assert(head.subrange(0, b) =~= before);
    lemma_part_stands(s, i, head, b, colon_at + 1);
    assert(head.subrange(b, colon_at + 1) =~= key + before_colon + seq![':']);
    lemma_part_stands(s, i, head, colon_at + 1, head.len() as int);
    assert(head.subrange(colon_at + 1, head.len() as int) =~= after_colon);
    assert(s[i + b] == head[b]);
    assert(is_plain_char(name[0]));
    assert(starts_token(s, j) && at(s, j) is Some);
    lemma_separators(s, i, before);
    lemma_plain_key(s, j, name, bare, open, close, before_colon);
    lemma_white_stands(s, colon + 1, after_colon);
    lemma_no_trivia(s, start);
    assert(skip_trivia(s, colon + 1, true) == skip_trivia(s, start, true));
    lemma_position(members, name, 0);
    assert(!has_key(members, name));
}

/// Only where whitespace, comments and commas end counts for what an object gives, not where
/// they start.
pub proof fn lemma_same_object(
    s: Seq<char>,
    i: int,
    j: int,
    strict: bool,
    members: Seq<(Seq<char>, Json)>,
)
    requires
        0 <= i <= j <= s.len(),
        skip_separators(s, i) == skip_separators(s, j),
    ensures
        object_at(s, i, strict, members) == object_at(s, j, strict, members),
{
    lemma_member_head(s, i);
    lemma_member_head(s, j);
    let at_key = skip_separators(s, i);
    lemma_skip_separators(s, j);
    if at(s, at_key) is Some && at(s, at_key) != Some('}') {
        let k = object_key(s, at_key).1;
        let after_key = skip_trivia(s, k, true);
        let start = skip_trivia(
            s,
            if at(s, after_key) == Some(':') {
                after_key + 1
            } else {
                after_key
            },
            true,
        );
        lemma_member_value(s, start, strict);
        match member_value(s, start, strict) {
            Outcome::Value(_, end) => {
                lemma_skip_trivia(s, end, true);
            },
            _ => {},
        }
        lemma_skip_trivia(s, start, true);
    }
}

/// Whitespace and comments between members stand for nothing.
pub proof fn lemma_gap_in_object(
    s: Seq<char>,
    i: int,
    pieces: Seq<Piece>,
    strict: bool,
    members: Seq<(Seq<char>, Json)>,
)
    requires
        gap_is_proper(pieces),
        stands(s, i, gap_text(pieces)),
    ensures
        object_at(s, i, strict, members) == object_at(
            s,
            i + gap_text(pieces).len(),
            strict,
            members,
        ),
        object_after(s, i, strict, members) == object_after(
            s,
            i + gap_text(pieces).len(),
            strict,
            members,
        ),
{
    lemma_gap(s, i, pieces, true);
    lemma_same_object(s, i, i + gap_text(pieces).len(), strict, members);
}

/// A key whose closing quotation mark is missing at the end of its line: what comes on the next
/// lines is its value, with the colon left out.
pub proof fn lemma_missing_colon(
    s: Seq<char>,
    i: int,
    strict: bool,
    members: Seq<(Seq<char>, Json)>,
    before: Seq<char>,
    open: char,
    close: char,
    name: Seq<char>,
    w: Seq<char>,
    value: Json,
    end: int,
)
    requires
        all_separators(before),
        is_plain_name(name),
        is_pair(open, close),
        all_white(w),
        !is_among(members, name),
        ({
            let head = before + seq![open] + name + seq!['\n'] + w;
            let start = i + head.len();
            &&& stands(s, i, head)
            &&& at(s, start) matches Some(c) && !is_white(c) && c != '#' && c != '/' && c != ','
                && c != '}' && c != ']' && c != ')' && c != ':'
            &&& value_at(s, start, Context::ObjectValue, strict) == Outcome::Value(value, end)
        }),
    ensures
        object_at(s, i, strict, members) == object_after(
            s,
            end,
            strict,
            members.push((name, value)),
        ),
{
    let head = before + seq![open] + name + seq!['\n'] + w;
    let start = i + head.len();
    let j = i + before.len();
    lemma_open_key(s, i, before, open, close, name, w);
    lemma_no_trivia(s, start);
    lemma_value_at(s, start, Context::ObjectValue, strict);
    lemma_skip_trivia(s, end, true);
    lemma_position(members, name, 0);
    assert(!has_key(members, name));
    assert(skip_trivia(s, object_key(s, j).1, true) == start);
    assert(member_value(s, start, strict) == Outcome::Value(value, end));
}

/// Where a key without its closing quotation mark stands, and where it ends.
proof fn lemma_open_key(
    s: Seq<char>,
    i: int,
    before: Seq<char>,
    open: char,
    close: char,
    name: Seq<char>,
    w: Seq<char>,
)
    requires
        all_separators(before),
        is_plain_name(name),
        is_pair(open, close),
        all_white(w),
        stands(s, i, before + seq![open] + name + seq!['\n'] + w),
    ensures
        skip_separators(s, i) == i + before.len(),
        at(s, i + before.len()) == Some(open),
        object_key(s, i + before.len()).0 == name,
        skip_trivia(s, object_key(s, i + before.len()).1, true) == skip_trivia(
            s,
            i + (before + seq![open] + name + seq!['\n'] + w).len(),
            true,
        ),
{
    let head = before + seq![open] + name + seq!['\n'] + w;
    let start = i + head.len();
    let b = before.len() as int;
    let j = i + b;
    let n = b + 1 + name.len();
    let none = Seq::<char>::empty();
    lemma_part_stands(s, i, head, 0, head.len() as int);
    lemma_part_stands(s, i, head, 0, b);
    assert(head.subrange(0, b) =~= before);
    assert(s[i + b] == head[b]);
    lemma_separators(s, i, before);
    lemma_part_stands(s, i, head, b, n);
    assert(head.subrange(b, n) =~= seq![open] + name);
    assert(s[i + n] == head[n]);
    assert(none + name + none + none =~= name);
    assert(is_plain_char(name[0]) && is_plain_char(name[name.len() - 1]));
    assert forall|k: int| 0 <= k < name.len() implies is_plain_char(#[trigger] name[k]) by {}
    lemma_missing_quote_of_key(s, j, open, close, none, name, none, none);
    assert forall|k: int| i + n <= k < start implies is_white(#[trigger] s[k]) by {
        assert(s[i + (k - i)] == head[k - i]);
        if k > i + n {
            assert(head[k - i] == w[k - i - n - 1]);
        }
    }
    lemma_white_run(s, i + n, start);
}

} // verus!
