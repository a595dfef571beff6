//! Escapes in strings, and strings whose quotation marks are escaped.

use crate::chars::hex_digit;
use crate::gaps::{all_white, lemma_no_trivia, lemma_white_stands};
use crate::grammar::{value_at, Outcome};
use crate::quoting::{
    is_kept, is_pair, is_plain_char, lacks, lemma_kept, lemma_string_body, lemma_value_ends,
    string_between, value_ends,
};
use crate::scan::{at, close_is_missing, skip_trivia, string_can_close, Context};
use crate::standard::{lemma_part_stands, stands};
use crate::token::{hex_value, object_key, quoted_string, string_rest, tidy_string};
use crate::value::Json;
use vstd::prelude::*;

verus! {

/// What a string is made of: characters, and escapes.
pub enum Glyph {
    /// A character that stands for itself.
    Plain(char),
    /// A backslash and a character other than `u`, `x` and the closing quotation mark.
    Letter(char),
    /// A backslash and the closing quotation mark.
    Quote,
    /// A backslash, `u` and four hexadecimal digits.
    Four(char, char, char, char),
    /// A backslash, `x` and two hexadecimal digits.
    Two(char, char),
    /// A backslash and `u` or `x`, without hexadecimal digits.
    Broken(char),
}

pub open spec fn glyph_text(g: Glyph, close: char) -> Seq<char> {
    match g {
        Glyph::Plain(c) => seq![c],
        Glyph::Letter(c) => seq!['\\', c],
        Glyph::Quote => seq!['\\', close],
        Glyph::Four(a, b, c, d) => seq!['\\', 'u', a, b, c, d],
        Glyph::Two(a, b) => seq!['\\', 'x', a, b],
        Glyph::Broken(c) => seq!['\\', c],
    }
}

/// The value of a hexadecimal digit.
pub open spec fn digit_of(c: char) -> int {
    if '0' <= c <= '9' {
        c as int - 48
    } else if 'a' <= c <= 'f' {
        c as int - 87
    } else {
        c as int - 55
    }
}

pub open spec fn is_hex(c: char) -> bool {
    '0' <= c <= '9' || 'a' <= c <= 'f' || 'A' <= c <= 'F'
}

/// The character that a glyph stands for. What cannot be read is a backslash.
pub open spec fn glyph_meaning(g: Glyph, close: char) -> char {
    match g {
        Glyph::Plain(c) => c,
        Glyph::Letter('n') => '\n',
        Glyph::Letter('r') => '\r',
        Glyph::Letter('t') => '\t',
        Glyph::Letter('b') => '\u{8}',
        Glyph::Letter('f') => '\u{c}',
        Glyph::Letter(c) => c,
        Glyph::Quote => close,
        Glyph::Four(a, b, c, d) => {
            let code = digit_of(a) * 4096 + digit_of(b) * 256 + digit_of(c) * 16 + digit_of(d);
            if 0xd800 <= code <= 0xdfff {
                '\\'
            } else {
                code as char
            }
        },
        Glyph::Two(a, b) => (digit_of(a) * 16 + digit_of(b)) as char,
        Glyph::Broken(_) => '\\',
    }
}

/// Whether a glyph is what it is called. A character is none that would end the string, in a
/// key or in a value.
pub open spec fn glyph_is_proper(g: Glyph, close: char, key: bool) -> bool {
    match g {
        Glyph::Plain(c) => c != close && c != '\\' && c != '}' && c != ']' && (key ==> c != ':' && c
            != '\n' && c != '\r'),
        Glyph::Letter(c) => c != 'u' && c != 'x' && c != close,
        Glyph::Quote => true,
        Glyph::Four(a, b, c, d) => is_hex(a) && is_hex(b) && is_hex(c) && is_hex(d),
        Glyph::Two(a, b) => is_hex(a) && is_hex(b),
        Glyph::Broken(c) => c == 'u' || c == 'x',
    }
}

/// What an escaped quotation mark or an escape without digits needs behind it: a letter or digit
/// that shows that the string goes on, and one that is no hexadecimal digit.
pub open spec fn glyph_may_precede(g: Glyph, next: Option<Glyph>) -> bool {
    match g {
        Glyph::Quote => next matches Some(Glyph::Plain(c)) && is_plain_char(c),
        Glyph::Broken(_) => next matches Some(Glyph::Plain(c)) && !is_hex(c),
        _ => true,
    }
}

pub open spec fn glyph_goes_on(glyphs: Seq<Glyph>, k: int) -> bool {
    glyph_may_precede(
        glyphs[k],
        if k + 1 < glyphs.len() {
            Some(glyphs[k + 1])
        } else {
            None
        },
    )
}

pub open spec fn glyphs_are_proper(glyphs: Seq<Glyph>, close: char, key: bool) -> bool {
    &&& forall|k: int| 0 <= k < glyphs.len() ==> glyph_is_proper(#[trigger] glyphs[k], close, key)
    &&& forall|k: int| 0 <= k < glyphs.len() ==> #[trigger] glyph_goes_on(glyphs, k)
}

pub open spec fn glyphs_text(glyphs: Seq<Glyph>, close: char) -> Seq<char>
    decreases glyphs.len(),
{
    if glyphs.len() == 0 {
        Seq::empty()
    } else {
        glyph_text(glyphs[0], close) + glyphs_text(glyphs.skip(1), close)
    }
}

pub open spec fn glyphs_meaning(glyphs: Seq<Glyph>, close: char) -> Seq<char>
    decreases glyphs.len(),
{
    if glyphs.len() == 0 {
        Seq::empty()
    } else {
        seq![glyph_meaning(glyphs[0], close)] + glyphs_meaning(glyphs.skip(1), close)
    }
}

proof fn lemma_hex_digit(c: char)
    ensures
        hex_digit(c) == if is_hex(c) {
            Some(digit_of(c))
        } else {
            None
        },
        is_hex(c) ==> 0 <= digit_of(c) < 16,
{
}

proof fn lemma_hex_two(a: char, b: char)
    ensures
        is_hex(a) && is_hex(b) ==> hex_value(seq![a, b]) == Some(digit_of(a) * 16 + digit_of(b)),
        !is_hex(a) ==> hex_value(seq![a, b]) is None,
{
    lemma_hex_digit(a);
    lemma_hex_digit(b);
    assert(seq![a, b].drop_last() =~= seq![a]);
    assert(seq![a].drop_last() =~= Seq::empty());
    assert(hex_value(seq![a].drop_last()) == Some(0int));
    assert(seq![a, b].last() == b);
    assert(seq![a].last() == a);
    reveal_with_fuel(hex_value, 3);
}

proof fn lemma_hex_four(a: char, b: char, c: char, d: char)
    ensures
        is_hex(a) && is_hex(b) && is_hex(c) && is_hex(d) ==> hex_value(seq![a, b, c, d]) == Some(
            digit_of(a) * 4096 + digit_of(b) * 256 + digit_of(c) * 16 + digit_of(d),
        ),
        !is_hex(a) ==> hex_value(seq![a, b, c, d]) is None,
{
    lemma_hex_two(a, b);
    lemma_hex_digit(c);
    lemma_hex_digit(d);
    let three = seq![a, b, c];
    let four = seq![a, b, c, d];
    assert(four.drop_last() =~= three);
    assert(three.drop_last() =~= seq![a, b]);
    assert(four.last() == d && three.last() == c);
    assert(hex_value(three) == match (hex_value(seq![a, b]), hex_digit(c)) {
        (Some(n), Some(x)) => Some(n * 16 + x),
        _ => None,
    });
}

/// The glyph that stands at `i` is read as what it means.
proof fn lemma_glyph(
    s: Seq<char>,
    i: int,
    g: Glyph,
    close: char,
    key: bool,
    context: Context,
    out: Seq<char>,
)
    requires
        context == Context::ObjectKey || context == Context::ObjectValue || context
            == Context::Array,
        context == Context::ObjectKey ==> key,
        close == '"' || close == '\'' || close == '\u{201d}',
        glyph_is_proper(g, close, key),
        stands(s, i, glyph_text(g, close)),
        g is Quote ==> (at(s, i + 2) matches Some(c) && is_plain_char(c)),
        g is Broken ==> (at(s, i + 2) matches Some(c) && !is_hex(c)),
    ensures
        string_rest(s, i, close, context, out) == string_rest(
            s,
            i + glyph_text(g, close).len(),
            close,
            context,
            out.push(glyph_meaning(g, close)),
        ),
{
    let t = glyph_text(g, close);
    lemma_part_stands(s, i, t, 0, t.len() as int);
    assert(s[i + 0] == t[0]);
    match g {
        Glyph::Plain(c) => {},
        Glyph::Letter(c) => {
            assert(s[i + 1] == t[1]);
        },
        Glyph::Quote => {
            assert(s[i + 1] == t[1]);
            lemma_no_trivia(s, i + 2);
            assert(!string_can_close(s, i + 2, context));
        },
        Glyph::Four(a, b, c, d) => {
            assert(s[i + 1] == t[1]);
            assert(s[i + 2] == t[2] && s[i + 3] == t[3] && s[i + 4] == t[4] && s[i + 5] == t[5]);
            assert(s.subrange(i + 2, i + 6) =~= seq![a, b, c, d]);
            lemma_hex_four(a, b, c, d);
            lemma_hex_digit(a);
            lemma_hex_digit(b);
            lemma_hex_digit(c);
            lemma_hex_digit(d);
        },
        Glyph::Two(a, b) => {
            assert(s[i + 1] == t[1]);
            assert(s[i + 2] == t[2] && s[i + 3] == t[3]);
            assert(s.subrange(i + 2, i + 4) =~= seq![a, b]);
            lemma_hex_two(a, b);
            lemma_hex_digit(a);
            lemma_hex_digit(b);
        },
        Glyph::Broken(c) => {
            assert(s[i + 1] == t[1]);
            if i + 6 <= s.len() {
                assert(s.subrange(i + 2, i + 6) =~= seq![s[i + 2], s[i + 3], s[i + 4], s[i + 5]]);
                lemma_hex_four(s[i + 2], s[i + 3], s[i + 4], s[i + 5]);
            }
            if i + 4 <= s.len() {
                assert(s.subrange(i + 2, i + 4) =~= seq![s[i + 2], s[i + 3]]);
                lemma_hex_two(s[i + 2], s[i + 3]);
            }
        },
    }
}

/// Where the first glyph and the others stand.
proof fn lemma_first_glyph(s: Seq<char>, i: int, glyphs: Seq<Glyph>, close: char, key: bool)
    requires
        glyphs.len() > 0,
        glyphs_are_proper(glyphs, close, key),
        stands(s, i, glyphs_text(glyphs, close)),
    ensures
        glyph_is_proper(glyphs[0], close, key),
        stands(s, i, glyph_text(glyphs[0], close)),
        glyphs[0] is Quote ==> (at(s, i + 2) matches Some(c) && is_plain_char(c)),
        glyphs[0] is Broken ==> (at(s, i + 2) matches Some(c) && !is_hex(c)),
        glyphs_are_proper(glyphs.skip(1), close, key),
        stands(s, i + glyph_text(glyphs[0], close).len(), glyphs_text(glyphs.skip(1), close)),
{
    let g = glyphs[0];
    let rest = glyphs.skip(1);
    let text = glyphs_text(glyphs, close);
    let n = glyph_text(g, close).len() as int;
    assert(glyph_is_proper(g, close, key));
    lemma_part_stands(s, i, text, 0, text.len() as int);
    lemma_part_stands(s, i, text, 0, n);
    assert(text.subrange(0, n) =~= glyph_text(g, close));
    lemma_part_stands(s, i, text, n, text.len() as int);
    assert(text.subrange(n, text.len() as int) =~= glyphs_text(rest, close));
    assert forall|k: int| 0 <= k < rest.len() implies glyph_is_proper(
        #[trigger] rest[k],
        close,
        key,
    ) by {
        assert(rest[k] == glyphs[k + 1]);
    }
    assert forall|k: int| 0 <= k < rest.len() implies #[trigger] glyph_goes_on(rest, k) by {
        assert(glyph_goes_on(glyphs, k + 1));
        assert(rest[k] == glyphs[k + 1]);
        if k + 1 < rest.len() {
            assert(rest[k + 1] == glyphs[k + 2]);
        }
    }
    if g is Quote || g is Broken {
        assert(glyph_goes_on(glyphs, 0));
        assert(rest[0] == glyphs[1]);
        assert(text[n] == glyph_text(rest[0], close)[0]);
        assert(s[i + n] == text[n]);
    }
}

/// Glyphs one after the other are read as what they mean.
proof fn lemma_glyphs(
    s: Seq<char>,
    i: int,
    glyphs: Seq<Glyph>,
    close: char,
    key: bool,
    context: Context,
    out: Seq<char>,
)
    requires
        context == Context::ObjectKey || context == Context::ObjectValue || context
            == Context::Array,
        context == Context::ObjectKey ==> key,
        close == '"' || close == '\'' || close == '\u{201d}',
        glyphs_are_proper(glyphs, close, key),
        stands(s, i, glyphs_text(glyphs, close)),
    ensures
        string_rest(s, i, close, context, out) == string_rest(
            s,
            i + glyphs_text(glyphs, close).len(),
            close,
            context,
            out + glyphs_meaning(glyphs, close),
        ),
    decreases glyphs.len(),
{
    if glyphs.len() == 0 {
        assert(out + glyphs_meaning(glyphs, close) =~= out);
    } else {
        let g = glyphs[0];
        let rest = glyphs.skip(1);
        let n = glyph_text(g, close).len() as int;
        let text = glyphs_text(rest, close);
        lemma_first_glyph(s, i, glyphs, close, key);
        lemma_glyph(s, i, g, close, key, context, out);
        let grown = out.push(glyph_meaning(g, close));
        lemma_glyphs(s, i + n, rest, close, key, context, grown);
        assert(out + glyphs_meaning(glyphs, close) =~= grown + glyphs_meaning(rest, close));
        assert(i + glyphs_text(glyphs, close).len() == i + n + text.len());
    }
}

/// A string with escapes is read as what they stand for.
pub proof fn lemma_escapes_are_read(
    s: Seq<char>,
    i: int,
    open: char,
    close: char,
    glyphs: Seq<Glyph>,
    w: Seq<char>,
    strict: bool,
)
    requires
        is_pair(open, close),
        glyphs_are_proper(glyphs, close, false),
        is_kept(Seq::empty(), glyphs_meaning(glyphs, close), Seq::empty(), Seq::empty()),
        stands(s, i, string_between(open, glyphs_text(glyphs, close), close)),
        value_ends(s, i + glyphs_text(glyphs, close).len() + 2, w),
    ensures
        value_at(s, i, Context::ObjectValue, strict) == Outcome::Value(
            Json::String(glyphs_meaning(glyphs, close)),
            i + glyphs_text(glyphs, close).len() + 2,
        ),
        value_at(s, i, Context::Array, strict) == Outcome::Value(
            Json::String(glyphs_meaning(glyphs, close)),
            i + glyphs_text(glyphs, close).len() + 2,
        ),
{
    let none = Seq::<char>::empty();
    let u = glyphs_meaning(glyphs, close);
    let n = i + 1 + glyphs_text(glyphs, close).len();
    lemma_between(s, i, open, close, glyphs_text(glyphs, close));
    lemma_glyphs(s, i + 1, glyphs, close, false, Context::ObjectValue, none);
    lemma_glyphs(s, i + 1, glyphs, close, false, Context::Array, none);
    lemma_value_ends(s, n + 1, w);
    assert(none + u =~= u);
    assert(none + u + none + none =~= u);
    lemma_kept(none, u, none, none);
    lemma_no_trivia(s, i);
}

/// A key with escapes is read as what they stand for.
pub proof fn lemma_escapes_in_keys_are_read(
    s: Seq<char>,
    i: int,
    open: char,
    close: char,
    glyphs: Seq<Glyph>,
    w: Seq<char>,
)
    requires
        is_pair(open, close),
        glyphs_are_proper(glyphs, close, true),
        is_kept(Seq::empty(), glyphs_meaning(glyphs, close), Seq::empty(), Seq::empty()),
        stands(s, i, string_between(open, glyphs_text(glyphs, close), close)),
        all_white(w),
        stands(s, i + glyphs_text(glyphs, close).len() + 2, w),
        at(s, i + glyphs_text(glyphs, close).len() + 2 + w.len()) matches Some(c) && (c == ':' || c
            == ',' || c == '}'),
    ensures
        object_key(s, i) == (
            glyphs_meaning(glyphs, close),
            i + glyphs_text(glyphs, close).len() + 2,
        ),
{
    let none = Seq::<char>::empty();
    let u = glyphs_meaning(glyphs, close);
    let n = i + 1 + glyphs_text(glyphs, close).len();
    lemma_between(s, i, open, close, glyphs_text(glyphs, close));
    lemma_glyphs(s, i + 1, glyphs, close, true, Context::ObjectKey, none);
    lemma_white_stands(s, n + 1, w);
    lemma_no_trivia(s, n + 1 + w.len());
    assert(skip_trivia(s, n + 1, false) == skip_trivia(s, n + 1 + w.len(), false));
    assert(none + u =~= u);
    assert(none + u + none + none =~= u);
    lemma_kept(none, u, none, none);
    lemma_no_trivia(s, i);
}

proof fn lemma_between(s: Seq<char>, i: int, open: char, close: char, t: Seq<char>)
    requires
        stands(s, i, string_between(open, t, close)),
    ensures
        at(s, i) == Some(open),
        stands(s, i + 1, t),
        at(s, i + 1 + t.len()) == Some(close),
{
    let m = t.len() as int;
    let whole = string_between(open, t, close);
    lemma_part_stands(s, i, whole, 0, whole.len() as int);
    assert(s[i + 0] == whole[0]);
    assert(s[i + (m + 1)] == whole[m + 1]);
    lemma_part_stands(s, i, whole, 1, m + 1);
    assert(whole.subrange(1, m + 1) =~= t);
}

/// A string whose quotation marks are escaped is read as one whose quotation marks are not.
pub proof fn lemma_escaped_quotes(
    s: Seq<char>,
    i: int,
    open: char,
    close: char,
    lead: Seq<char>,
    u: Seq<char>,
    trail: Seq<char>,
    ticks: Seq<char>,
    w: Seq<char>,
    strict: bool,
)
    requires
        is_pair(open, close),
        is_kept(lead, u, trail, ticks),
        stands(
            s,
            i,
            seq!['\\', open] + (lead + u + trail + ticks) + seq!['\\', close],
        ),
        lacks(lead + u + trail + ticks, close),
        lacks(lead + u + trail + ticks, '\\'),
        lacks(lead + u + trail + ticks, ']'),
        lacks(lead + u + trail + ticks, '}'),
        value_ends(s, i + (lead + u + trail + ticks).len() + 4, w),
    ensures
        value_at(s, i, Context::ObjectValue, strict) == Outcome::Value(
            Json::String(u),
            i + (lead + u + trail + ticks).len() + 4,
        ),
        value_at(s, i, Context::Array, strict) == Outcome::Value(
            Json::String(u),
            i + (lead + u + trail + ticks).len() + 4,
        ),
{
    let t = lead + u + trail + ticks;
    let n = i + 2 + t.len();
    lemma_escaped_between(s, i, open, close, t);
    lemma_string_body(s, i + 2, n, close, Context::ObjectValue, Seq::empty());
    lemma_string_body(s, i + 2, n, close, Context::Array, Seq::empty());
    assert(Seq::empty() + s.subrange(i + 2, n) =~= t);
    lemma_value_ends(s, n + 2, w);
    lemma_kept(lead, u, trail, ticks);
    lemma_no_trivia(s, i);
}

proof fn lemma_escaped_between(s: Seq<char>, i: int, open: char, close: char, t: Seq<char>)
    requires
        stands(s, i, seq!['\\', open] + t + seq!['\\', close]),
    ensures
        at(s, i) == Some('\\'),
        at(s, i + 1) == Some(open),
        s.subrange(i + 2, i + 2 + t.len()) == t,
        forall|k: int| i + 2 <= k < i + 2 + t.len() ==> #[trigger] s[k] == t[k - i - 2],
        at(s, i + 2 + t.len()) == Some('\\'),
        at(s, i + 3 + t.len()) == Some(close),
{
    let m = t.len() as int;
    let whole = seq!['\\', open] + t + seq!['\\', close];
    lemma_part_stands(s, i, whole, 0, whole.len() as int);
    assert(s[i + 0] == whole[0] && s[i + 1] == whole[1]);
    assert(s[i + (m + 2)] == whole[m + 2]);
    assert(s[i + (m + 3)] == whole[m + 3]);
    lemma_part_stands(s, i, whole, 2, m + 2);
    assert(whole.subrange(2, m + 2) =~= t);
    assert forall|k: int| i + 2 <= k < i + 2 + t.len() implies #[trigger] s[k] == t[k - i - 2] by {
        assert(s[i + (k - i)] == whole[k - i]);
    }
}

/// A key whose quotation marks are escaped is read as one whose quotation marks are not.
pub proof fn lemma_escaped_quotes_of_keys(
    s: Seq<char>,
    i: int,
    open: char,
    close: char,
    lead: Seq<char>,
    u: Seq<char>,
    trail: Seq<char>,
    ticks: Seq<char>,
    w: Seq<char>,
)
    requires
        is_pair(open, close),
        is_kept(lead, u, trail, ticks),
        stands(
            s,
            i,
            seq!['\\', open] + (lead + u + trail + ticks) + seq!['\\', close],
        ),
        lacks(lead + u + trail + ticks, close),
        lacks(lead + u + trail + ticks, '\\'),
        lacks(lead + u + trail + ticks, ':'),
        lacks(lead + u + trail + ticks, '}'),
        lacks(lead + u + trail + ticks, '\n'),
        lacks(lead + u + trail + ticks, '\r'),
        all_white(w),
        stands(s, i + (lead + u + trail + ticks).len() + 4, w),
        at(s, i + (lead + u + trail + ticks).len() + 4 + w.len()) matches Some(c) && (c == ':' || c
            == ',' || c == '}'),
    ensures
        object_key(s, i) == (u, i + (lead + u + trail + ticks).len() + 4),
{
    let t = lead + u + trail + ticks;
    let n = i + 2 + t.len();
    lemma_escaped_between(s, i, open, close, t);
    lemma_string_body(s, i + 2, n, close, Context::ObjectKey, Seq::empty());
    assert(Seq::empty() + s.subrange(i + 2, n) =~= t);
    lemma_white_stands(s, n + 2, w);
    lemma_no_trivia(s, n + 2 + w.len());
    assert(skip_trivia(s, n + 2, false) == skip_trivia(s, n + 2 + w.len(), false));
    lemma_kept(lead, u, trail, ticks);
    lemma_no_trivia(s, i);
}

/// A string that ends without a closing quotation mark.
#[verifier::spinoff_prover]
proof fn lemma_open_string(
    s: Seq<char>,
    i: int,
    open: char,
    close: char,
    t: Seq<char>,
    context: Context,
)
    requires
        is_pair(open, close),
        stands(s, i, seq![open] + t),
        forall|k: int|
            0 <= k < t.len() ==> #[trigger] t[k] != '\\' && t[k] != close && !close_is_missing(
                t[k],
                context,
            ),
        match at(s, i + 1 + t.len()) {
            Some(c) => c != '\\' && c != close && close_is_missing(c, context),
            None => true,
        },
    ensures
        at(s, i) == Some(open),
        quoted_string(s, i, context) == (tidy_string(t), i + 1 + t.len()),
{
    let n = i + 1 + t.len();
    lemma_opened(s, i, open, t);
    assert(Seq::empty() + s.subrange(i + 1, n) =~= t);
    lemma_string_body(s, i + 1, n, close, context, Seq::empty());
    assert(string_rest(s, n, close, context, t) == (t, n));
}

/// A string whose closing quotation mark is missing ends before the brace or bracket that closes
/// what it stands in, or at the end of the text.
pub proof fn lemma_missing_quote(
    s: Seq<char>,
    i: int,
    open: char,
    close: char,
    lead: Seq<char>,
    u: Seq<char>,
    trail: Seq<char>,
    ticks: Seq<char>,
    strict: bool,
)
    requires
        is_pair(open, close),
        is_kept(lead, u, trail, ticks),
        stands(s, i, seq![open] + (lead + u + trail + ticks)),
        lacks(lead + u + trail + ticks, close),
        lacks(lead + u + trail + ticks, '\\'),
        lacks(lead + u + trail + ticks, ']'),
    ensures
        ({
            let n = i + 1 + (lead + u + trail + ticks).len();
            &&& (at(s, n) == Some('}') || at(s, n) == Some(']') || at(s, n) is None) && lacks(
                lead + u + trail + ticks,
                '}',
            ) ==> value_at(s, i, Context::ObjectValue, strict) == Outcome::Value(Json::String(u), n)
            &&& at(s, n) == Some(']') || at(s, n) is None ==> value_at(s, i, Context::Array, strict)
                == Outcome::Value(Json::String(u), n)
        }),
{
    let t = lead + u + trail + ticks;
    let n = i + 1 + t.len();
    lemma_opened(s, i, open, t);
    lemma_kept(lead, u, trail, ticks);
    if at(s, n) == Some(']') || at(s, n) is None {
        lemma_open_string(s, i, open, close, t, Context::Array);
    }
    if (at(s, n) == Some('}') || at(s, n) == Some(']') || at(s, n) is None) && lacks(t, '}') {
        lemma_open_string(s, i, open, close, t, Context::ObjectValue);
    }
    lemma_no_trivia(s, i);
}

proof fn lemma_opened(s: Seq<char>, i: int, open: char, t: Seq<char>)
    requires
        stands(s, i, seq![open] + t),
    ensures
        at(s, i) == Some(open),
        s.subrange(i + 1, i + 1 + t.len()) == t,
        forall|k: int| i + 1 <= k < i + 1 + t.len() ==> #[trigger] s[k] == t[k - i - 1],
{
    let m = t.len() as int;
    let whole = seq![open] + t;
    lemma_part_stands(s, i, whole, 0, whole.len() as int);
    assert(s[i + 0] == whole[0]);
    lemma_part_stands(s, i, whole, 1, m + 1);
    assert(whole.subrange(1, m + 1) =~= t);
    assert forall|k: int| i + 1 <= k < i + 1 + t.len() implies #[trigger] s[k] == t[k - i - 1] by {
        assert(s[i + (k - i)] == whole[k - i]);
    }
}

/// A key whose closing quotation mark is missing ends before the colon, before a closing brace,
/// and at the end of its line.
pub proof fn lemma_missing_quote_of_key(
    s: Seq<char>,
    i: int,
    open: char,
    close: char,
    lead: Seq<char>,
    u: Seq<char>,
    trail: Seq<char>,
    ticks: Seq<char>,
)
    requires
        is_pair(open, close),
        is_kept(lead, u, trail, ticks),
        stands(s, i, seq![open] + (lead + u + trail + ticks)),
        lacks(lead + u + trail + ticks, close),
        lacks(lead + u + trail + ticks, '\\'),
        lacks(lead + u + trail + ticks, ':'),
        lacks(lead + u + trail + ticks, '}'),
        lacks(lead + u + trail + ticks, '\n'),
        lacks(lead + u + trail + ticks, '\r'),
        match at(s, i + 1 + (lead + u + trail + ticks).len()) {
            Some(c) => c == ':' || c == '}' || c == '\n' || c == '\r',
            None => true,
        },
    ensures
        object_key(s, i) == (u, i + 1 + (lead + u + trail + ticks).len()),
{
    let t = lead + u + trail + ticks;
    lemma_open_string(s, i, open, close, t, Context::ObjectKey);
    lemma_kept(lead, u, trail, ticks);
    lemma_no_trivia(s, i);
}

/// Outside any value a string whose closing quotation mark is missing is the rest of the text.
pub proof fn lemma_missing_quote_outside(
    s: Seq<char>,
    i: int,
    open: char,
    close: char,
    lead: Seq<char>,
    u: Seq<char>,
    trail: Seq<char>,
    ticks: Seq<char>,
    context: Context,
    strict: bool,
)
    requires
        context == Context::Start || context == Context::Top,
        is_pair(open, close),
        is_kept(lead, u, trail, ticks),
        stands(s, i, seq![open] + (lead + u + trail + ticks)),
        lacks(lead + u + trail + ticks, close),
        lacks(lead + u + trail + ticks, '\\'),
        i + 1 + (lead + u + trail + ticks).len() == s.len(),
    ensures
        value_at(s, i, context, strict) == Outcome::Value(Json::String(u), s.len() as int),
{
    let t = lead + u + trail + ticks;
    lemma_open_string(s, i, open, close, t, context);
    lemma_kept(lead, u, trail, ticks);
    lemma_no_trivia(s, i);
}

} // verus!
