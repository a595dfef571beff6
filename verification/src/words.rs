//! Values without quotation marks: where they end, and what they are.

use crate::chars::{is_ascii_digit, is_letter, is_white};
use crate::gaps::{all_white, lemma_no_trivia, lemma_white_run, lemma_white_stands};
use crate::grammar::{value_at, Outcome};
use crate::number::{
    all_digits, bare_value, completed, digit_run, digits_value, double_text, is_complete_token,
    is_decimal, is_decimal_text, is_float_text, number_of, numeric_shape, unwrapped, without,
};
use crate::quoting::{
    is_plain_char, lemma_member_ahead, lemma_trim_white, member_ahead, opens_any_value, value_ends,
};
use crate::scan::{at, skip_white, Context};
use crate::standard::{lemma_part_stands, stands};
use crate::text::{lower_char, lowered, trimmed, trimmed_end, Trim};
use crate::token::{bare_ends, bare_rest, bare_token, tidy_bare, Stops};
use crate::value::{Json, Num, Number};
use crate::writer::{digits_text, number_text};
use vstd::prelude::*;

verus! {

/// The characters of a plain token.
pub open spec fn is_token_char(c: char) -> bool {
    is_plain_char(c) || c == '.' || c == '+'
}

/// A token without whitespace: it starts with a letter, a digit, an underline, a minus sign or a
/// point, and does not end with a point.
pub open spec fn is_token(b: Seq<char>) -> bool {
    &&& b.len() > 0
    &&& forall|k: int| 0 <= k < b.len() ==> is_token_char(#[trigger] b[k])
    &&& b[0] != '+'
    &&& b.last() != '.'
}

/// Whether a text spells a word, in small or capital letters.
pub open spec fn spells(b: Seq<char>, w: Seq<char>) -> bool {
    &&& b.len() == w.len()
    &&& forall|k: int|
        0 <= k < b.len() ==> #[trigger] b[k] == w[k] || ('A' <= b[k] <= 'Z' && b[k] as int + 32
            == w[k] as int)
}

/// The spellings of true, with letters left out at its end.
pub open spec fn spells_true(b: Seq<char>) -> bool {
    spells(b, seq!['t', 'r', 'u', 'e']) || spells(b, seq!['t', 'r', 'u']) || spells(b, seq!['t'])
}

/// The spellings of false.
pub open spec fn spells_false(b: Seq<char>) -> bool {
    spells(b, seq!['f', 'a', 'l', 's', 'e']) || spells(b, seq!['f', 'a', 'l', 's']) || spells(
        b,
        seq!['f'],
    )
}

/// The spellings of null, and the word that Python has for it.
pub open spec fn spells_null(b: Seq<char>) -> bool {
    spells(b, seq!['n', 'u', 'l', 'l']) || spells(b, seq!['n', 'o', 'n', 'e']) || spells(
        b,
        seq!['n', 'u', 'l'],
    ) || spells(b, seq!['n'])
}

proof fn lemma_trim_nothing(t: Seq<char>, what: Trim)
    requires
        t.len() > 0 ==> !what.spec_matches(t[0]) && !what.spec_matches(t.last()),
    ensures
        trimmed(t, what) == t,
        trimmed_end(t, what) == t,
{
}

pub proof fn lemma_token_is_tidy(b: Seq<char>)
    requires
        is_token(b),
    ensures
        unwrapped(b) == b,
        tidy_bare(b) == b,
        trimmed(b, Trim::White) == b,
{
    assert(is_token_char(b[0]) && is_token_char(b[b.len() - 1]));
    lemma_trim_nothing(b, Trim::White);
    lemma_trim_nothing(b, Trim::Only('`'));
    assert(trimmed_end(b, Trim::Only('.')) == b);
}

pub proof fn lemma_tidy_with_white(b: Seq<char>, w: Seq<char>)
    requires
        is_token(b),
        all_white(w),
    ensures
        tidy_bare(b + w) == b,
{
    assert(is_token_char(b[0]) && is_token_char(b[b.len() - 1]));
    assert(Seq::<char>::empty() + b + w =~= b + w);
    lemma_trim_white(Seq::empty(), b, w);
    lemma_trim_nothing(b, Trim::Only('`'));
    lemma_trim_nothing(b, Trim::White);
}

proof fn lemma_lowered(b: Seq<char>, w: Seq<char>)
    requires
        forall|k: int| 0 <= k < w.len() ==> 'a' <= #[trigger] w[k] <= 'z',
    ensures
        spells(b, w) == (lowered(b) == w),
{
    if spells(b, w) {
        assert(lowered(b) =~= w);
    }
    if lowered(b) == w {
        assert forall|k: int| 0 <= k < b.len() implies #[trigger] b[k] == w[k] || ('A' <= b[k]
            <= 'Z' && b[k] as int + 32 == w[k] as int) by {
            assert(lowered(b)[k] == lower_char(b[k]));
        }
    }
}

pub proof fn lemma_words(b: Seq<char>)
    ensures
        crate::number::is_true_word(lowered(b)) == spells_true(b),
        crate::number::is_false_word(lowered(b)) == spells_false(b),
        crate::number::is_null_word(lowered(b)) == spells_null(b),
        lowered(b) == "..."@ ==> b.len() == 3 && b.last() == '.',
{
    reveal_strlit("true");
    reveal_strlit("tru");
    reveal_strlit("t");
    reveal_strlit("false");
    reveal_strlit("fals");
    reveal_strlit("f");
    reveal_strlit("null");
    reveal_strlit("none");
    reveal_strlit("nul");
    reveal_strlit("n");
    reveal_strlit("...");
    assert("true"@ =~= seq!['t', 'r', 'u', 'e']);
    assert("tru"@ =~= seq!['t', 'r', 'u']);
    assert("t"@ =~= seq!['t']);
    assert("false"@ =~= seq!['f', 'a', 'l', 's', 'e']);
    assert("fals"@ =~= seq!['f', 'a', 'l', 's']);
    assert("f"@ =~= seq!['f']);
    assert("null"@ =~= seq!['n', 'u', 'l', 'l']);
    assert("none"@ =~= seq!['n', 'o', 'n', 'e']);
    assert("nul"@ =~= seq!['n', 'u', 'l']);
    assert("n"@ =~= seq!['n']);
    lemma_lowered(b, seq!['t', 'r', 'u', 'e']);
    lemma_lowered(b, seq!['t', 'r', 'u']);
    lemma_lowered(b, seq!['t']);
    lemma_lowered(b, seq!['f', 'a', 'l', 's', 'e']);
    lemma_lowered(b, seq!['f', 'a', 'l', 's']);
    lemma_lowered(b, seq!['f']);
    lemma_lowered(b, seq!['n', 'u', 'l', 'l']);
    lemma_lowered(b, seq!['n', 'o', 'n', 'e']);
    lemma_lowered(b, seq!['n', 'u', 'l']);
    lemma_lowered(b, seq!['n']);
    if lowered(b) == "..."@ {
        assert(lowered(b).len() == b.len());
        assert(lowered(b)[2] == '.');
        assert(lowered(b)[2] == lower_char(b[2]));
    }
}

/// The words for true, false and null have those values, in any mix of small and capital
/// letters.
pub proof fn lemma_literal_words(b: Seq<char>)
    ensures
        spells_true(b) ==> bare_value(b) == Json::Bool(true),
        spells_false(b) ==> bare_value(b) == Json::Bool(false),
        spells_null(b) ==> bare_value(b) == Json::Null,
{
    if spells_true(b) || spells_false(b) || spells_null(b) {
        assert(is_token(b)) by {
            assert forall|k: int| 0 <= k < b.len() implies is_token_char(#[trigger] b[k]) by {}
        }
        lemma_token_is_tidy(b);
        lemma_words(b);
    }
}

pub proof fn lemma_without_none(t: Seq<char>, c: char)
    requires
        forall|k: int| 0 <= k < t.len() ==> #[trigger] t[k] != c,
    ensures
        without(t, c) == t,
    decreases t.len(),
{
    if t.len() > 0 {
        lemma_without_none(t.drop_last(), c);
        assert(t.drop_last().push(t.last()) =~= t);
    }
}

proof fn lemma_without_append(a: Seq<char>, b: Seq<char>, c: char)
    ensures
        without(a + b, c) == without(a, c) + without(b, c),
    decreases b.len(),
{
    if b.len() == 0 {
        assert(a + b =~= a);
        assert(without(a, c) + without(b, c) =~= without(a, c));
    } else {
        lemma_without_append(a, b.drop_last(), c);
        assert((a + b).drop_last() =~= a + b.drop_last());
        assert((a + b).last() == b.last());
        if b.last() != c {
            assert(without(a, c) + without(b.drop_last(), c).push(b.last()) =~= (without(a, c)
                + without(b.drop_last(), c)).push(b.last()));
        }
    }
}

/// A word of letters that spells none of these is its own text.
pub proof fn lemma_other_words_are_text(b: Seq<char>)
    requires
        is_token(b),
        !spells_true(b),
        !spells_false(b),
        !spells_null(b),
        exists|k: int|
            0 <= k < b.len() && ('a' <= #[trigger] b[k] <= 'z' || 'A' <= b[k] <= 'Z') && b[k] != 'e'
                && b[k] != 'E',
    ensures
        bare_value(b) == Json::String(b),
{
    lemma_token_is_tidy(b);
    lemma_words(b);
    let k = choose|k: int|
        0 <= k < b.len() && ('a' <= #[trigger] b[k] <= 'z' || 'A' <= b[k] <= 'Z') && b[k] != 'e'
            && b[k] != 'E';
    lemma_without_keeps(b, '_', k);
    let p = without(b, '_');
    let j = choose|j: int| 0 <= j < p.len() && p[j] == b[k];
    assert(is_letter(p[j]));
    assert(!numeric_shape(p));
}

pub proof fn lemma_without_keeps(t: Seq<char>, c: char, k: int)
    requires
        0 <= k < t.len(),
        t[k] != c,
    ensures
        exists|j: int| 0 <= j < without(t, c).len() && without(t, c)[j] == t[k],
    decreases t.len(),
{
    if k == t.len() - 1 {
        let p = without(t, c);
        assert(p[p.len() - 1] == t[k]);
    } else {
        lemma_without_keeps(t.drop_last(), c, k);
        let before = without(t.drop_last(), c);
        let j = choose|j: int| 0 <= j < before.len() && before[j] == t.drop_last()[k];
        assert(without(t, c)[j] == t[k]);
    }
}

/// A token with a minus sign after its first character, such as a range, is its own text.
pub proof fn lemma_ranges_are_text(b: Seq<char>, k: int)
    requires
        is_token(b),
        0 < k < b.len(),
        b[k] == '-',
        forall|j: int| 0 <= j < b.len() ==> #[trigger] b[j] != '_',
    ensures
        bare_value(b) == Json::String(b),
{
    lemma_token_is_tidy(b);
    lemma_words(b);
    lemma_without_none(b, '_');
    assert(!numeric_shape(b));
    assert(!spells_true(b) && !spells_false(b) && !spells_null(b)) by {
        assert(b[k] == '-');
    }
}

proof fn lemma_digits(n: int)
    requires
        0 <= n,
    ensures
        digits_text(n).len() > 0,
        all_digits(digits_text(n)),
        digits_value(digits_text(n)) == n,
    decreases n,
{
    let t = digits_text(n);
    if n < 10 {
        assert(t.drop_last() =~= Seq::empty());
        assert(digits_value(t.drop_last()) == 0);
    } else {
        lemma_digits(n / 10);
        assert(t.drop_last() =~= digits_text(n / 10));
    }
}

/// An optional minus sign and digits, without a value in doubt.
pub open spec fn is_numeral(b: Seq<char>) -> bool {
    &&& b.len() > 0
    &&& b[0] == '-' ==> b.len() > 1
    &&& forall|k: int|
        0 <= k < b.len() ==> is_ascii_digit(#[trigger] b[k]) || (k == 0 && b[0] == '-')
}

pub proof fn lemma_numeral(b: Seq<char>)
    requires
        is_numeral(b),
    ensures
        is_token(b),
        unwrapped(b) == b,
        without(b, '_') == b,
        numeric_shape(b),
        completed(b) == b,
        !is_decimal(b),
        !spells_true(b) && !spells_false(b) && !spells_null(b),
{
    assert forall|k: int| 0 <= k < b.len() implies is_token_char(#[trigger] b[k]) by {}
    assert(is_ascii_digit(b[b.len() - 1]));
    lemma_token_is_tidy(b);
    lemma_without_none(b, '_');
}

/// An integer is read as itself if it has 64 bits at most, and is its own text otherwise.
pub proof fn lemma_integers(i: int)
    ensures
        i64::MIN <= i <= u64::MAX ==> bare_value(number_text(Num::Int(i))) == Json::Number(
            Num::Int(i),
        ),
        !(i64::MIN <= i <= u64::MAX) ==> bare_value(number_text(Num::Int(i))) == Json::String(
            number_text(Num::Int(i)),
        ),
{
    let b = number_text(Num::Int(i));
    if i < 0 {
        lemma_digits(-i);
        assert(b.skip(1) =~= digits_text(-i));
        assert forall|k: int| 0 <= k < b.len() implies is_ascii_digit(#[trigger] b[k]) || (k == 0
            && b[0] == '-') by {
            if k > 0 {
                assert(b[k] == digits_text(-i)[k - 1]);
            }
        }
    } else {
        lemma_digits(i);
        assert(is_ascii_digit(b[0]));
    }
    lemma_numeral(b);
    lemma_words(b);
}

/// Underlines between the digits of an integer do not count.
pub proof fn lemma_underlines(a: Seq<char>, c: Seq<char>)
    requires
        is_numeral(a),
        is_numeral(c),
        c[0] != '-',
    ensures
        bare_value(a + c) is Number ==> bare_value(a + seq!['_'] + c) == bare_value(a + c),
        number_of(a + seq!['_'] + c) == number_of(a + c),
{
    let b = a + seq!['_'] + c;
    assert(is_numeral(a + c)) by {
        assert forall|k: int| 0 <= k < (a + c).len() implies is_ascii_digit(#[trigger] (a + c)[k])
            || (k == 0 && (a + c)[0] == '-') by {
            if k >= a.len() {
                assert((a + c)[k] == c[k - a.len()]);
            }
        }
    }
    lemma_numeral(a + c);
    lemma_numeral(a);
    lemma_numeral(c);
    assert(is_token(b)) by {
        assert forall|k: int| 0 <= k < b.len() implies is_token_char(#[trigger] b[k]) by {
            if k < a.len() {
                assert(b[k] == a[k]);
            } else if k > a.len() {
                assert(b[k] == c[k - a.len() - 1]);
            }
        }
        assert(b.last() == c.last());
        assert(is_ascii_digit(c[c.len() - 1]));
    }
    lemma_token_is_tidy(b);
    lemma_words(b);
    lemma_words(a + c);
    lemma_without_append(a + seq!['_'], c, '_');
    lemma_without_append(a, seq!['_'], '_');
    assert(seq!['_'].drop_last() =~= Seq::<char>::empty());
    assert(without(Seq::<char>::empty(), '_') =~= Seq::<char>::empty());
    assert(without(seq!['_'], '_') =~= Seq::<char>::empty());
    assert(without(a, '_') + without(seq!['_'], '_') =~= a);
    assert(without(b, '_') =~= a + c);
    assert(b[a.len() as int] == '_');
    assert(!spells_true(b) && !spells_false(b) && !spells_null(b));
}

/// A point without digits before it has a zero there, and an exponent without digits is left
/// out.
pub proof fn lemma_numbers_are_completed(d: Seq<char>)
    requires
        is_numeral(d),
        d[0] != '-',
    ensures
        number_of(seq!['.'] + d) == number_of(seq!['0', '.'] + d),
        number_of(d + seq!['e']) == number_of(d),
        number_of(d + seq!['E']) == number_of(d),
{
    let a = seq!['.'] + d;
    let b = seq!['0', '.'] + d;
    lemma_numeral(d);
    assert forall|k: int| 1 <= k < a.len() implies is_ascii_digit(#[trigger] a[k]) by {
        assert(a[k] == d[k - 1]);
    }
    assert forall|k: int| 2 <= k < b.len() implies is_ascii_digit(#[trigger] b[k]) by {
        assert(b[k] == d[k - 2]);
    }
    lemma_without_none(a, '_');
    lemma_without_none(b, '_');
    assert(seq!['0'] + a =~= b);
    assert(numeric_shape(a) && numeric_shape(b));
    assert(completed(a) == b && completed(b) == b);
    assert forall|e: char| e == 'e' || e == 'E' implies #[trigger] number_of(d.push(e))
        == number_of(d) by {
        let x = d.push(e);
        assert forall|k: int| 0 <= k < d.len() implies is_ascii_digit(#[trigger] x[k]) by {
            assert(x[k] == d[k]);
        }
        lemma_without_none(x, '_');
        assert(numeric_shape(x));
        assert(x.drop_last() =~= d);
        assert(completed(x) == d);
    }
    assert(d + seq!['e'] =~= d.push('e'));
    assert(d + seq!['E'] =~= d.push('E'));
}

/// Digits with a point between them are the double that is nearest to them.
pub proof fn lemma_decimals(a: Seq<char>, c: Seq<char>, double: Seq<char>)
    requires
        is_numeral(a),
        is_numeral(c),
        c[0] != '-',
        double_text(a + seq!['.'] + c) == Some(double),
        is_float_text(double),
    ensures
        bare_value(a + seq!['.'] + c) == Json::Number(Num::Float(double)),
{
    let b = a + seq!['.'] + c;
    let p = a.len() as int;
    lemma_numeral(a);
    assert forall|k: int| 0 <= k < b.len() && k != p implies is_ascii_digit(#[trigger] b[k]) || (k
        == 0 && b[0] == '-') by {
        if k < p {
            assert(b[k] == a[k]);
        } else {
            assert(b[k] == c[k - p - 1]);
        }
    }
    assert(b[p] == '.');
    assert(b.last() == c.last() && is_ascii_digit(c[c.len() - 1]));
    assert(is_token(b)) by {
        assert forall|k: int| 0 <= k < b.len() implies is_token_char(#[trigger] b[k]) by {}
    }
    lemma_token_is_tidy(b);
    lemma_words(b);
    lemma_without_none(b, '_');
    assert(numeric_shape(b));
    assert(b.contains('.'));
    assert(completed(b) == b);
    let start = if b[0] == '-' {
        1int
    } else {
        0
    };
    lemma_digits_to(b, start, p);
    lemma_digits_to(b, p + 1, b.len() as int);
    assert(is_decimal_text(b));
    assert(!spells_true(b) && !spells_false(b) && !spells_null(b));
}

pub proof fn lemma_digits_to(t: Seq<char>, i: int, n: int)
    requires
        0 <= i <= n <= t.len(),
        forall|k: int| i <= k < n ==> is_ascii_digit(#[trigger] t[k]),
        n < t.len() ==> !is_ascii_digit(t[n]),
    ensures
        digit_run(t, i) == n,
    decreases n - i,
{
    if i < n {
        lemma_digits_to(t, i + 1, n);
    }
}

/// Characters that neither stop a token, nor are whitespace, nor start a comment go into it.
pub proof fn lemma_token_run(
    s: Seq<char>,
    i: int,
    n: int,
    stops: Stops,
    context: Context,
    out: Seq<char>,
)
    requires
        0 <= i <= n <= s.len(),
        forall|k: int|
            i <= k < n ==> !is_white(#[trigger] s[k]) && !stops.has(s[k]) && s[k] != '#' && s[k]
                != '/',
    ensures
        bare_rest(s, i, stops, context, out) == bare_rest(
            s,
            n,
            stops,
            context,
            out + s.subrange(i, n),
        ),
    decreases n - i,
{
    if i < n {
        assert(!is_white(s[i]));
        lemma_token_run(s, i + 1, n, stops, context, out.push(s[i]));
        assert(out.push(s[i]) + s.subrange(i + 1, n) =~= out + s.subrange(i, n));
    } else {
        assert(out + s.subrange(i, n) =~= out);
    }
}

/// Whitespace after which neither a member nor a value comes goes into a token.
pub proof fn lemma_white_token_run(
    s: Seq<char>,
    i: int,
    n: int,
    stops: Stops,
    context: Context,
    out: Seq<char>,
)
    requires
        0 <= i <= n <= s.len(),
        stops == Stops::Value || stops == Stops::Prose,
        forall|k: int| i <= k < n ==> is_white(#[trigger] s[k]),
        match at(s, n) {
            Some(c) => c == ',' || c == '}' || c == ']' || c == ')',
            None => true,
        },
    ensures
        bare_rest(s, i, stops, context, out) == bare_rest(
            s,
            n,
            stops,
            context,
            out + s.subrange(i, n),
        ),
    decreases n - i,
{
    if i < n {
        assert(is_white(s[i]));
        lemma_white_run(s, i, n);
        lemma_no_trivia(s, n);
        assert(skip_white(s, i) == n);
        assert(!bare_ends(s, i, stops, context, out));
        lemma_white_token_run(s, i + 1, n, stops, context, out.push(s[i]));
        assert(out.push(s[i]) + s.subrange(i + 1, n) =~= out + s.subrange(i, n));
    } else {
        assert(out + s.subrange(i, n) =~= out);
    }
}

pub proof fn lemma_token_chars(s: Seq<char>, i: int, b: Seq<char>)
    requires
        is_token(b),
        stands(s, i, b),
    ensures
        forall|k: int|
            i <= k < i + b.len() ==> !is_white(#[trigger] s[k]) && !Stops::Value.has(s[k])
                && !Stops::Prose.has(s[k]) && s[k] != '#' && s[k] != '/',
        s.subrange(i, i + b.len()) == b,
        s[i] == b[0],
        is_token_char(s[i]),
{
    lemma_part_stands(s, i, b, 0, b.len() as int);
    assert forall|k: int| i <= k < i + b.len() implies !is_white(#[trigger] s[k])
        && !Stops::Value.has(s[k]) && !Stops::Prose.has(s[k]) && s[k] != '#' && s[k] != '/' by {
        assert(s[i + (k - i)] == b[k - i]);
        assert(is_token_char(b[k - i]));
    }
    assert(s[i + 0] == b[0]);
    assert(is_token_char(b[0]));
}

pub proof fn lemma_token_value(s: Seq<char>, i: int, b: Seq<char>, context: Context, strict: bool)
    requires
        is_token(b),
        stands(s, i, b),
        context == Context::ObjectValue || context == Context::Array,
        bare_token(s, i, Stops::Value, context).0 == b,
    ensures
        value_at(s, i, context, strict) == Outcome::Value(
            bare_value(b),
            bare_token(s, i, Stops::Value, context).1,
        ),
{
    lemma_token_chars(s, i, b);
    lemma_token_is_tidy(b);
    lemma_no_trivia(s, i);
}

/// A token is read up to what ends a value, past the whitespace before that.
pub proof fn lemma_token_is_read(
    s: Seq<char>,
    i: int,
    b: Seq<char>,
    w: Seq<char>,
    context: Context,
    strict: bool,
)
    requires
        is_token(b),
        stands(s, i, b),
        context == Context::ObjectValue || context == Context::Array,
        value_ends(s, i + b.len(), w),
    ensures
        value_at(s, i, context, strict) == Outcome::Value(bare_value(b), i + b.len() + w.len()),
{
    let n = i + b.len();
    lemma_token_chars(s, i, b);
    lemma_token_run(s, i, n, Stops::Value, context, Seq::empty());
    assert(Seq::empty() + s.subrange(i, n) =~= b);
    lemma_part_stands(s, n, w, 0, w.len() as int);
    assert forall|k: int| n <= k < n + w.len() implies is_white(#[trigger] s[k]) by {
        assert(s[n + (k - n)] == w[k - n]);
    }
    lemma_white_token_run(s, n, n + w.len(), Stops::Value, context, b);
    assert(s.subrange(n, n + w.len()) =~= w);
    assert(bare_ends(s, n + w.len(), Stops::Value, context, b + w));
    lemma_tidy_with_white(b, w);
    lemma_token_value(s, i, b, context, strict);
}

/// A token in an object ends where the next member follows after whitespace, with the comma
/// left out.
pub proof fn lemma_token_ends_before_member(
    s: Seq<char>,
    i: int,
    b: Seq<char>,
    w: Seq<char>,
    name: Seq<char>,
    bare: bool,
    open: char,
    close: char,
    before_colon: Seq<char>,
    strict: bool,
)
    requires
        is_token(b),
        stands(s, i, b),
        member_ahead(s, i + b.len(), w, name, bare, open, close, before_colon),
    ensures
        value_at(s, i, Context::ObjectValue, strict) == Outcome::Value(bare_value(b), i + b.len()),
{
    let n = i + b.len();
    lemma_token_chars(s, i, b);
    lemma_token_run(s, i, n, Stops::Value, Context::ObjectValue, Seq::empty());
    assert(Seq::empty() + s.subrange(i, n) =~= b);
    lemma_member_ahead(s, n, w, name, bare, open, close, before_colon);
    assert(bare_ends(s, n, Stops::Value, Context::ObjectValue, b));
    lemma_token_is_tidy(b);
    lemma_token_value(s, i, b, Context::ObjectValue, strict);
}

/// Whether a token is complete by itself: a number starts it, or it is a word for true, false
/// or null.
pub open spec fn is_complete(b: Seq<char>) -> bool {
    ||| b.len() > 0 && ('0' <= b[0] <= '9' || b[0] == '-' || b[0] == '.')
    ||| spells_true(b)
    ||| spells_false(b)
    ||| spells_null(b)
}

/// A complete token in an array ends where the next value follows after whitespace, with the
/// comma left out.
pub proof fn lemma_token_ends_before_value(
    s: Seq<char>,
    i: int,
    b: Seq<char>,
    w: Seq<char>,
    strict: bool,
)
    requires
        is_token(b),
        is_complete(b),
        stands(s, i, b + w),
        all_white(w),
        w.len() > 0,
        at(s, i + b.len() + w.len()) matches Some(c) && opens_any_value(c),
    ensures
        value_at(s, i, Context::Array, strict) == Outcome::Value(bare_value(b), i + b.len()),
{
    let n = i + b.len();
    lemma_part_stands(s, i, b + w, 0, b.len() as int);
    assert((b + w).subrange(0, b.len() as int) =~= b);
    lemma_part_stands(s, i, b + w, b.len() as int, (b + w).len() as int);
    assert((b + w).subrange(b.len() as int, (b + w).len() as int) =~= w);
    lemma_token_chars(s, i, b);
    lemma_token_run(s, i, n, Stops::Value, Context::Array, Seq::empty());
    assert(Seq::empty() + s.subrange(i, n) =~= b);
    lemma_white_stands(s, n, w);
    lemma_part_stands(s, n, w, 0, w.len() as int);
    assert(s[n + 0] == w[0]);
    assert(is_white(w[0]));
    lemma_no_trivia(s, n + w.len());
    lemma_token_is_tidy(b);
    lemma_words(b);
    assert(is_complete_token(b));
    assert(bare_ends(s, n, Stops::Value, Context::Array, b));
    lemma_token_value(s, i, b, Context::Array, strict);
}

} // verus!
