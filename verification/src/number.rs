//! Bare tokens: the words and numbers that stand in a text without quotes.

use crate::chars::{is_ascii_digit, is_letter, number_can_start, starts_number};
use crate::text::{
    copy_range, is_text, lowered, string_of, to_lower, trim, trim_end, trimmed, trimmed_end, Trim,
};
use crate::value::{Json, JsonValue, Num, Number};
use vstd::prelude::*;

verus! {

/// The text without the given character.
pub open spec fn without(t: Seq<char>, c: char) -> Seq<char>
    decreases t.len(),
{
    if t.len() == 0 {
        t
    } else if t.last() == c {
        without(t.drop_last(), c)
    } else {
        without(t.drop_last(), c).push(t.last())
    }
}

/// Whether a text can be a number at all: no fraction bar, no minus sign but the first
/// character, no letter but an exponent's, at most one point.
pub open spec fn numeric_shape(t: Seq<char>) -> bool {
    &&& t.len() > 0
    &&& forall|i: int| 0 <= i < t.len() ==> #[trigger] t[i] != '/'
    &&& forall|i: int| 1 <= i < t.len() ==> #[trigger] t[i] != '-'
    &&& forall|i: int|
        0 <= i < t.len() && is_letter(#[trigger] t[i]) ==> t[i] == 'e' || t[i] == 'E'
    &&& forall|i: int, j: int|
        0 <= i < j < t.len() && #[trigger] t[i] == '.' ==> #[trigger] t[j] != '.'
}

/// A number with what its writer left out: a zero before a leading point, and no exponent
/// letter without an exponent.
pub open spec fn completed(t: Seq<char>) -> Seq<char> {
    if t.len() > 0 && t[0] == '.' {
        seq!['0'] + t
    } else if t.len() > 0 && (t.last() == 'e' || t.last() == 'E') {
        t.drop_last()
    } else {
        t
    }
}

/// Whether a number is written with a point or an exponent.
pub open spec fn is_decimal(t: Seq<char>) -> bool {
    t.contains('.') || t.contains('e') || t.contains('E')
}

pub open spec fn all_digits(t: Seq<char>) -> bool {
    forall|i: int| 0 <= i < t.len() ==> is_ascii_digit(#[trigger] t[i])
}

/// The number that a text of digits writes.
pub open spec fn digits_value(t: Seq<char>) -> int
    decreases t.len(),
{
    if t.len() == 0 {
        0
    } else {
        digits_value(t.drop_last()) * 10 + (t.last() as int - '0' as int)
    }
}

/// The integer that a text writes: digits after an optional sign, in the range that a JSON
/// integer can have here.
pub open spec fn integer_of(t: Seq<char>) -> Option<int> {
    let signed = t.len() > 0 && (t[0] == '-' || t[0] == '+');
    let digits = if signed {
        t.skip(1)
    } else {
        t
    };
    let n = if signed && t[0] == '-' {
        -digits_value(digits)
    } else {
        digits_value(digits)
    };
    if digits.len() > 0 && all_digits(digits) && i64::MIN <= n <= u64::MAX {
        Some(n)
    } else {
        None
    }
}

/// The end of the run of digits that starts at `i`.
pub open spec fn digit_run(t: Seq<char>, i: int) -> int
    decreases t.len() - i,
{
    if 0 <= i < t.len() && is_ascii_digit(t[i]) {
        digit_run(t, i + 1)
    } else {
        i
    }
}

/// Whether an exponent stands at `i` and the text ends with it.
pub open spec fn ends_with_exponent(t: Seq<char>, i: int) -> bool {
    &&& 0 <= i < t.len()
    &&& t[i] == 'e' || t[i] == 'E'
    &&& ({
        let from = if i + 1 < t.len() && (t[i + 1] == '+' || t[i + 1] == '-') {
            i + 2
        } else {
            i + 1
        };
        from < digit_run(t, from) == t.len()
    })
}

/// Whether a text is a decimal: an optional sign, digits with at most one point among or
/// around them, and an optional exponent.
pub open spec fn is_decimal_text(t: Seq<char>) -> bool {
    let start = if t.len() > 0 && (t[0] == '+' || t[0] == '-') {
        1int
    } else {
        0
    };
    let whole = digit_run(t, start);
    if whole < t.len() && t[whole] == '.' {
        let end = digit_run(t, whole + 1);
        end - start > 1 && (end == t.len() || ends_with_exponent(t, end))
    } else {
        whole > start && (whole == t.len() || ends_with_exponent(t, whole))
    }
}

/// Whether a text is a JSON number with a fraction or an exponent.
pub open spec fn is_float_text(t: Seq<char>) -> bool {
    let start = if t.len() > 0 && t[0] == '-' {
        1int
    } else {
        0
    };
    let whole = digit_run(t, start);
    &&& start < whole < t.len()
    &&& t[start] == '0' ==> whole == start + 1
    &&& if t[whole] == '.' {
        let end = digit_run(t, whole + 1);
        end > whole + 1 && (end == t.len() || ends_with_exponent(t, end))
    } else {
        ends_with_exponent(t, whole)
    }
}

/// The shortest decimal text of the double that is nearest to a decimal, as `serde_json`
/// writes it. There is none for a text that is no decimal or lies beyond the doubles.
pub uninterp spec fn double_text(t: Seq<char>) -> Option<Seq<char>>;

/// The text of the double that a decimal writes.
pub open spec fn decimal_value(t: Seq<char>) -> Option<Seq<char>> {
    match double_text(t) {
        Some(text) if is_decimal_text(t) && is_float_text(text) => Some(text),
        _ => None,
    }
}

/// Reads a decimal with `str::parse` as a double, takes it as a JSON number with
/// `serde_json::Number::from_f64`, and writes that number with its `Display`. The result is a
/// function of the text. Only a decimal is read, one without an exponent and of moderate length
/// always is, and what is written is a JSON number with a fraction or an exponent. Which double
/// is nearest and which text is shortest is not stated.
#[verifier::external_body]
fn nearest_double(t: &str) -> (r: Option<String>)
    ensures
        r is Some == double_text(t@) is Some,
        r matches Some(text) ==> double_text(t@) == Some(text@),
        r matches Some(text) ==> is_decimal_text(t@) && is_float_text(text@),
        is_decimal_text(t@) && t@.len() <= 300 && !t@.contains('e') && !t@.contains('E')
            ==> r is Some,
{
    t.parse().ok().and_then(serde_json::Number::from_f64).map(|n| n.to_string())
}

/// What a token is as a number.
pub enum NumeralKind {
    Not,
    Integer(int),
    Decimal(Seq<char>),
}

/// What a token is as a number: nothing, an integer, or the text of a decimal.
pub open spec fn numeral_kind(token: Seq<char>) -> NumeralKind {
    let plain = without(token, '_');
    if !numeric_shape(plain) {
        NumeralKind::Not
    } else if is_decimal(completed(plain)) {
        NumeralKind::Decimal(completed(plain))
    } else {
        match integer_of(completed(plain)) {
            Some(n) => NumeralKind::Integer(n),
            None => NumeralKind::Not,
        }
    }
}

/// What a token is as a number: nothing, an integer, or the text of a decimal.
pub enum Numeral {
    Not,
    Integer(Number),
    Decimal(String),
}

impl View for Numeral {
    type V = NumeralKind;

    open spec fn view(&self) -> NumeralKind {
        match self {
            Numeral::Not => NumeralKind::Not,
            Numeral::Integer(n) => match n@ {
                Num::Int(i) => NumeralKind::Integer(i),
                Num::Float(_) => NumeralKind::Not,
            },
            Numeral::Decimal(t) => NumeralKind::Decimal(t@),
        }
    }
}

fn remove_all(t: &Vec<char>, c: char) -> (r: Vec<char>)
    ensures
        r@ == without(t@, c),
{
    let mut r: Vec<char> = Vec::new();
    let mut i: usize = 0;
    while i < t.len()
        invariant
            i <= t.len(),
            r@ == without(t@.take(i as int), c),
        decreases t.len() - i,
    {
        assert(t@.take(i + 1).drop_last() == t@.take(i as int));
        if t[i] != c {
            r.push(t[i]);
        }
        i += 1;
    }
    assert(t@.take(t.len() as int) == t@);
    r
}

fn has_numeric_shape(t: &Vec<char>) -> (r: bool)
    ensures
        r == numeric_shape(t@),
{
    if t.len() == 0 {
        return false;
    }
    let mut points: bool = false;
    let mut i: usize = 0;
    while i < t.len()
        invariant
            i <= t.len(),
            t.len() > 0,
            forall|j: int| 0 <= j < i ==> #[trigger] t@[j] != '/',
            forall|j: int| 1 <= j < i ==> #[trigger] t@[j] != '-',
            forall|j: int|
                0 <= j < i && is_letter(#[trigger] t@[j]) ==> t@[j] == 'e' || t@[j] == 'E',
            forall|j: int, k: int|
                0 <= j < k < i && #[trigger] t@[j] == '.' ==> #[trigger] t@[k] != '.',
            points == exists|j: int| 0 <= j < i && #[trigger] t@[j] == '.',
        decreases t.len() - i,
    {
        let c = t[i];
        if c == '/' || (i > 0 && c == '-') || (c.is_alphabetic() && c != 'e' && c != 'E') || (
        points && c == '.') {
            assert(!numeric_shape(t@)) by {
                assert(t@[i as int] == c);
            }
            return false;
        }
        if c == '.' {
            points = true;
            assert(t@[i as int] == '.');
        }
        i += 1;
    }
    true
}

fn complete(t: &Vec<char>) -> (r: Vec<char>)
    ensures
        r@ == completed(t@),
{
    if t.len() == 0 {
        return Vec::new();
    }
    if t[0] == '.' {
        let mut r: Vec<char> = Vec::new();
        r.push('0');
        let mut i: usize = 0;
        while i < t.len()
            invariant
                i <= t.len(),
                r@ == seq!['0'] + t@.take(i as int),
            decreases t.len() - i,
        {
            r.push(t[i]);
            i += 1;
        }
        assert(t@.take(t.len() as int) == t@);
        return r;
    }
    let last = t[t.len() - 1];
    if last == 'e' || last == 'E' {
        copy_range(t, 0, t.len() - 1)
    } else {
        copy_range(t, 0, t.len())
    }
}

fn has_point_or_exponent(t: &Vec<char>) -> (r: bool)
    ensures
        r == is_decimal(t@),
{
    let mut i: usize = 0;
    while i < t.len()
        invariant
            i <= t.len(),
            forall|j: int|
                0 <= j < i ==> #[trigger] t@[j] != '.' && t@[j] != 'e' && t@[j] != 'E',
        decreases t.len() - i,
    {
        if t[i] == '.' || t[i] == 'e' || t[i] == 'E' {
            assert(t@.contains(t@[i as int]));
            return true;
        }
        i += 1;
    }
    false
}

/// A longer text of digits writes no smaller number.
proof fn lemma_digits_value_grows(t: Seq<char>, k: int)
    requires
        0 <= k <= t.len(),
        all_digits(t),
    ensures
        0 <= digits_value(t.take(k)) <= digits_value(t),
    decreases t.len(),
{
    if k == t.len() {
        assert(t.take(k) == t);
        if t.len() > 0 {
            assert(is_ascii_digit(t.last()));
            lemma_digits_value_grows(t.drop_last(), t.len() - 1);
            assert(t.drop_last().take(t.len() - 1) == t.drop_last());
        }
    } else {
        assert(is_ascii_digit(t.last()));
        lemma_digits_value_grows(t.drop_last(), k);
        assert(t.drop_last().take(k) == t.take(k));
    }
}

/// The number that the digits of `t` from `from` on write, if there are digits and nothing
/// else and the number fits.
fn magnitude(t: &Vec<char>, from: usize) -> (r: Option<u64>)
    requires
        from <= t.len(),
    ensures
        ({
            let digits = t@.skip(from as int);
            let valid = digits.len() > 0 && all_digits(digits);
            match r {
                Some(n) => valid && n == digits_value(digits),
                None => !valid || digits_value(digits) > u64::MAX,
            }
        }),
{
    if from == t.len() {
        return None;
    }
    let ghost digits = t@.skip(from as int);
    let mut n: u64 = 0;
    let mut i: usize = from;
    while i < t.len()
        invariant
            from <= i <= t.len(),
            digits == t@.skip(from as int),
            all_digits(digits.take(i - from)),
            n == digits_value(digits.take(i - from)),
        decreases t.len() - i,
    {
        let c = t[i];
        assert(c == digits[i - from]);
        if !('0' <= c && c <= '9') {
            return None;
        }
        let d = c as u64 - '0' as u64;
        let ghost next = digits.take(i + 1 - from);
        assert(next.drop_last() == digits.take(i - from));
        assert(digits_value(next) == n * 10 + d);
        if n > (u64::MAX - d) / 10 {
            assert(digits_value(next) > u64::MAX);
            proof {
                if all_digits(digits) {
                    lemma_digits_value_grows(digits, i + 1 - from);
                }
            }
            return None;
        }
        n = n * 10 + d;
        assert forall|j: int| 0 <= j < next.len() implies is_ascii_digit(#[trigger] next[j]) by {
            if j < i - from {
                assert(next[j] == digits.take(i - from)[j]);
            }
        }
        i += 1;
    }
    assert(digits.take(t.len() - from) == digits);
    Some(n)
}

pub(crate) fn parse_integer(t: &Vec<char>) -> (r: Option<Number>)
    ensures
        match r {
            Some(n) => integer_of(t@) matches Some(i) && n@ == Num::Int(i),
            None => integer_of(t@) is None,
        },
{
    assert(t@.skip(0) == t@);
    if t.len() > 0 && t[0] == '-' {
        match magnitude(t, 1) {
            Some(n) => if n == 0 {
                Some(Number::PosInt(0))
            } else if n <= 0x8000_0000_0000_0000 {
                Some(Number::NegInt((-(n as i128)) as i64))
            } else {
                None
            },
            None => None,
        }
    } else {
        let from: usize = if t.len() > 0 && t[0] == '+' {
            1
        } else {
            0
        };
        match magnitude(t, from) {
            Some(n) => Some(Number::PosInt(n)),
            None => {
                proof {
                    let digits = t@.skip(from as int);
                    if all_digits(digits) {
                        lemma_digits_value_grows(digits, 0);
                    }
                }
                None
            },
        }
    }
}

/// Reads a token as a number.
pub fn read_numeral(token: &Vec<char>) -> (r: Numeral)
    ensures
        r@ == numeral_kind(token@),
        r matches Numeral::Integer(n) ==> n@ is Int,
{
    let plain = remove_all(token, '_');
    if !has_numeric_shape(&plain) {
        return Numeral::Not;
    }
    let whole = complete(&plain);
    if has_point_or_exponent(&whole) {
        Numeral::Decimal(string_of(&whole))
    } else {
        match parse_integer(&whole) {
            Some(n) => Numeral::Integer(n),
            None => Numeral::Not,
        }
    }
}

/// The number that a token writes.
pub open spec fn number_of(token: Seq<char>) -> Option<Num> {
    match numeral_kind(token) {
        NumeralKind::Not => None,
        NumeralKind::Integer(n) => Some(Num::Int(n)),
        NumeralKind::Decimal(t) => match decimal_value(t) {
            Some(text) => Some(Num::Float(text)),
            None => None,
        },
    }
}

fn parse_number_value(token: &Vec<char>) -> (r: Option<Number>)
    ensures
        match r {
            Some(n) => number_of(token@) == Some(n@),
            None => number_of(token@) is None,
        },
{
    match read_numeral(token) {
        Numeral::Not => None,
        Numeral::Integer(n) => Some(n),
        Numeral::Decimal(t) => match nearest_double(t.as_str()) {
            Some(text) => Some(Number::Float(text)),
            None => None,
        },
    }
}

/// A bare token without the wrapping that prose puts around it: space, backquotes, full stops.
pub open spec fn unwrapped(token: Seq<char>) -> Seq<char> {
    trimmed(
        trimmed_end(trimmed(trimmed(token, Trim::White), Trim::Only('`')), Trim::Only('.')),
        Trim::White,
    )
}

pub open spec fn is_true_word(lower: Seq<char>) -> bool {
    lower == "true"@ || lower == "tru"@ || lower == "t"@
}

pub open spec fn is_false_word(lower: Seq<char>) -> bool {
    lower == "false"@ || lower == "fals"@ || lower == "f"@
}

pub open spec fn is_null_word(lower: Seq<char>) -> bool {
    lower == "null"@ || lower == "none"@ || lower == "nul"@ || lower == "n"@
}

/// The value that a bare token has, given what it is as a number: a word for true, false or
/// null, the number, or its own text.
pub open spec fn bare_value_given(token: Seq<char>, number: Option<Num>) -> Json {
    let text = unwrapped(token);
    let lower = lowered(text);
    if is_true_word(lower) {
        Json::Bool(true)
    } else if is_false_word(lower) {
        Json::Bool(false)
    } else if is_null_word(lower) {
        Json::Null
    } else if lower == "..."@ {
        Json::String("..."@)
    } else {
        match number {
            Some(n) => Json::Number(n),
            None => Json::String(text),
        }
    }
}

/// The value that a bare token has.
pub open spec fn bare_value(token: Seq<char>) -> Json {
    bare_value_given(token, number_of(unwrapped(token)))
}

fn true_word(lower: &Vec<char>) -> (r: bool)
    ensures
        r == is_true_word(lower@),
{
    is_text(lower, "true") || is_text(lower, "tru") || is_text(lower, "t")
}

fn false_word(lower: &Vec<char>) -> (r: bool)
    ensures
        r == is_false_word(lower@),
{
    is_text(lower, "false") || is_text(lower, "fals") || is_text(lower, "f")
}

fn null_word(lower: &Vec<char>) -> (r: bool)
    ensures
        r == is_null_word(lower@),
{
    is_text(lower, "null") || is_text(lower, "none") || is_text(lower, "nul") || is_text(lower, "n")
}

fn unwrap_token(token: &Vec<char>) -> (r: Vec<char>)
    ensures
        r@ == unwrapped(token@),
{
    let a = trim(token, Trim::White);
    let b = trim(&a, Trim::Only('`'));
    let c = trim_end(&b, Trim::Only('.'));
    trim(&c, Trim::White)
}

/// The value of a bare token, given what it is as a number.
pub fn value_from_number(token: &Vec<char>, number: Option<Number>) -> (r: JsonValue)
    ensures
        r@ == bare_value_given(
            token@,
            match number {
                Some(n) => Some(n@),
                None => None,
            },
        ),
{
    let text = unwrap_token(token);
    let lower = to_lower(&text);
    if true_word(&lower) {
        JsonValue::Bool(true)
    } else if false_word(&lower) {
        JsonValue::Bool(false)
    } else if null_word(&lower) {
        JsonValue::Null
    } else if is_text(&lower, "...") {
        JsonValue::String("...".to_owned())
    } else {
        match number {
            Some(n) => JsonValue::Number(n),
            None => JsonValue::String(string_of(&text)),
        }
    }
}

/// The value of a bare token.
pub fn value_from_bare_token(token: &Vec<char>) -> (r: JsonValue)
    ensures
        r@ == bare_value(token@),
{
    let text = unwrap_token(token);
    let number = parse_number_value(&text);
    value_from_number(token, number)
}

/// Whether a bare token in an array is complete, so that a space after it can separate it from
/// the next value: it is a word for true, false or null, or starts as a number does.
pub open spec fn is_complete_token(token: Seq<char>) -> bool {
    let text = trimmed(token, Trim::White);
    let lower = lowered(text);
    text.len() > 0 && (is_true_word(lower) || is_false_word(lower) || is_null_word(lower)
        || starts_number(text[0]))
}

pub(crate) fn array_bare_token_can_end(token: &Vec<char>) -> (r: bool)
    ensures
        r == is_complete_token(token@),
{
    let text = trim(token, Trim::White);
    if text.len() == 0 {
        return false;
    }
    let lower = to_lower(&text);
    true_word(&lower) || false_word(&lower) || null_word(&lower) || number_can_start(text[0])
}

} // verus!
