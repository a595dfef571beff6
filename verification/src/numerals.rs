//! What is a number, and what only looks like one.

use crate::chars::is_ascii_digit;
use crate::number::{
    all_digits, bare_value, completed, digit_run, digits_value, double_text, integer_of, is_decimal,
    is_decimal_text, is_float_text, number_of, numeric_shape,
};
use crate::standard::read_number;
use crate::value::{Json, Num};
use crate::words::{
    is_token, lemma_digits_to, lemma_numeral, lemma_token_is_tidy, lemma_without_none, lemma_words,
    spells_false, spells_null, spells_true,
};
use vstd::prelude::*;

verus! {

/// One or more decimal digits.
pub open spec fn is_digits(d: Seq<char>) -> bool {
    d.len() > 0 && forall|k: int| 0 <= k < d.len() ==> '0' <= #[trigger] d[k] <= '9'
}

/// A token with two points, such as a version, is its own text.
pub proof fn lemma_versions_are_text(a: Seq<char>, b: Seq<char>, c: Seq<char>)
    requires
        is_digits(a),
        is_digits(b),
        is_digits(c),
    ensures
        bare_value(a + seq!['.'] + b + seq!['.'] + c) == Json::String(
            a + seq!['.'] + b + seq!['.'] + c,
        ),
{
    let t = a + seq!['.'] + b + seq!['.'] + c;
    let p = a.len() as int;
    let q = p + 1 + b.len();
    assert(t[p] == '.' && t[q] == '.');
    assert(t[0] == a[0] && t.last() == c[c.len() - 1]);
    assert forall|k: int| 0 <= k < t.len() implies #[trigger] t[k] == '.' || '0' <= t[k] <= '9' by {
        if k < p {
            assert(t[k] == a[k]);
        } else if p < k < q {
            assert(t[k] == b[k - p - 1]);
        } else if k > q {
            assert(t[k] == c[k - q - 1]);
        }
    }
    assert(is_token(t));
    lemma_token_is_tidy(t);
    lemma_words(t);
    assert(!spells_true(t) && !spells_false(t) && !spells_null(t)) by {
        assert(t[p] == '.');
    }
    lemma_without_none(t, '_');
    assert(!numeric_shape(t));
}

/// Digits with a plus sign between them are their own text.
pub proof fn lemma_sums_are_text(a: Seq<char>, c: Seq<char>)
    requires
        is_digits(a),
        is_digits(c),
    ensures
        bare_value(a + seq!['+'] + c) == Json::String(a + seq!['+'] + c),
{
    let t = a + seq!['+'] + c;
    let p = a.len() as int;
    assert(t[p] == '+');
    assert(t[0] == a[0] && t.last() == c[c.len() - 1]);
    assert forall|k: int| 0 <= k < t.len() implies #[trigger] t[k] == '+' || '0' <= t[k] <= '9' by {
        if k < p {
            assert(t[k] == a[k]);
        } else if k > p {
            assert(t[k] == c[k - p - 1]);
        }
    }
    assert(is_token(t));
    lemma_token_is_tidy(t);
    lemma_words(t);
    assert(!spells_true(t) && !spells_false(t) && !spells_null(t)) by {
        assert(t[p] == '+');
    }
    lemma_without_none(t, '_');
    assert(completed(t) == t);
    assert(!is_decimal(t));
    assert(!all_digits(t)) by {
        assert(!is_ascii_digit(t[p]));
    }
    assert(integer_of(t) is None);
}

/// Digits, a point, digits, an exponent mark and digits are the double that is nearest to them.
pub proof fn lemma_decimals_with_exponent(
    a: Seq<char>,
    b: Seq<char>,
    mark: char,
    c: Seq<char>,
    double: Seq<char>,
)
    requires
        is_digits(a),
        is_digits(b),
        is_digits(c),
        mark == 'e' || mark == 'E',
        double_text(a + seq!['.'] + b + seq![mark] + c) == Some(double),
        is_float_text(double),
    ensures
        bare_value(a + seq!['.'] + b + seq![mark] + c) == Json::Number(Num::Float(double)),
{
    let t = a + seq!['.'] + b + seq![mark] + c;
    let p = a.len() as int;
    let q = p + 1 + b.len();
    assert(t[p] == '.' && t[q] == mark);
    assert(t[0] == a[0] && t.last() == c[c.len() - 1]);
    assert forall|k: int| 0 <= k < t.len() && k != p && k != q implies '0' <= #[trigger] t[k]
        <= '9' by {
        if k < p {
            assert(t[k] == a[k]);
        } else if p < k < q {
            assert(t[k] == b[k - p - 1]);
        } else if k > q {
            assert(t[k] == c[k - q - 1]);
        }
    }
    assert(is_token(t));
    lemma_token_is_tidy(t);
    lemma_words(t);
    assert(!spells_true(t) && !spells_false(t) && !spells_null(t)) by {
        assert(t[p] == '.');
    }
    lemma_without_none(t, '_');
    assert(numeric_shape(t));
    assert(completed(t) == t);
    assert(t.contains('.'));
    lemma_digits_to(t, 0, p);
    lemma_digits_to(t, p + 1, q);
    lemma_digits_to(t, q + 1, t.len() as int);
    assert(is_decimal_text(t));
}

/// A number of JSON has no zeros before it, no plus sign, and digits on both sides of a point and
/// after an exponent mark.
pub proof fn lemma_no_json_number(d: Seq<char>)
    requires
        is_digits(d),
    ensures
        read_number(seq!['0'] + d) is None,
        read_number(seq!['-', '0'] + d) is None,
        read_number(seq!['+'] + d) is None,
        read_number(seq!['.'] + d) is None,
        read_number(d + seq!['.']) is None,
        read_number(d + seq!['e']) is None,
        read_number(d + seq!['E']) is None,
        read_number(seq!['-']) is None,
{
    lemma_zeros_first(d);
    lemma_marks_around(d);
}

proof fn lemma_zeros_first(d: Seq<char>)
    requires
        is_digits(d),
    ensures
        read_number(seq!['0'] + d) is None,
        read_number(seq!['-', '0'] + d) is None,
{
    let a = seq!['0'] + d;
    let b = seq!['-', '0'] + d;
    assert forall|k: int| 0 <= k < a.len() implies is_ascii_digit(#[trigger] a[k]) by {
        if k > 0 {
            assert(a[k] == d[k - 1]);
        }
    }
    assert forall|k: int| 1 <= k < b.len() implies is_ascii_digit(#[trigger] b[k]) by {
        if k > 1 {
            assert(b[k] == d[k - 2]);
        }
    }
    lemma_digits_to(a, 0, a.len() as int);
    lemma_digits_to(b, 1, b.len() as int);
    assert(a[0] == '0' && b[0] == '-' && b[1] == '0');
    assert(b.skip(1)[0] == '0');
}

proof fn lemma_marks_around(d: Seq<char>)
    requires
        is_digits(d),
    ensures
        read_number(seq!['+'] + d) is None,
        read_number(seq!['.'] + d) is None,
        read_number(d + seq!['.']) is None,
        read_number(d + seq!['e']) is None,
        read_number(d + seq!['E']) is None,
        read_number(seq!['-']) is None,
{
    let n = d.len() as int;
    let plus = seq!['+'] + d;
    let point = seq!['.'] + d;
    assert(plus[0] == '+' && point[0] == '.');
    assert(digit_run(plus, 0) == 0 && digit_run(point, 0) == 0);
    assert(!all_digits(plus)) by {
        assert(!is_ascii_digit(plus[0]));
    }
    assert(!all_digits(point)) by {
        assert(!is_ascii_digit(point[0]));
    }
    assert forall|c: char| c == '.' || c == 'e' || c == 'E' implies read_number(
        #[trigger] d.push(c),
    ) is None by {
        let t = d.push(c);
        assert forall|k: int| 0 <= k < n implies is_ascii_digit(#[trigger] t[k]) by {
            assert(t[k] == d[k]);
        }
        assert(t[n] == c);
        assert(t[0] == d[0]);
        lemma_digits_to(t, 0, n);
        assert(digit_run(t, n + 1) == n + 1);
        assert(!all_digits(t)) by {
            assert(!is_ascii_digit(t[n]));
        }
    }
    assert(d + seq!['.'] =~= d.push('.'));
    assert(d + seq!['e'] =~= d.push('e'));
    assert(d + seq!['E'] =~= d.push('E'));
    let minus = seq!['-'];
    assert(minus.skip(1) =~= Seq::empty());
    assert(digit_run(minus, 1) == 1);
}

/// Digits without a zero before them, and a point or an exponent mark with digits after it, are a
/// number of JSON with that text.
pub proof fn lemma_json_decimals(a: Seq<char>, mark: char, c: Seq<char>)
    requires
        is_digits(a),
        a[0] == '0' ==> a.len() == 1,
        is_digits(c),
        mark == '.' || mark == 'e' || mark == 'E',
    ensures
        read_number(a + seq![mark] + c) == Some(Num::Float(a + seq![mark] + c)),
        read_number(seq!['-'] + a + seq![mark] + c) == Some(
            Num::Float(seq!['-'] + a + seq![mark] + c),
        ),
{
    lemma_json_decimal(Seq::empty(), a, mark, c);
    lemma_json_decimal(seq!['-'], a, mark, c);
    assert(Seq::empty() + a + seq![mark] + c =~= a + seq![mark] + c);
}

proof fn lemma_json_decimal(sign: Seq<char>, a: Seq<char>, mark: char, c: Seq<char>)
    requires
        sign.len() == 0 || sign == seq!['-'],
        is_digits(a),
        a[0] == '0' ==> a.len() == 1,
        is_digits(c),
        mark == '.' || mark == 'e' || mark == 'E',
    ensures
        is_float_text(sign + a + seq![mark] + c),
{
    let t = sign + a + seq![mark] + c;
    let p = sign.len() as int;
    let q = p + a.len();
    assert(t[p] == a[0]);
    assert(t[q] == mark);
    assert forall|k: int| p <= k < t.len() && k != q implies is_ascii_digit(#[trigger] t[k]) by {
        if k < q {
            assert(t[k] == a[k - p]);
        } else {
            assert(t[k] == c[k - q - 1]);
        }
    }
    if p == 1 {
        assert(t[0] == '-');
    }
    lemma_digits_to(t, p, q);
    lemma_digits_to(t, q + 1, t.len() as int);
}

/// A zero before the digits of a bare integer does not count.
pub proof fn lemma_leading_zero(d: Seq<char>)
    requires
        is_digits(d),
    ensures
        number_of(seq!['0'] + d) == number_of(d),
        number_of(seq!['-', '0'] + d) == number_of(seq!['-'] + d),
        bare_value(d) is Number ==> bare_value(seq!['0'] + d) == bare_value(d),
{
    let zero = seq!['0'] + d;
    let minus = seq!['-'] + d;
    let both = seq!['-', '0'] + d;
    lemma_zero_value(d);
    assert forall|k: int| 0 <= k < zero.len() implies is_ascii_digit(#[trigger] zero[k]) by {
        if k > 0 {
            assert(zero[k] == d[k - 1]);
        }
    }
    assert forall|k: int| 1 <= k < minus.len() implies is_ascii_digit(#[trigger] minus[k]) by {
        assert(minus[k] == d[k - 1]);
    }
    assert forall|k: int| 1 <= k < both.len() implies is_ascii_digit(#[trigger] both[k]) by {
        if k > 1 {
            assert(both[k] == d[k - 2]);
        }
    }
    assert(minus[0] == '-' && both[0] == '-');
    lemma_numeral(d);
    lemma_numeral(zero);
    lemma_numeral(minus);
    lemma_numeral(both);
    assert(minus.skip(1) =~= d);
    assert(both.skip(1) =~= zero);
    lemma_words(d);
    lemma_words(zero);
}

proof fn lemma_zero_value(d: Seq<char>)
    ensures
        digits_value(seq!['0'] + d) == digits_value(d),
    decreases d.len(),
{
    let zero = seq!['0'] + d;
    if d.len() == 0 {
        assert(zero.drop_last() =~= Seq::empty());
        assert(zero.last() == '0');
        assert(digits_value(zero.drop_last()) == 0);
        assert(digits_value(d) == 0);
    } else {
        assert(zero.drop_last() =~= seq!['0'] + d.drop_last());
        assert(zero.last() == d.last());
        lemma_zero_value(d.drop_last());
    }
}

} // verus!
