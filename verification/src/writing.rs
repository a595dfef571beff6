//! How strings are written.

use crate::escapes::digit_of;
use crate::writer::{escaped, escaped_char, hex_char, unicode_escape};
use vstd::prelude::*;

verus! {

/// The text of a string is that of its characters, one after the other.
pub proof fn lemma_escapes_add_up(t: Seq<char>, u: Seq<char>, ensure_ascii: bool)
    ensures
        escaped(t + u, ensure_ascii) == escaped(t, ensure_ascii) + escaped(u, ensure_ascii),
    decreases u.len(),
{
    if u.len() == 0 {
        assert(t + u =~= t);
        assert(escaped(t, ensure_ascii) + escaped(u, ensure_ascii) =~= escaped(t, ensure_ascii));
    } else {
        assert((t + u).drop_last() =~= t + u.drop_last());
        assert((t + u).last() == u.last());
        lemma_escapes_add_up(t, u.drop_last(), ensure_ascii);
        assert(escaped(t + u, ensure_ascii) =~= escaped(t, ensure_ascii) + escaped(
            u,
            ensure_ascii,
        ));
    }
}

/// Quotation marks, backslashes and the usual control characters have a short escape.
pub proof fn lemma_short_escapes(t: Seq<char>, ensure_ascii: bool)
    ensures
        escaped(t.push('"'), ensure_ascii) == escaped(t, ensure_ascii) + seq!['\\', '"'],
        escaped(t.push('\\'), ensure_ascii) == escaped(t, ensure_ascii) + seq!['\\', '\\'],
        escaped(t.push('\n'), ensure_ascii) == escaped(t, ensure_ascii) + seq!['\\', 'n'],
        escaped(t.push('\r'), ensure_ascii) == escaped(t, ensure_ascii) + seq!['\\', 'r'],
        escaped(t.push('\t'), ensure_ascii) == escaped(t, ensure_ascii) + seq!['\\', 't'],
        escaped(t.push('\u{8}'), ensure_ascii) == escaped(t, ensure_ascii) + seq!['\\', 'b'],
        escaped(t.push('\u{c}'), ensure_ascii) == escaped(t, ensure_ascii) + seq!['\\', 'f'],
{
    assert forall|c: char| #[trigger] t.push(c).drop_last() == t && t.push(c).last() == c by {
        assert(t.push(c).drop_last() =~= t);
    }
    assert(t.push('"').drop_last() == t && t.push('\\').drop_last() == t);
    assert(t.push('\n').drop_last() == t && t.push('\r').drop_last() == t);
    assert(t.push('\t').drop_last() == t && t.push('\u{8}').drop_last() == t);
    assert(t.push('\u{c}').drop_last() == t);
}

/// The other characters of ASCII stand for themselves, with the demand for ASCII and without it.
pub proof fn lemma_ascii_stands_for_itself(t: Seq<char>, ensure_ascii: bool)
    requires
        forall|k: int|
            0 <= k < t.len() ==> 0x20 <= #[trigger] t[k] as int <= 0x7f && t[k] != '"' && t[k]
                != '\\',
    ensures
        escaped(t, ensure_ascii) == t,
    decreases t.len(),
{
    if t.len() > 0 {
        assert(0x20 <= t[t.len() - 1] as int);
        assert(t[t.len() - 1] == t.last());
        lemma_ascii_stands_for_itself(t.drop_last(), ensure_ascii);
        assert(t.drop_last() + seq![t.last()] =~= t);
    }
}

/// Whether a text is a backslash, `u` and four hexadecimal digits without capital letters that
/// write a code.
pub open spec fn is_group(e: Seq<char>, code: int) -> bool {
    &&& e.len() == 6
    &&& e[0] == '\\' && e[1] == 'u'
    &&& forall|k: int| 2 <= k < 6 ==> '0' <= #[trigger] e[k] <= '9' || 'a' <= e[k] <= 'f'
    &&& code == digit_of(e[2]) * 4096 + digit_of(e[3]) * 256 + digit_of(e[4]) * 16 + digit_of(e[5])
}

/// The other control characters, and with the demand for ASCII the characters outside it, are
/// written by their code: in one group, or in two if the code has more than 16 bits.
pub proof fn lemma_codes(t: Seq<char>, c: char, ensure_ascii: bool)
    requires
        (c as int) < 0x20 || (ensure_ascii && c as int > 0x7f),
        c != '\n' && c != '\r' && c != '\t' && c != '\u{8}' && c != '\u{c}',
    ensures
        ({
            let code = c as int;
            let more = escaped(t.push(c), ensure_ascii).skip(
                escaped(t, ensure_ascii).len() as int,
            );
            &&& escaped(t.push(c), ensure_ascii) == escaped(t, ensure_ascii) + more
            &&& code <= 0xffff ==> is_group(more, code)
            &&& code > 0xffff ==> is_group(more.take(6), 0xd800 + (code - 0x10000) / 0x400)
                && is_group(more.skip(6), 0xdc00 + (code - 0x10000) % 0x400)
        }),
{
    let before = escaped(t, ensure_ascii);
    let more = escaped_char(c, ensure_ascii);
    let code = c as int;
    assert(t.push(c).drop_last() =~= t);
    assert(escaped(t.push(c), ensure_ascii) == before + more);
    assert((before + more).skip(before.len() as int) =~= more);
    if code <= 0xffff {
        lemma_group(code);
    } else {
        let high = 0xd800 + (code - 0x10000) / 0x400;
        let low = 0xdc00 + (code - 0x10000) % 0x400;
        lemma_group(high);
        lemma_group(low);
        assert(more == unicode_escape(high) + unicode_escape(low));
        assert(more.take(6) =~= unicode_escape(high));
        assert(more.skip(6) =~= unicode_escape(low));
    }
}

proof fn lemma_group(code: int)
    requires
        0 <= code <= 0xffff,
    ensures
        is_group(unicode_escape(code), code),
{
    let a = code / 4096 % 16;
    let b = code / 256 % 16;
    let c = code / 16 % 16;
    let d = code % 16;
    assert(code == a * 4096 + b * 256 + c * 16 + d);
    let e = unicode_escape(code);
    lemma_hex_char(a);
    lemma_hex_char(b);
    lemma_hex_char(c);
    lemma_hex_char(d);
    assert(e[2] == hex_char(a));
    assert(e[3] == hex_char(b));
    assert(e[4] == hex_char(c));
    assert(e[5] == hex_char(d));
}

proof fn lemma_hex_char(d: int)
    requires
        0 <= d < 16,
    ensures
        '0' <= hex_char(d) <= '9' || 'a' <= hex_char(d) <= 'f',
        digit_of(hex_char(d)) == d,
{
}

} // verus!
