//! Tokens: strings in quotes, bare tokens and object keys.

use crate::chars::{
    char_of, closing_quote, hex_digit, hex_digit_value, is_quote, is_white, matching_quote,
    opens_quote,
};
use crate::cursor::Parser;
use crate::number::{array_bare_token_can_end, is_complete_token};
use crate::scan::{
    at, close_is_missing, close_missing_before, comment_starts, lemma_skip_trivia, member_starts,
    skip_trivia, string_can_close, value_after_white, Context,
};
use crate::text::{trim, trim_end, trimmed, trimmed_end, Trim};
use vstd::prelude::*;

verus! {

/// The number that hexadecimal digits write, if all characters are such digits.
pub open spec fn hex_value(t: Seq<char>) -> Option<int>
    decreases t.len(),
{
    if t.len() == 0 {
        Some(0)
    } else {
        match (hex_value(t.drop_last()), hex_digit(t.last())) {
            (Some(n), Some(d)) => Some(n * 16 + d),
            _ => None,
        }
    }
}

/// The character that `digits` hexadecimal digits at `i` give, and the place after them. Where
/// they are not all there, nothing is given and nothing is passed.
pub open spec fn hex_escape(s: Seq<char>, i: int, digits: int) -> (Option<char>, int) {
    if i + digits > s.len() {
        (None, i)
    } else {
        match hex_value(s.subrange(i, i + digits)) {
            Some(code) => (char_of(code), i + digits),
            None => (None, i),
        }
    }
}

/// The character that the escape whose backslash stands right before `i` gives, and the place
/// after it.
pub open spec fn escape(s: Seq<char>, i: int) -> (Option<char>, int) {
    match at(s, i) {
        None => (None, i),
        Some(c) => if c == 'n' {
            (Some('\n'), i + 1)
        } else if c == 'r' {
            (Some('\r'), i + 1)
        } else if c == 't' {
            (Some('\t'), i + 1)
        } else if c == 'b' {
            (Some('\u{8}'), i + 1)
        } else if c == 'f' {
            (Some('\u{c}'), i + 1)
        } else if c == 'u' {
            hex_escape(s, i + 1, 4)
        } else if c == 'x' {
            hex_escape(s, i + 1, 2)
        } else {
            (Some(c), i + 1)
        },
    }
}

/// Reads on in a string of which `out` has been read and the rest starts at `i`: the characters
/// of the whole string, and the place after it.
pub open spec fn string_rest(
    s: Seq<char>,
    i: int,
    close: char,
    context: Context,
    out: Seq<char>,
) -> (Seq<char>, int)
    decreases s.len() - i,
{
    if 0 <= i < s.len() {
        let c = s[i];
        if c == '\\' {
            if at(s, i + 1) == Some(close) && string_can_close(s, i + 2, context) {
                (out, i + 2)
            } else {
                let (given, next) = escape(s, i + 1);
                string_rest(
                    s,
                    next,
                    close,
                    context,
                    out.push(
                        match given {
                            Some(e) => e,
                            None => '\\',
                        },
                    ),
                )
            }
        } else if c == close {
            if string_can_close(s, i + 1, context) {
                (out, i + 1)
            } else {
                string_rest(s, i + 1, close, context, out.push(c))
            }
        } else if close_is_missing(c, context) {
            (out, i)
        } else {
            string_rest(s, i + 1, close, context, out.push(c))
        }
    } else {
        (out, i)
    }
}

/// A string's characters without the backquotes that prose leaves at its end and without space
/// around it.
pub open spec fn tidy_string(out: Seq<char>) -> Seq<char> {
    trimmed(trimmed_end(out, Trim::Only('`')), Trim::White)
}

/// The string whose opening quote stands at `i`, and the place after it.
pub open spec fn quoted_string(s: Seq<char>, i: int, context: Context) -> (Seq<char>, int) {
    match at(s, i) {
        Some(open) => {
            let (out, next) = string_rest(
                s,
                i + 1,
                closing_quote(open),
                context,
                Seq::empty(),
            );
            (tidy_string(out), next)
        },
        None => (Seq::empty(), i),
    }
}

/// The sets of characters that end a bare token.
#[derive(Clone, Copy)]
pub enum Stops {
    /// After a value: what separates or closes.
    Value,
    /// After the key of a member.
    Key,
    /// After a key in brackets.
    BracketKey,
    /// After prose: what opens a value.
    Prose,
}

impl Stops {
    pub open spec fn has(self, c: char) -> bool {
        match self {
            Stops::Value => c == ',' || c == '}' || c == ']' || c == ')',
            Stops::Key => c == ':' || c == ',' || c == '}',
            Stops::BracketKey => c == ']' || c == ':' || c == ',' || c == '}',
            Stops::Prose => c == '{' || c == '[' || c == '(' || c == '`',
        }
    }

    fn contains(self, c: char) -> (r: bool)
        ensures
            r == self.has(c),
    {
        match self {
            Stops::Value => c == ',' || c == '}' || c == ']' || c == ')',
            Stops::Key => c == ':' || c == ',' || c == '}',
            Stops::BracketKey => c == ']' || c == ':' || c == ',' || c == '}',
            Stops::Prose => c == '{' || c == '[' || c == '(' || c == '`',
        }
    }
}

/// Whether a bare token of which `out` has been read ends at `i`.
pub open spec fn bare_ends(
    s: Seq<char>,
    i: int,
    stops: Stops,
    context: Context,
    out: Seq<char>,
) -> bool {
    match at(s, i) {
        None => true,
        Some(c) => {
            ||| stops.has(c)
            ||| context == Context::ObjectValue && member_starts(s, i)
            ||| context == Context::Array && is_white(c) && is_complete_token(out)
                && value_after_white(s, i)
            ||| comment_starts(s, i)
        },
    }
}

/// Reads on in a bare token of which `out` has been read and the rest starts at `i`: its
/// characters, and the place after it.
pub open spec fn bare_rest(
    s: Seq<char>,
    i: int,
    stops: Stops,
    context: Context,
    out: Seq<char>,
) -> (Seq<char>, int)
    decreases s.len() - i,
{
    if bare_ends(s, i, stops, context, out) {
        (out, i)
    } else {
        bare_rest(s, i + 1, stops, context, out.push(s[i]))
    }
}

/// A bare token's characters without space and backquotes around it.
pub open spec fn tidy_bare(out: Seq<char>) -> Seq<char> {
    trimmed(trimmed_end(trimmed(out, Trim::White), Trim::Only('`')), Trim::White)
}

/// The bare token that starts at `i`, and the place after it.
pub open spec fn bare_token(s: Seq<char>, i: int, stops: Stops, context: Context) -> (
    Seq<char>,
    int,
) {
    let (out, next) = bare_rest(s, i, stops, context, Seq::empty());
    (tidy_bare(out), next)
}

/// A bare key without the quotes and space around it.
pub open spec fn tidy_key(key: Seq<char>) -> Seq<char> {
    let a = trimmed(key, Trim::White);
    let b = trimmed(a, Trim::Only('"'));
    let c = trimmed(b, Trim::Only('\''));
    let d = trimmed(c, Trim::Only('\u{201c}'));
    let e = trimmed(d, Trim::Only('\u{201d}'));
    trimmed(e, Trim::White)
}

/// The object key that comes next at `i`, and the place after it.
pub open spec fn object_key(s: Seq<char>, i: int) -> (Seq<char>, int) {
    let j = skip_trivia(s, i, true);
    let k = if at(s, j) == Some('\\') && (at(s, j + 1) matches Some(q) && is_quote(q)) {
        j + 1
    } else {
        j
    };
    match at(s, k) {
        Some(c) if is_quote(c) => quoted_string(s, k, Context::ObjectKey),
        Some('[') => {
            let (key, next) = bare_token(s, k + 1, Stops::BracketKey, Context::ObjectKey);
            (
                tidy_key(key),
                if at(s, next) == Some(']') {
                    next + 1
                } else {
                    next
                },
            )
        },
        _ => {
            let (key, next) = bare_token(s, k, Stops::Key, Context::ObjectKey);
            (tidy_key(key), next)
        },
    }
}

/// Whether a key that is not empty and a colon come next at `i`: a member that stands in an
/// array without its braces.
pub open spec fn array_member_starts(s: Seq<char>, i: int) -> bool {
    &&& at(s, i) matches Some(c) && (is_quote(c) || c == '\\' || 'A' <= c <= 'Z' || 'a' <= c <= 'z'
        || c == '_' || c == '-' || '0' <= c <= '9')
    &&& object_key(s, i).0.len() > 0
    &&& at(s, skip_trivia(s, object_key(s, i).1, true)) == Some(':')
}

/// Reading a string goes forward and stays in the text.
pub proof fn lemma_string_rest(
    s: Seq<char>,
    i: int,
    close: char,
    context: Context,
    out: Seq<char>,
)
    requires
        0 <= i <= s.len(),
    ensures
        i <= string_rest(s, i, close, context, out).1 <= s.len(),
    decreases s.len() - i,
{
    if i < s.len() {
        let c = s[i];
        if c == '\\' {
            if !(at(s, i + 1) == Some(close) && string_can_close(s, i + 2, context)) {
                let (given, next) = escape(s, i + 1);
                lemma_string_rest(
                    s,
                    next,
                    close,
                    context,
                    out.push(
                        match given {
                            Some(e) => e,
                            None => '\\',
                        },
                    ),
                );
            }
        } else if c == close || !close_is_missing(c, context) {
            lemma_string_rest(s, i + 1, close, context, out.push(c));
        }
    }
}

/// Reading a bare token goes forward and stays in the text.
pub proof fn lemma_bare_rest(
    s: Seq<char>,
    i: int,
    stops: Stops,
    context: Context,
    out: Seq<char>,
)
    requires
        0 <= i <= s.len(),
    ensures
        i <= bare_rest(s, i, stops, context, out).1 <= s.len(),
        bare_rest(s, i, stops, context, out).1 == i ==> bare_rest(s, i, stops, context, out).0
            == out,
    decreases s.len() - i,
{
    if !bare_ends(s, i, stops, context, out) {
        lemma_bare_rest(s, i + 1, stops, context, out.push(s[i]));
    }
}

/// Reading a key goes forward and stays in the text. It passes something unless a colon, a
/// comma, a closing brace or the end of the text comes next.
pub proof fn lemma_object_key(s: Seq<char>, i: int)
    requires
        0 <= i <= s.len(),
    ensures
        i <= object_key(s, i).1 <= s.len(),
        ({
            let j = skip_trivia(s, i, true);
            at(s, j) is None || at(s, j) == Some(':') || at(s, j) == Some(',') || at(s, j) == Some(
                '}',
            ) || object_key(s, i).1 > j
        }),
{
    let j = skip_trivia(s, i, true);
    lemma_skip_trivia(s, i, true);
    let k = if at(s, j) == Some('\\') && (at(s, j + 1) matches Some(q) && is_quote(q)) {
        j + 1
    } else {
        j
    };
    match at(s, k) {
        Some(c) if is_quote(c) => {
            lemma_string_rest(s, k + 1, closing_quote(c), Context::ObjectKey, Seq::empty());
        },
        Some('[') => {
            lemma_bare_rest(s, k + 1, Stops::BracketKey, Context::ObjectKey, Seq::empty());
        },
        _ => {
            lemma_bare_rest(s, k, Stops::Key, Context::ObjectKey, Seq::empty());
            if !bare_ends(s, k, Stops::Key, Context::ObjectKey, Seq::empty()) {
                lemma_bare_rest(s, k + 1, Stops::Key, Context::ObjectKey, Seq::empty().push(s[k]));
            }
        },
    }
}

fn clean_key(key: &Vec<char>) -> (r: Vec<char>)
    ensures
        r@ == tidy_key(key@),
{
    let a = trim(key, Trim::White);
    let b = trim(&a, Trim::Only('"'));
    let c = trim(&b, Trim::Only('\''));
    let d = trim(&c, Trim::Only('\u{201c}'));
    let e = trim(&d, Trim::Only('\u{201d}'));
    trim(&e, Trim::White)
}

impl Parser {
    fn consume_hex_escape(&mut self, digits: usize) -> (r: Option<char>)
        requires
            old(self).in_text(),
            digits <= 4,
        ensures
            final(self).same_text(*old(self)),
            final(self).in_text(),
            (r, final(self).index as int) == hex_escape(
                old(self).chars@,
                old(self).index as int,
                digits as int,
            ),
    {
        if digits > self.chars.len() - self.index {
            return None;
        }
        let ghost written = self.chars@.subrange(self.index as int, self.index + digits);
        let mut value: u32 = 0;
        let mut offset: usize = 0;
        while offset < digits
            invariant
                *self == *old(self),
                offset <= digits <= 4,
                self.index + digits <= self.chars.len(),
                written == self.chars@.subrange(self.index as int, self.index + digits),
                hex_value(written.take(offset as int)) == Some(value as int),
                offset == 0 ==> value < 1,
                offset == 1 ==> value < 16,
                offset == 2 ==> value < 256,
                offset == 3 ==> value < 4096,
                offset == 4 ==> value < 65536,
            decreases digits - offset,
        {
            let ghost next = written.take(offset + 1);
            assert(next.drop_last() == written.take(offset as int));
            match hex_digit_value(self.chars[self.index + offset]) {
                Some(d) => {
                    value = value * 16 + d;
                },
                None => {
                    proof {
                        lemma_hex_value_prefix(written, offset + 1);
                    }
                    return None;
                },
            }
            offset += 1;
        }
        assert(written.take(digits as int) == written);
        self.index += digits;
        char::from_u32(value)
    }

    fn consume_escape(&mut self) -> (r: Option<char>)
        requires
            old(self).in_text(),
        ensures
            final(self).same_text(*old(self)),
            final(self).in_text(),
            (r, final(self).index as int) == escape(old(self).chars@, old(self).index as int),
    {
        match self.peek() {
            None => None,
            Some(c) => {
                self.index += 1;
                match c {
                    'n' => Some('\n'),
                    'r' => Some('\r'),
                    't' => Some('\t'),
                    'b' => Some('\u{8}'),
                    'f' => Some('\u{c}'),
                    'u' => self.consume_hex_escape(4),
                    'x' => self.consume_hex_escape(2),
                    other => Some(other),
                }
            },
        }
    }

    pub(crate) fn parse_quoted_string(&mut self, context: Context) -> (r: Vec<char>)
        requires
            old(self).in_text(),
        ensures
            final(self).same_text(*old(self)),
            final(self).in_text(),
            (r@, final(self).index as int) == quoted_string(
                old(self).chars@,
                old(self).index as int,
                context,
            ),
            final(self).index >= old(self).index,
            old(self).index < old(self).chars.len() ==> final(self).index > old(self).index,
    {
        let open = match self.peek() {
            Some(open) => open,
            None => {
                return Vec::new();
            },
        };
        let close = matching_quote(open);
        self.index += 1;
        let ghost start = self.index as int;
        let mut out: Vec<char> = Vec::new();
        while self.index < self.chars.len()
            invariant_except_break
                self.same_text(*old(self)),
                self.in_text(),
                old(self).index < start <= self.index,
                string_rest(self.chars@, start, close, context, Seq::empty()) == string_rest(
                    self.chars@,
                    self.index as int,
                    close,
                    context,
                    out@,
                ),
            ensures
                self.same_text(*old(self)),
                self.in_text(),
                old(self).index < start <= self.index,
                string_rest(self.chars@, start, close, context, Seq::empty()) == (
                    out@,
                    self.index as int,
                ),
            decreases self.chars.len() - self.index,
        {
            let c = self.chars[self.index];
            if c == '\\' {
                if self.peek_next() == Some(close) && self.escaped_quote_closes_string(context) {
                    self.index += 2;
                    break;
                }
                self.index += 1;
                match self.consume_escape() {
                    Some(given) => {
                        out.push(given);
                    },
                    None => {
                        out.push('\\');
                    },
                }
                continue;
            }
            if c == close {
                if self.quote_closes_string(context) {
                    self.index += 1;
                    break;
                }
                out.push(c);
                self.index += 1;
                continue;
            }
            if close_missing_before(c, context) {
                break;
            }
            out.push(c);
            self.index += 1;
        }
        let stripped = trim_end(&out, Trim::Only('`'));
        trim(&stripped, Trim::White)
    }

    pub(crate) fn parse_bare_until(&mut self, stops: Stops, context: Context) -> (r: Vec<char>)
        requires
            old(self).in_text(),
        ensures
            final(self).same_text(*old(self)),
            final(self).in_text(),
            (r@, final(self).index as int) == bare_token(
                old(self).chars@,
                old(self).index as int,
                stops,
                context,
            ),
            final(self).index >= old(self).index,
    {
        let ghost start = self.index as int;
        let mut out: Vec<char> = Vec::new();
        while self.index < self.chars.len()
            invariant_except_break
                self.same_text(*old(self)),
                self.in_text(),
                start <= self.index,
                bare_rest(self.chars@, start, stops, context, Seq::empty()) == bare_rest(
                    self.chars@,
                    self.index as int,
                    stops,
                    context,
                    out@,
                ),
            ensures
                self.same_text(*old(self)),
                self.in_text(),
                start <= self.index,
                bare_rest(self.chars@, start, stops, context, Seq::empty()) == (
                    out@,
                    self.index as int,
                ),
            decreases self.chars.len() - self.index,
        {
            let c = self.chars[self.index];
            if stops.contains(c) {
                break;
            }
            if context == Context::ObjectValue && self.starts_next_object_member() {
                break;
            }
            if context == Context::Array && c.is_whitespace() && array_bare_token_can_end(&out)
                && self.array_value_can_follow_after_whitespace() {
                break;
            }
            if c == '/' && self.peek_next() == Some('/') {
                break;
            }
            if c == '/' && self.peek_next() == Some('*') {
                break;
            }
            if c == '#' {
                break;
            }
            out.push(c);
            self.index += 1;
        }
        let a = trim(&out, Trim::White);
        let b = trim_end(&a, Trim::Only('`'));
        trim(&b, Trim::White)
    }

    pub(crate) fn parse_object_key(&mut self) -> (r: Vec<char>)
        requires
            old(self).in_text(),
        ensures
            final(self).same_text(*old(self)),
            final(self).in_text(),
            (r@, final(self).index as int) == object_key(
                old(self).chars@,
                old(self).index as int,
            ),
            final(self).index >= old(self).index,
    {
        self.skip_ws_and_comments();
        if self.peek() == Some('\\') {
            match self.peek_next() {
                Some(q) => {
                    if opens_quote(q) {
                        self.index += 1;
                    }
                },
                None => {},
            }
        }
        match self.peek() {
            Some(c) => {
                if opens_quote(c) {
                    self.parse_quoted_string(Context::ObjectKey)
                } else if c == '[' {
                    self.index += 1;
                    let key = self.parse_bare_until(Stops::BracketKey, Context::ObjectKey);
                    if self.peek() == Some(']') {
                        self.index += 1;
                    }
                    clean_key(&key)
                } else {
                    let key = self.parse_bare_until(Stops::Key, Context::ObjectKey);
                    clean_key(&key)
                }
            },
            None => {
                let key = self.parse_bare_until(Stops::Key, Context::ObjectKey);
                clean_key(&key)
            },
        }
    }

    pub(crate) fn looks_like_array_object_entry(&self) -> (r: bool)
        requires
            self.in_text(),
        ensures
            r == array_member_starts(self.chars@, self.index as int),
    {
        match self.peek() {
            Some(c) => {
                if !(opens_quote(c) || c == '\\' || ('A' <= c && c <= 'Z') || ('a' <= c && c <= 'z')
                    || c == '_' || c == '-' || ('0' <= c && c <= '9')) {
                    return false;
                }
            },
            None => {
                return false;
            },
        }
        let mut probe = self.clone_probe();
        let key = probe.parse_object_key();
        if key.len() == 0 {
            return false;
        }
        probe.skip_ws_and_comments();
        probe.peek() == Some(':')
    }
}

/// A text in which some prefix is not all hexadecimal digits is not.
proof fn lemma_hex_value_prefix(t: Seq<char>, k: int)
    requires
        0 <= k <= t.len(),
        hex_value(t.take(k)) is None,
    ensures
        hex_value(t) is None,
    decreases t.len(),
{
    if k == t.len() {
        assert(t.take(k) == t);
    } else {
        assert(t.drop_last().take(k) == t.take(k));
        lemma_hex_value_prefix(t.drop_last(), k);
    }
}

} // verus!
