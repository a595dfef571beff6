//! Text as a sequence of characters: trimming, lower case, and the way to `String`.

use crate::chars::is_white;
use vstd::prelude::*;

verus! {

/// `String::push` appends one character.
pub assume_specification[ std::string::String::push ](s: &mut std::string::String, c: char)
    ensures
        final(s)@ == old(s)@.push(c),
;

/// What is trimmed off a text: whitespace, or one character.
#[derive(Clone, Copy)]
pub enum Trim {
    White,
    Only(char),
}

impl Trim {
    pub open spec fn spec_matches(self, c: char) -> bool {
        match self {
            Trim::White => is_white(c),
            Trim::Only(other) => c == other,
        }
    }

    fn matches(self, c: char) -> (r: bool)
        ensures
            r == self.spec_matches(c),
    {
        match self {
            Trim::White => c.is_whitespace(),
            Trim::Only(other) => c == other,
        }
    }
}

/// The text without the characters of `what` at its start.
pub open spec fn trimmed_start(t: Seq<char>, what: Trim) -> Seq<char>
    decreases t.len(),
{
    if t.len() > 0 && what.spec_matches(t[0]) {
        trimmed_start(t.skip(1), what)
    } else {
        t
    }
}

/// The text without the characters of `what` at its end.
pub open spec fn trimmed_end(t: Seq<char>, what: Trim) -> Seq<char>
    decreases t.len(),
{
    if t.len() > 0 && what.spec_matches(t.last()) {
        trimmed_end(t.drop_last(), what)
    } else {
        t
    }
}

/// The text without the characters of `what` at either end.
pub open spec fn trimmed(t: Seq<char>, what: Trim) -> Seq<char> {
    trimmed_end(trimmed_start(t, what), what)
}

fn trim_start(t: &Vec<char>, what: Trim) -> (r: Vec<char>)
    ensures
        r@ == trimmed_start(t@, what),
{
    let mut from: usize = 0;
    assert(t@.skip(0) == t@);
    while from < t.len() && what.matches(t[from])
        invariant
            from <= t.len(),
            trimmed_start(t@, what) == trimmed_start(t@.skip(from as int), what),
        decreases t.len() - from,
    {
        assert(t@.skip(from as int).skip(1) == t@.skip(from + 1));
        from += 1;
    }
    copy_range(t, from, t.len())
}

pub(crate) fn trim_end(t: &Vec<char>, what: Trim) -> (r: Vec<char>)
    ensures
        r@ == trimmed_end(t@, what),
{
    let mut to: usize = t.len();
    assert(t@.take(to as int) == t@);
    while to > 0 && what.matches(t[to - 1])
        invariant
            to <= t.len(),
            trimmed_end(t@, what) == trimmed_end(t@.take(to as int), what),
        decreases to,
    {
        assert(t@.take(to as int).drop_last() == t@.take(to - 1));
        to -= 1;
    }
    copy_range(t, 0, to)
}

pub(crate) fn trim(t: &Vec<char>, what: Trim) -> (r: Vec<char>)
    ensures
        r@ == trimmed(t@, what),
{
    let started = trim_start(t, what);
    trim_end(&started, what)
}

/// The characters of `t` from `from` up to `to`.
pub(crate) fn copy_range(t: &Vec<char>, from: usize, to: usize) -> (r: Vec<char>)
    requires
        from <= to <= t.len(),
    ensures
        r@ == t@.subrange(from as int, to as int),
{
    let mut r: Vec<char> = Vec::new();
    let mut i: usize = from;
    while i < to
        invariant
            from <= i <= to <= t.len(),
            r@ == t@.subrange(from as int, i as int),
        decreases to - i,
    {
        r.push(t[i]);
        i += 1;
    }
    r
}

/// A character with an ASCII capital letter made small.
pub open spec fn lower_char(c: char) -> char {
    if 'A' <= c <= 'Z' {
        (c as int + 32) as char
    } else {
        c
    }
}

/// A text with its ASCII capital letters made small.
pub open spec fn lowered(t: Seq<char>) -> Seq<char> {
    t.map_values(|c: char| lower_char(c))
}

pub(crate) fn to_lower(t: &Vec<char>) -> (r: Vec<char>)
    ensures
        r@ == lowered(t@),
{
    let mut r: Vec<char> = Vec::new();
    let mut i: usize = 0;
    while i < t.len()
        invariant
            i <= t.len(),
            r@ == lowered(t@).take(i as int),
        decreases t.len() - i,
    {
        let c = t[i];
        let low = if 'A' <= c && c <= 'Z' {
            (c as u8 + 32) as char
        } else {
            c
        };
        r.push(low);
        i += 1;
    }
    assert(lowered(t@).take(t.len() as int) == lowered(t@));
    r
}

/// The characters of a string.
pub(crate) fn chars_of(s: &str) -> (r: Vec<char>)
    ensures
        r@ == s@,
{
    let mut r: Vec<char> = Vec::new();
    for c in iter: s.chars()
        invariant
            r@ == iter.seq().take(iter.index()),
    {
        r.push(c);
    }
    r
}

/// Whether a text is the given literal.
pub(crate) fn is_text(t: &Vec<char>, literal: &str) -> (r: bool)
    ensures
        r == (t@ == literal@),
{
    let other = chars_of(literal);
    if t.len() != other.len() {
        return false;
    }
    let mut i: usize = 0;
    while i < t.len()
        invariant
            i <= t.len(),
            t.len() == other.len(),
            other@ == literal@,
            t@.take(i as int) == other@.take(i as int),
        decreases t.len() - i,
    {
        if t[i] != other[i] {
            return false;
        }
        assert(t@.take(i + 1) == t@.take(i as int).push(t@[i as int]));
        assert(other@.take(i + 1) == other@.take(i as int).push(other@[i as int]));
        i += 1;
    }
    assert(t@.take(t.len() as int) == t@);
    assert(other@.take(t.len() as int) == other@);
    true
}

/// The string with the given characters.
pub(crate) fn string_of(t: &Vec<char>) -> (r: String)
    ensures
        r@ == t@,
{
    let mut r = String::new();
    let mut i: usize = 0;
    while i < t.len()
        invariant
            i <= t.len(),
            r@ == t@.take(i as int),
        decreases t.len() - i,
    {
        r.push(t[i]);
        i += 1;
    }
    assert(t@.take(t.len() as int) == t@);
    r
}

} // verus!
