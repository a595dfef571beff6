//! Where things end in a text: whitespace, comments, names, and what may follow them.

use crate::chars::{
    closing_quote, is_letter, is_name_char, is_quote, is_white, starts_number, starts_value,
};
use vstd::prelude::*;

verus! {

/// The part of a document that a token stands in.
#[derive(Clone, Copy, Debug, PartialEq, Eq, Structural)]
pub enum Context {
    /// Outside any value, where none has been found yet.
    Start,
    /// Outside any value, after one was found.
    Top,
    ObjectKey,
    ObjectValue,
    Array,
}

impl Context {
    /// Whether the part lies outside any value.
    pub open spec fn outside(self) -> bool {
        self == Context::Start || self == Context::Top
    }

    pub(crate) fn is_outside(self) -> (r: bool)
        ensures
            r == self.outside(),
    {
        matches!(self, Context::Start | Context::Top)
    }
}

/// The character at `i`, if the text reaches that far.
pub open spec fn at(s: Seq<char>, i: int) -> Option<char> {
    if 0 <= i < s.len() {
        Some(s[i])
    } else {
        None
    }
}

/// The first place at or after `i` that holds no whitespace.
pub open spec fn skip_white(s: Seq<char>, i: int) -> int
    decreases s.len() - i,
{
    if 0 <= i < s.len() && is_white(s[i]) {
        skip_white(s, i + 1)
    } else {
        i
    }
}

/// A line comment ends at a line break. Where values are read it also ends at a closing brace
/// or bracket, which is more likely to be structure than comment.
pub open spec fn ends_line_comment(c: char, in_values: bool) -> bool {
    c == '\n' || c == '\r' || (in_values && (c == '}' || c == ']'))
}

/// The first place at or after `i` where a line comment ends.
pub open spec fn line_comment_end(s: Seq<char>, i: int, in_values: bool) -> int
    decreases s.len() - i,
{
    if 0 <= i < s.len() && !ends_line_comment(s[i], in_values) {
        line_comment_end(s, i + 1, in_values)
    } else {
        i
    }
}

/// The place after the first `*/` at or after `i`, or the end of the text.
pub open spec fn block_comment_end(s: Seq<char>, i: int) -> int
    decreases s.len() - i,
{
    if 0 <= i < s.len() {
        if s[i] == '*' && at(s, i + 1) == Some('/') {
            i + 2
        } else {
            block_comment_end(s, i + 1)
        }
    } else {
        i
    }
}

/// Whether a comment starts at `i`.
pub open spec fn comment_starts(s: Seq<char>, i: int) -> bool {
    ||| at(s, i) == Some('#')
    ||| at(s, i) == Some('/') && (at(s, i + 1) == Some('/') || at(s, i + 1) == Some('*'))
}

/// The end of the comment that starts at `i`.
pub open spec fn comment_end(s: Seq<char>, i: int, in_values: bool) -> int {
    if at(s, i) == Some('#') {
        line_comment_end(s, i + 1, in_values)
    } else if at(s, i + 1) == Some('/') {
        line_comment_end(s, i + 2, in_values)
    } else {
        block_comment_end(s, i + 2)
    }
}

/// The first place at or after `i` that holds neither whitespace nor a comment.
pub open spec fn skip_trivia(s: Seq<char>, i: int, in_values: bool) -> int
    decreases s.len() - i,
{
    proof {
        lemma_skip_white(s, i);
        lemma_comment_end(s, skip_white(s, i), in_values);
    }
    let j = skip_white(s, i);
    if comment_starts(s, j) {
        skip_trivia(s, comment_end(s, j, in_values), in_values)
    } else {
        j
    }
}

/// The first place at or after `i` that holds neither whitespace, nor a comment, nor a comma.
pub open spec fn skip_separators(s: Seq<char>, i: int) -> int
    decreases s.len() - i,
{
    proof {
        lemma_skip_trivia(s, i, true);
    }
    let j = skip_trivia(s, i, true);
    if at(s, j) == Some(',') {
        skip_separators(s, j + 1)
    } else {
        j
    }
}

pub broadcast proof fn lemma_skip_white(s: Seq<char>, i: int)
    ensures
        i <= #[trigger] skip_white(s, i),
        0 <= i <= s.len() ==> skip_white(s, i) <= s.len(),
        at(s, skip_white(s, i)) matches Some(c) ==> !is_white(c),
    decreases s.len() - i,
{
    if 0 <= i < s.len() && is_white(s[i]) {
        lemma_skip_white(s, i + 1);
    }
}

proof fn lemma_line_comment_end(s: Seq<char>, i: int, in_values: bool)
    ensures
        i <= line_comment_end(s, i, in_values),
        0 <= i <= s.len() ==> line_comment_end(s, i, in_values) <= s.len(),
    decreases s.len() - i,
{
    if 0 <= i < s.len() && !ends_line_comment(s[i], in_values) {
        lemma_line_comment_end(s, i + 1, in_values);
    }
}

proof fn lemma_block_comment_end(s: Seq<char>, i: int)
    ensures
        i <= block_comment_end(s, i),
        0 <= i <= s.len() ==> block_comment_end(s, i) <= s.len(),
    decreases s.len() - i,
{
    if 0 <= i < s.len() && !(s[i] == '*' && at(s, i + 1) == Some('/')) {
        lemma_block_comment_end(s, i + 1);
    }
}

pub proof fn lemma_comment_end(s: Seq<char>, i: int, in_values: bool)
    ensures
        comment_starts(s, i) ==> i < comment_end(s, i, in_values) <= s.len(),
{
    lemma_line_comment_end(s, i + 1, in_values);
    lemma_line_comment_end(s, i + 2, in_values);
    lemma_block_comment_end(s, i + 2);
}

/// Skipping whitespace and comments goes forward, stays in the text, and ends where there is
/// nothing more to skip.
pub broadcast proof fn lemma_skip_trivia(s: Seq<char>, i: int, in_values: bool)
    ensures
        ({
            let j = #[trigger] skip_trivia(s, i, in_values);
            &&& i <= j
            &&& 0 <= i <= s.len() ==> j <= s.len()
            &&& !comment_starts(s, j)
            &&& at(s, j) matches Some(c) ==> !is_white(c)
            &&& skip_trivia(s, j, in_values) == j
        }),
    decreases s.len() - i,
{
    let j = skip_white(s, i);
    lemma_skip_white(s, i);
    lemma_comment_end(s, j, in_values);
    if comment_starts(s, j) {
        lemma_skip_trivia(s, comment_end(s, j, in_values), in_values);
    } else {
        assert(skip_white(s, j) == j);
    }
}

/// Skipping separators goes forward, stays in the text, and ends where there is nothing more to
/// skip.
pub broadcast proof fn lemma_skip_separators(s: Seq<char>, i: int)
    ensures
        ({
            let j = #[trigger] skip_separators(s, i);
            &&& i <= j
            &&& 0 <= i <= s.len() ==> j <= s.len()
            &&& skip_trivia(s, j, true) == j
            &&& at(s, j) != Some(',')
        }),
    decreases s.len() - i,
{
    lemma_skip_trivia(s, i, true);
    let j = skip_trivia(s, i, true);
    if at(s, j) == Some(',') {
        lemma_skip_separators(s, j + 1);
    }
}

/// The end of the name whose first characters stand before `i`, in quotes of which `close` is
/// the closing one. There is none if a line break or the end of the text comes first.
pub open spec fn quoted_name_end(s: Seq<char>, i: int, close: char, escapes: bool) -> Option<int>
    decreases s.len() - i,
{
    if 0 <= i < s.len() {
        if escapes && s[i] == '\\' {
            quoted_name_end(
                s,
                if i + 2 <= s.len() {
                    i + 2
                } else {
                    s.len() as int
                },
                close,
                escapes,
            )
        } else if s[i] == close {
            Some(i + 1)
        } else if s[i] == '\n' || s[i] == '\r' {
            None
        } else {
            quoted_name_end(s, i + 1, close, escapes)
        }
    } else {
        None
    }
}

/// The end of the run of name characters at `i`.
pub open spec fn name_run(s: Seq<char>, i: int) -> int
    decreases s.len() - i,
{
    if 0 <= i < s.len() && is_name_char(s[i]) {
        name_run(s, i + 1)
    } else {
        i
    }
}

/// The end of the name, in quotes or bare, that starts at `i`.
pub open spec fn name_end(s: Seq<char>, i: int, escapes: bool) -> Option<int> {
    match at(s, i) {
        Some(c) => if is_quote(c) {
            quoted_name_end(s, i + 1, closing_quote(c), escapes)
        } else if is_name_char(c) {
            Some(name_run(s, i))
        } else {
            None
        },
        None => None,
    }
}

/// The place of what comes next at `i` after whitespace and comments, if anything does.
pub open spec fn significant_index(s: Seq<char>, i: int) -> Option<int> {
    let j = skip_trivia(s, i, false);
    if 0 <= j < s.len() {
        Some(j)
    } else {
        None
    }
}

/// What comes next at `i` after whitespace and comments.
pub open spec fn significant(s: Seq<char>, i: int) -> Option<char> {
    at(s, skip_trivia(s, i, false))
}

/// What comes next stands at its place: with `j` where whitespace and comments end, the index
/// that is seen is `j` and the character that is seen stands there, and neither is seen if `j`
/// lies beyond the text.
pub proof fn lemma_lookaheads_agree(s: Seq<char>, i: int)
    ensures
        ({
            let j = skip_trivia(s, i, false);
            &&& 0 <= i ==> significant_index(s, i) == if j < s.len() {
                Some(j)
            } else {
                None
            }
            &&& significant(s, i) == match significant_index(s, i) {
                Some(k) => Some(s[k]),
                None => None,
            }
        }),
{
    lemma_skip_trivia(s, i, false);
}

/// Whether whitespace stands at `i` and after it a name and a colon: the next member of an
/// object, before which a comma was left out.
pub open spec fn member_starts(s: Seq<char>, i: int) -> bool {
    &&& at(s, i) matches Some(c) && is_white(c)
    &&& name_end(s, skip_white(s, i), false) matches Some(k) && at(s, skip_white(s, k)) == Some(':')
}

/// Whether something that can separate two values stands at `i`.
pub open spec fn separator_stands(s: Seq<char>, i: int) -> bool {
    at(s, i) matches Some(c) && (is_white(c) || c == '#' || c == '/')
}

/// Whether a separator and then a member of an object follow at `i`.
pub open spec fn member_follows(s: Seq<char>, i: int) -> bool {
    &&& separator_stands(s, i)
    &&& name_end(s, skip_trivia(s, i, false), true) matches Some(k) && at(
        s,
        skip_trivia(s, k, false),
    ) == Some(':')
}

/// Whether a separator and then a value follow at `i`.
pub open spec fn value_follows(s: Seq<char>, i: int) -> bool {
    &&& separator_stands(s, i)
    &&& at(s, skip_trivia(s, i, false)) matches Some(c) && starts_value(c)
}

/// Whether a value comes next after the whitespace at `i`.
pub open spec fn value_after_white(s: Seq<char>, i: int) -> bool {
    at(s, skip_white(s, i)) matches Some(c) && starts_value(c)
}

/// Whether a string whose closing quote stands right before `i` can end there, by what comes
/// next.
pub open spec fn string_can_close(s: Seq<char>, i: int, context: Context) -> bool {
    let next = significant(s, i);
    match context {
        Context::ObjectKey => next is None || next == Some(':') || next == Some(',') || next
            == Some('}'),
        Context::ObjectValue => next is None || next == Some(',') || next == Some('}') || next
            == Some(']') || member_follows(s, i),
        Context::Array => next is None || next == Some(',') || next == Some(']') || next == Some(
            '}',
        ) || value_follows(s, i),
        Context::Start | Context::Top => next is None,
    }
}

/// Whether a character shows that the closing quote before it is missing.
pub open spec fn close_is_missing(c: char, context: Context) -> bool {
    match context {
        Context::ObjectKey => c == ':' || c == '}' || c == '\n' || c == '\r',
        Context::ObjectValue => c == '}' || c == ']',
        Context::Array => c == ']',
        Context::Start | Context::Top => false,
    }
}

pub(crate) fn close_missing_before(c: char, context: Context) -> (r: bool)
    ensures
        r == close_is_missing(c, context),
{
    match context {
        Context::ObjectKey => c == ':' || c == '}' || c == '\n' || c == '\r',
        Context::ObjectValue => c == '}' || c == ']',
        Context::Array => c == ']',
        Context::Start | Context::Top => false,
    }
}

/// Whether the parenthesis at `i`, outside any value, starts a value.
pub open spec fn parenthesis_starts_value(s: Seq<char>, i: int) -> bool {
    at(s, skip_white(s, i + 1)) matches Some(c) && (c == '{' || c == '[' || c == '(' || is_quote(c)
        || starts_number(c))
}

/// The end of the run of backquotes at `i`.
pub open spec fn backquote_run(s: Seq<char>, i: int) -> int
    decreases s.len() - i,
{
    if at(s, i) == Some('`') {
        backquote_run(s, i + 1)
    } else {
        i
    }
}

/// The end of the run of letters at `i`.
pub open spec fn letter_run(s: Seq<char>, i: int) -> int
    decreases s.len() - i,
{
    if 0 <= i < s.len() && is_letter(s[i]) {
        letter_run(s, i + 1)
    } else {
        i
    }
}

/// The end of the code fence marker at `i`: backquotes and the name of a language.
pub open spec fn fence_end(s: Seq<char>, i: int) -> int {
    letter_run(s, backquote_run(s, i))
}

proof fn lemma_backquote_run(s: Seq<char>, i: int)
    ensures
        i <= backquote_run(s, i),
        0 <= i <= s.len() ==> backquote_run(s, i) <= s.len(),
    decreases s.len() - i,
{
    if at(s, i) == Some('`') {
        lemma_backquote_run(s, i + 1);
    }
}

proof fn lemma_letter_run(s: Seq<char>, i: int)
    ensures
        i <= letter_run(s, i),
        0 <= i <= s.len() ==> letter_run(s, i) <= s.len(),
    decreases s.len() - i,
{
    if 0 <= i < s.len() && is_letter(s[i]) {
        lemma_letter_run(s, i + 1);
    }
}

/// A code fence marker is not empty and ends in the text.
pub proof fn lemma_fence_end(s: Seq<char>, i: int)
    requires
        at(s, i) == Some('`'),
    ensures
        i < fence_end(s, i) <= s.len(),
{
    lemma_backquote_run(s, i + 1);
    lemma_letter_run(s, backquote_run(s, i));
}

} // verus!
