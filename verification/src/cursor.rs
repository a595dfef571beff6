//! A place in a text, and what can be seen from it.

use crate::chars::{matching_quote, name_can_hold, number_can_start, opens_quote, value_can_start};
use crate::scan::{
    at, backquote_run, block_comment_end, fence_end, letter_run, line_comment_end, member_follows,
    member_starts, name_end, name_run, parenthesis_starts_value, quoted_name_end, separator_stands,
    significant, significant_index, skip_separators, skip_trivia, skip_white, string_can_close,
    value_after_white, value_follows, Context,
};
use crate::text::chars_of;
use vstd::prelude::*;

verus! {

/// A text and a place in it. In strict mode the repairs that lose something are refused.
pub(crate) struct Parser {
    pub(crate) chars: Vec<char>,
    pub(crate) index: usize,
    pub(crate) strict: bool,
}

fn skip_line_comment_in(chars: &Vec<char>, from: usize) -> (r: usize)
    requires
        from <= chars.len(),
    ensures
        r == line_comment_end(chars@, from as int, false),
        from <= r <= chars.len(),
{
    let mut index: usize = from;
    while index < chars.len()
        invariant_except_break
            from <= index <= chars.len(),
            line_comment_end(chars@, from as int, false) == line_comment_end(
                chars@,
                index as int,
                false,
            ),
        ensures
            from <= index <= chars.len(),
            index == line_comment_end(chars@, from as int, false),
        decreases chars.len() - index,
    {
        if chars[index] == '\n' || chars[index] == '\r' {
            break;
        }
        index += 1;
    }
    index
}

impl Parser {
    /// The place is in the text or at its end.
    pub(crate) open spec fn in_text(self) -> bool {
        self.index <= self.chars.len()
    }

    /// The same text, read in the same mode.
    pub(crate) open spec fn same_text(self, other: Parser) -> bool {
        self.chars == other.chars && self.strict == other.strict
    }

    pub(crate) fn new(input: &str, strict: bool) -> (r: Parser)
        ensures
            r.chars@ == input@,
            r.index == 0,
            r.strict == strict,
            r.in_text(),
    {
        Parser { chars: chars_of(input), index: 0, strict }
    }

    fn get(&self, i: usize) -> (r: Option<char>)
        ensures
            r == at(self.chars@, i as int),
    {
        if i < self.chars.len() {
            Some(self.chars[i])
        } else {
            None
        }
    }

    pub(crate) fn peek(&self) -> (r: Option<char>)
        ensures
            r == at(self.chars@, self.index as int),
    {
        self.get(self.index)
    }

    pub(crate) fn peek_next(&self) -> (r: Option<char>)
        ensures
            r == at(self.chars@, self.index + 1),
    {
        self.get_after(self.index)
    }

    fn get_after(&self, i: usize) -> (r: Option<char>)
        ensures
            r == at(self.chars@, i + 1),
    {
        if i < self.chars.len() {
            self.get(i + 1)
        } else {
            None
        }
    }

    fn skip_white_from(&self, from: usize) -> (r: usize)
        ensures
            r == skip_white(self.chars@, from as int),
            from <= r,
            from <= self.chars.len() ==> r <= self.chars.len(),
    {
        let mut i: usize = from;
        while i < self.chars.len() && self.chars[i].is_whitespace()
            invariant
                from <= i,
                from <= self.chars.len() ==> i <= self.chars.len(),
                skip_white(self.chars@, from as int) == skip_white(self.chars@, i as int),
            decreases self.chars.len() - i,
        {
            i += 1;
        }
        i
    }

    fn skip_block_comment_from(&self, from: usize) -> (r: usize)
        requires
            from <= self.chars.len(),
        ensures
            r == block_comment_end(self.chars@, from as int),
            from <= r <= self.chars.len(),
    {
        let mut i: usize = from;
        while i < self.chars.len()
            invariant_except_break
                from <= i <= self.chars.len(),
                block_comment_end(self.chars@, from as int) == block_comment_end(
                    self.chars@,
                    i as int,
                ),
            ensures
                from <= i <= self.chars.len(),
                i == block_comment_end(self.chars@, from as int),
            decreases self.chars.len() - i,
        {
            if self.chars[i] == '*' && self.get_after(i) == Some('/') {
                i += 2;
                break;
            }
            i += 1;
        }
        i
    }

    pub(crate) fn skip_ws_and_comments_from(&self, from: usize) -> (r: usize)
        ensures
            r == skip_trivia(self.chars@, from as int, false),
            from <= r,
            from <= self.chars.len() ==> r <= self.chars.len(),
    {
        let mut index: usize = from;
        loop
            invariant
                from <= index,
                from <= self.chars.len() ==> index <= self.chars.len(),
                skip_trivia(self.chars@, from as int, false) == skip_trivia(
                    self.chars@,
                    index as int,
                    false,
                ),
            decreases self.chars.len() - index,
        {
            index = self.skip_white_from(index);
            if self.get(index) == Some('#') {
                index = skip_line_comment_in(&self.chars, index + 1);
                continue;
            }
            if self.get(index) == Some('/') && self.get_after(index) == Some('/') {
                index = skip_line_comment_in(&self.chars, index + 2);
                continue;
            }
            if self.get(index) == Some('/') && self.get_after(index) == Some('*') {
                index = self.skip_block_comment_from(index + 2);
                continue;
            }
            return index;
        }
    }

    /// What comes next after the offset, past whitespace and comments.
    pub(crate) fn next_significant_after_comment(&self, offset: usize) -> (r: Option<char>)
        requires
            self.index + offset <= usize::MAX,
        ensures
            r == significant(self.chars@, self.index + offset),
    {
        self.get(self.skip_ws_and_comments_from(self.index + offset))
    }

    /// The place of what comes next after the offset, past whitespace and comments.
    pub(crate) fn next_significant_index_after_comment(&self, offset: usize) -> (r: Option<usize>)
        requires
            self.index + offset <= usize::MAX,
        ensures
            match r {
                Some(i) => i < self.chars.len() && significant_index(
                    self.chars@,
                    self.index + offset,
                ) == Some(i as int),
                None => significant_index(self.chars@, self.index + offset) is None,
            },
    {
        let i = self.skip_ws_and_comments_from(self.index + offset);
        if i < self.chars.len() {
            Some(i)
        } else {
            None
        }
    }

    fn quoted_name_end_from(&self, from: usize, close: char, escapes: bool) -> (r: Option<usize>)
        requires
            from <= self.chars.len(),
        ensures
            match r {
                Some(k) => quoted_name_end(self.chars@, from as int, close, escapes) == Some(
                    k as int,
                ) && k <= self.chars.len(),
                None => quoted_name_end(self.chars@, from as int, close, escapes) is None,
            },
    {
        let mut i: usize = from;
        while i < self.chars.len()
            invariant
                i <= self.chars.len(),
                quoted_name_end(self.chars@, from as int, close, escapes) == quoted_name_end(
                    self.chars@,
                    i as int,
                    close,
                    escapes,
                ),
            decreases self.chars.len() - i,
        {
            let c = self.chars[i];
            if escapes && c == '\\' {
                i = if self.chars.len() - i >= 2 {
                    i + 2
                } else {
                    self.chars.len()
                };
                continue;
            }
            if c == close {
                return Some(i + 1);
            }
            if c == '\n' || c == '\r' {
                return None;
            }
            i += 1;
        }
        None
    }

    fn name_run_from(&self, from: usize) -> (r: usize)
        requires
            from <= self.chars.len(),
        ensures
            r == name_run(self.chars@, from as int),
            from <= r <= self.chars.len(),
    {
        let mut i: usize = from;
        while i < self.chars.len() && name_can_hold(self.chars[i])
            invariant
                from <= i <= self.chars.len(),
                name_run(self.chars@, from as int) == name_run(self.chars@, i as int),
            decreases self.chars.len() - i,
        {
            i += 1;
        }
        i
    }

    fn scan_object_key_from(&self, index: usize, escapes: bool) -> (r: Option<usize>)
        ensures
            match r {
                Some(k) => name_end(self.chars@, index as int, escapes) == Some(k as int) && k
                    <= self.chars.len(),
                None => name_end(self.chars@, index as int, escapes) is None,
            },
    {
        match self.get(index) {
            Some(c) => {
                assert(index < self.chars.len());
                if opens_quote(c) {
                    self.quoted_name_end_from(index + 1, matching_quote(c), escapes)
                } else if name_can_hold(c) {
                    Some(self.name_run_from(index))
                } else {
                    None
                }
            },
            None => None,
        }
    }

    pub(crate) fn starts_next_object_member(&self) -> (r: bool)
        requires
            self.in_text(),
        ensures
            r == member_starts(self.chars@, self.index as int),
    {
        match self.peek() {
            Some(c) => {
                if !c.is_whitespace() {
                    return false;
                }
            },
            None => {
                return false;
            },
        }
        let i = self.skip_white_from(self.index);
        match self.scan_object_key_from(i, false) {
            Some(k) => self.get(self.skip_white_from(k)) == Some(':'),
            None => false,
        }
    }

    fn has_separator_after_offset(&self, offset: usize) -> (r: bool)
        requires
            self.index + offset <= usize::MAX,
        ensures
            r == separator_stands(self.chars@, self.index + offset),
    {
        match self.get(self.index + offset) {
            Some(c) => c.is_whitespace() || c == '#' || c == '/',
            None => false,
        }
    }

    fn object_member_can_follow_after_quote(&self, offset: usize) -> (r: bool)
        requires
            self.index + offset <= usize::MAX,
        ensures
            r == member_follows(self.chars@, self.index + offset),
    {
        if !self.has_separator_after_offset(offset) {
            return false;
        }
        match self.next_significant_index_after_comment(offset) {
            Some(i) => match self.scan_object_key_from(i, true) {
                Some(k) => self.get(self.skip_ws_and_comments_from(k)) == Some(':'),
                None => false,
            },
            None => false,
        }
    }

    fn array_value_can_follow_after_quote(&self, offset: usize) -> (r: bool)
        requires
            self.index + offset <= usize::MAX,
        ensures
            r == value_follows(self.chars@, self.index + offset),
    {
        if !self.has_separator_after_offset(offset) {
            return false;
        }
        match self.next_significant_index_after_comment(offset) {
            Some(i) => value_can_start(self.chars[i]),
            None => false,
        }
    }

    pub(crate) fn array_value_can_follow_after_whitespace(&self) -> (r: bool)
        requires
            self.in_text(),
        ensures
            r == value_after_white(self.chars@, self.index as int),
    {
        match self.get(self.skip_white_from(self.index)) {
            Some(c) => value_can_start(c),
            None => false,
        }
    }

    fn string_closes_at_offset(&self, context: Context, offset: usize) -> (r: bool)
        requires
            self.index + offset <= usize::MAX,
        ensures
            r == string_can_close(self.chars@, self.index + offset, context),
    {
        let next = self.next_significant_after_comment(offset);
        match context {
            Context::ObjectKey => next.is_none() || next == Some(':') || next == Some(',') || next
                == Some('}'),
            Context::ObjectValue => next.is_none() || next == Some(',') || next == Some('}') || next
                == Some(']') || self.object_member_can_follow_after_quote(offset),
            Context::Array => next.is_none() || next == Some(',') || next == Some(']') || next
                == Some('}') || self.array_value_can_follow_after_quote(offset),
            Context::Start | Context::Top => next.is_none(),
        }
    }

    pub(crate) fn quote_closes_string(&self, context: Context) -> (r: bool)
        requires
            self.index < self.chars.len(),
        ensures
            r == string_can_close(self.chars@, self.index + 1, context),
    {
        self.string_closes_at_offset(context, 1)
    }

    pub(crate) fn escaped_quote_closes_string(&self, context: Context) -> (r: bool)
        requires
            self.index + 1 < self.chars.len(),
        ensures
            r == string_can_close(self.chars@, self.index + 2, context),
    {
        self.string_closes_at_offset(context, 2)
    }

    pub(crate) fn top_level_parenthesis_can_start_value(&self) -> (r: bool)
        requires
            self.index < self.chars.len(),
        ensures
            r == parenthesis_starts_value(self.chars@, self.index as int),
    {
        match self.get(self.skip_white_from(self.index + 1)) {
            Some(c) => c == '{' || c == '[' || c == '(' || opens_quote(c) || number_can_start(c),
            None => false,
        }
    }

    fn skip_line_comment(&mut self)
        requires
            old(self).in_text(),
        ensures
            final(self).same_text(*old(self)),
            final(self).in_text(),
            final(self).index == line_comment_end(old(self).chars@, old(self).index as int, true),
            final(self).index >= old(self).index,
    {
        while self.index < self.chars.len()
            invariant_except_break
                self.same_text(*old(self)),
                self.in_text(),
                self.index >= old(self).index,
                line_comment_end(old(self).chars@, old(self).index as int, true)
                    == line_comment_end(self.chars@, self.index as int, true),
            ensures
                self.same_text(*old(self)),
                self.in_text(),
                self.index >= old(self).index,
                self.index == line_comment_end(old(self).chars@, old(self).index as int, true),
            decreases self.chars.len() - self.index,
        {
            let c = self.chars[self.index];
            if c == '\n' || c == '\r' || c == '}' || c == ']' {
                break;
            }
            self.index += 1;
        }
    }

    pub(crate) fn skip_ws_and_comments(&mut self)
        requires
            old(self).in_text(),
        ensures
            final(self).same_text(*old(self)),
            final(self).in_text(),
            final(self).index == skip_trivia(old(self).chars@, old(self).index as int, true),
            final(self).index >= old(self).index,
    {
        loop
            invariant
                self.same_text(*old(self)),
                self.in_text(),
                self.index >= old(self).index,
                skip_trivia(old(self).chars@, old(self).index as int, true) == skip_trivia(
                    self.chars@,
                    self.index as int,
                    true,
                ),
            decreases self.chars.len() - self.index,
        {
            self.index = self.skip_white_from(self.index);
            if self.peek() == Some('#') {
                self.index += 1;
                self.skip_line_comment();
                continue;
            }
            if self.peek() == Some('/') && self.peek_next() == Some('/') {
                self.index += 2;
                self.skip_line_comment();
                continue;
            }
            if self.peek() == Some('/') && self.peek_next() == Some('*') {
                self.index = self.skip_block_comment_from(self.index + 2);
                continue;
            }
            return;
        }
    }

    pub(crate) fn skip_ws_comments_and_commas(&mut self)
        requires
            old(self).in_text(),
        ensures
            final(self).same_text(*old(self)),
            final(self).in_text(),
            final(self).index == skip_separators(old(self).chars@, old(self).index as int),
            final(self).index >= old(self).index,
    {
        loop
            invariant
                self.same_text(*old(self)),
                self.in_text(),
                self.index >= old(self).index,
                skip_separators(old(self).chars@, old(self).index as int) == skip_separators(
                    self.chars@,
                    self.index as int,
                ),
            decreases self.chars.len() - self.index,
        {
            self.skip_ws_and_comments();
            if self.peek() == Some(',') {
                self.index += 1;
                continue;
            }
            return;
        }
    }

    pub(crate) fn skip_code_fence_marker(&mut self)
        requires
            old(self).in_text(),
        ensures
            final(self).same_text(*old(self)),
            final(self).in_text(),
            final(self).index == fence_end(old(self).chars@, old(self).index as int),
            final(self).index >= old(self).index,
    {
        let ghost start = self.index as int;
        while self.index < self.chars.len() && self.chars[self.index] == '`'
            invariant
                self.same_text(*old(self)),
                self.in_text(),
                self.index >= old(self).index,
                backquote_run(old(self).chars@, start) == backquote_run(
                    self.chars@,
                    self.index as int,
                ),
            decreases self.chars.len() - self.index,
        {
            self.index += 1;
        }
        let ghost marked = self.index as int;
        while self.index < self.chars.len() && self.chars[self.index].is_alphabetic()
            invariant
                self.same_text(*old(self)),
                self.in_text(),
                self.index >= old(self).index,
                letter_run(old(self).chars@, marked) == letter_run(self.chars@, self.index as int),
            decreases self.chars.len() - self.index,
        {
            self.index += 1;
        }
    }

    pub(crate) fn clone_probe(&self) -> (r: Parser)
        ensures
            r.chars@ == self.chars@,
            r.strict == self.strict,
            r.index == self.index,
    {
        let chars = self.chars.clone();
        assert(chars@ =~= self.chars@);
        Parser { chars, index: self.index, strict: self.strict }
    }
}

} // verus!
