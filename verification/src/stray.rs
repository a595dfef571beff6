//! What stands where no value can start, and tuples.

use crate::chars::is_white;
use crate::escapes::lemma_missing_quote_of_key;
use crate::gaps::{all_white, lemma_no_trivia, lemma_white_run, lemma_white_stands};
use crate::grammar::{
    all_found, array_at, member_value, object_at, repaired, value_at, Failure, Outcome,
};
use crate::lists::{
    lemma_list_end, lemma_list_item, lemma_object_end, lemma_parentheses, list_after,
};
use crate::loose::{closing_text, lemma_one_value_is_repaired};
use crate::loose_lists::{lemma_no_member_without_colon, lemma_same_list, no_colon};
use crate::members::{all_separators, is_among, lemma_plain_key, lemma_separators, object_after};
use crate::number::{bare_value, is_complete_token};
use crate::phrases::is_phrase;
use crate::quoting::{
    all_blank, is_blank, is_kept, is_pair, is_plain_char, is_plain_name, lacks,
    lemma_inner_quote_of_key_is_kept, lemma_kept, lemma_string_alone_is_read_whole,
    lemma_string_between, lemma_value_ends, string_between, value_ends, written_key,
};
use crate::scan::{
    at, comment_starts, lemma_skip_trivia, line_comment_end, skip_separators, skip_trivia,
    skip_white, string_can_close, Context,
};
use crate::standard::{lemma_part_stands, stands};
use crate::text::{trimmed, trimmed_end, trimmed_start, Trim};
use crate::token::{
    array_member_starts, bare_ends, bare_rest, object_key, tidy_bare, tidy_key, Stops,
};
use crate::value::{has_key, lemma_position, Json};
use crate::words::{
    is_token, is_token_char, lemma_tidy_with_white, lemma_token_chars, lemma_token_is_read,
    lemma_token_run, lemma_token_value, lemma_white_token_run, lemma_words, spells_false,
    spells_null, spells_true,
};
use vstd::prelude::*;

verus! {

/// Marks that start no value.
pub open spec fn is_stray(c: char) -> bool {
    ||| c == ';' || c == '!' || c == '?' || c == '*' || c == '=' || c == '|' || c == '<' || c == '>'
    ||| c == '+' || c == '~' || c == '&' || c == '%' || c == '$' || c == '@' || c == '^'
}

/// Inside a container nothing comes at a mark that closes something, and a mark that starts no
/// value is passed. Where a value of a member is due, a comma or another colon stands for the
/// empty text.
pub proof fn lemma_no_value(s: Seq<char>, i: int, context: Context, strict: bool)
    requires
        context == Context::ObjectValue || context == Context::Array,
    ensures
        at(s, i) is None && 0 <= i ==> value_at(s, i, context, strict) == Outcome::Nothing(i),
        at(s, i) matches Some(c) && (c == '}' || c == ']' || c == ')') ==> value_at(
            s,
            i,
            context,
            strict,
        ) == Outcome::Nothing(i),
        at(s, i) matches Some(c) && is_stray(c) ==> value_at(s, i, context, strict)
            == Outcome::Nothing(i + 1),
        at(s, i) matches Some(c) && (c == ',' || c == ':') && context == Context::ObjectValue
            ==> value_at(s, i, context, strict) == Outcome::Value(Json::String(Seq::empty()), i),
{
    if at(s, i) is None || (at(s, i) matches Some(c) && (is_stray(c) || c == '}' || c == ']' || c
        == ')' || c == ',' || c == ':')) {
        lemma_no_trivia(s, i);
    }
}

/// A mark that starts no value where the value of a member is due: the member has the empty
/// text, and the reading goes on after the mark.
pub proof fn lemma_stray_mark_in_object(
    s: Seq<char>,
    i: int,
    strict: bool,
    members: Seq<(Seq<char>, Json)>,
    name: Seq<char>,
    bare: bool,
    open: char,
    close: char,
    mark: char,
)
    requires
        is_plain_name(name),
        is_pair(open, close),
        is_stray(mark),
        !is_among(members, name),
        stands(s, i, written_key(name, bare, open, close) + seq![':', mark]),
    ensures
        object_at(s, i, strict, members) == object_after(
            s,
            i + written_key(name, bare, open, close).len() + 2,
            strict,
            members.push((name, Json::String(Seq::empty()))),
        ),
{
    let key = written_key(name, bare, open, close);
    let whole = key + seq![':', mark];
    let n = key.len() as int;
    let none = Seq::<char>::empty();
    lemma_part_stands(s, i, whole, 0, whole.len() as int);
    lemma_part_stands(s, i, whole, 0, n + 1);
    assert(whole.subrange(0, n + 1) =~= key + none + seq![':']);
    assert(s[i + 0] == whole[0]);
    assert(s[i + n] == whole[n]);
    assert(s[i + (n + 1)] == whole[n + 1]);
    assert(is_plain_char(name[0]));
    assert(s.subrange(i, i) =~= none);
    lemma_separators(s, i, none);
    lemma_plain_key(s, i, name, bare, open, close, none);
    lemma_no_trivia(s, i + n + 1);
    lemma_no_value(s, i + n + 1, Context::ObjectValue, strict);
    lemma_position(members, name, 0);
    assert(!has_key(members, name));
    lemma_skip_trivia(s, i + n + 2, true);
    assert(skip_trivia(s, i + n + 1, true) == i + n + 1);
    assert(value_at(s, i + n + 1, Context::ObjectValue, strict) == Outcome::Nothing(i + n + 2));
    assert(member_value(s, i + n + 1, strict) == Outcome::Value(
        Json::String(Seq::empty()),
        i + n + 2,
    ));
}

/// A mark that starts no value in a list is passed over together with the character after it.
pub proof fn lemma_stray_mark_in_list(
    s: Seq<char>,
    i: int,
    closing: char,
    strict: bool,
    items: Seq<Json>,
)
    requires
        closing == ']' || closing == ')',
        at(s, i) matches Some(c) && (is_stray(c) || (closing == ')' && (c == ']' || c == '}'))),
    ensures
        ({
            let passed = if is_stray(s[i]) {
                i + 2
            } else {
                i + 1
            };
            array_at(s, i, closing, strict, items) == list_after(
                s,
                if passed <= s.len() {
                    passed
                } else {
                    s.len() as int
                },
                closing,
                strict,
                items,
            )
        }),
{
    let passed = if is_stray(s[i]) {
        i + 2
    } else {
        i + 1
    };
    let end = if passed <= s.len() {
        passed
    } else {
        s.len() as int
    };
    lemma_no_trivia(s, i);
    lemma_no_value(s, i, Context::Array, strict);
    assert(skip_separators(s, i) == i);
    assert(!array_member_starts(s, i));
    lemma_skip_trivia(s, end, true);
}

/// A key in a list whose value was left out has the empty text.
pub proof fn lemma_list_member_without_value(
    s: Seq<char>,
    i: int,
    closing: char,
    strict: bool,
    items: Seq<Json>,
    name: Seq<char>,
    bare: bool,
    open: char,
    close: char,
)
    requires
        closing == ']' || closing == ')',
        is_plain_name(name),
        is_pair(open, close),
        stands(s, i, written_key(name, bare, open, close) + seq![':']),
        match at(s, i + written_key(name, bare, open, close).len() + 1) {
            Some(c) => c == ',' || c == ']' || c == '}' || c == ')',
            None => true,
        },
    ensures
        array_at(s, i, closing, strict, items) == list_after(
            s,
            i + written_key(name, bare, open, close).len() + 1,
            closing,
            strict,
            items.push(Json::Object(seq![(name, Json::String(Seq::empty()))])),
        ),
{
    let key = written_key(name, bare, open, close);
    let whole = key + seq![':'];
    let n = key.len() as int;
    let none = Seq::<char>::empty();
    lemma_part_stands(s, i, whole, 0, whole.len() as int);
    assert(whole =~= key + none + seq![':']);
    assert(s[i + 0] == whole[0]);
    assert(is_plain_char(name[0]));
    assert(s.subrange(i, i) =~= none);
    lemma_separators(s, i, none);
    lemma_plain_key(s, i, name, bare, open, close, none);
    assert(array_member_starts(s, i));
    lemma_no_value(s, i + n + 1, Context::ObjectValue, strict);
    lemma_skip_trivia(s, i + n + 1, true);
    assert(member_value(s, i + n + 1, strict) == Outcome::Value(
        Json::String(Seq::empty()),
        i + n + 1,
    ));
}

/// A token before a closing parenthesis is read up to that.
pub proof fn lemma_token_before_parenthesis(
    s: Seq<char>,
    i: int,
    b: Seq<char>,
    w: Seq<char>,
    context: Context,
    strict: bool,
)
    requires
        is_token(b),
        stands(s, i, b),
        stands(s, i + b.len(), w),
        all_white(w),
        at(s, i + b.len() + w.len()) == Some(')'),
        context == Context::ObjectValue || context == Context::Array,
    ensures
        value_at(s, i, context, strict) == Outcome::Value(bare_value(b), i + b.len() + w.len()),
{
    let n = i + b.len();
    lemma_token_chars(s, i, b);
    lemma_token_run(s, i, n, Stops::Value, context, Seq::empty());
    assert(Seq::empty() + s.subrange(i, n) =~= b);
    lemma_part_stands(s, n, w, 0, w.len() as int);
    assert forall|k: int| n <= k < n + w.len() implies is_white(#[trigger] s[k]) by {
        assert(s[n + (k - n)] == w[k - n]);
    }
    lemma_white_token_run(s, n, n + w.len(), Stops::Value, context, b);
    assert(s.subrange(n, n + w.len()) =~= w);
    assert(bare_ends(s, n + w.len(), Stops::Value, context, b + w));
    lemma_tidy_with_white(b, w);
    lemma_token_value(s, i, b, context, strict);
}

/// The text of the tokens of a tuple, with a comma after each, and of the closing parenthesis.
pub open spec fn tuple_text(tokens: Seq<Seq<char>>) -> Seq<char>
    decreases tokens.len(),
{
    if tokens.len() == 0 {
        seq![')']
    } else {
        tokens[0] + (if tokens.len() > 1 {
            seq![',', ' ']
        } else {
            Seq::empty()
        }) + tuple_text(tokens.skip(1))
    }
}

/// Whether the tokens of a tuple are proper: no token stands for nothing.
pub open spec fn tokens_are_proper(tokens: Seq<Seq<char>>) -> bool {
    forall|k: int|
        0 <= k < tokens.len() ==> is_token(#[trigger] tokens[k]) && bare_value(tokens[k])
            != Json::String(Seq::empty()) && bare_value(tokens[k]) != Json::String(
            seq!['.', '.', '.'],
        )
}

pub open spec fn token_values(tokens: Seq<Seq<char>>) -> Seq<Json> {
    tokens.map_values(|b: Seq<char>| bare_value(b))
}

/// The first token of a tuple is an item, and after it the reading goes on with the others.
proof fn lemma_tuple_item(
    s: Seq<char>,
    i: int,
    tokens: Seq<Seq<char>>,
    strict: bool,
    items: Seq<Json>,
)
    requires
        tokens.len() > 0,
        tokens_are_proper(tokens),
        stands(s, i, tuple_text(tokens)),
        no_colon(s, i),
    ensures
        ({
            let next = i + tokens[0].len() + (if tokens.len() > 1 {
                2int
            } else {
                0
            });
            let rest = tuple_text(tokens.skip(1));
            &&& array_at(s, i, ')', strict, items) == array_at(
                s,
                next,
                ')',
                strict,
                items.push(bare_value(tokens[0])),
            )
            &&& stands(s, next, rest)
            &&& next + rest.len() == i + tuple_text(tokens).len()
            &&& tokens_are_proper(tokens.skip(1))
        }),
{
    let text = tuple_text(tokens);
    let none = Seq::<char>::empty();
    let b = tokens[0];
    let rest = tokens.skip(1);
    let tail = tuple_text(rest);
    let n = b.len() as int;
    let sep = if tokens.len() > 1 {
        2int
    } else {
        0
    };
    let grown = items.push(bare_value(b));
    let m = i + n;
    lemma_part_stands(s, i, text, 0, text.len() as int);
    assert(is_token(b) && is_token_char(b[0]));
    assert(s[i + 0] == text[0] && text[0] == b[0]);
    lemma_part_stands(s, i, text, 0, n);
    assert(text.subrange(0, n) =~= b);
    lemma_part_stands(s, i, text, n + sep, text.len() as int);
    assert(text.subrange(n + sep, text.len() as int) =~= tail);
    assert(s[i + n] == text[n]);
    assert(s.subrange(m, m) =~= none);
    assert(s.subrange(i, i) =~= none);
    assert forall|k: int| 0 <= k < rest.len() implies is_token(#[trigger] rest[k]) && bare_value(
        rest[k],
    ) != Json::String(Seq::empty()) && bare_value(rest[k]) != Json::String(seq!['.', '.', '.']) by {
        assert(rest[k] == tokens[k + 1]);
    }
    if tokens.len() > 1 {
        assert(text[n] == ',');
        assert(s[i + (n + 1)] == text[n + 1]);
        lemma_token_is_read(s, i, b, none, Context::Array, strict);
    } else {
        assert(rest =~= Seq::empty());
        lemma_token_before_parenthesis(s, i, b, none, Context::Array, strict);
    }
    lemma_no_member_without_colon(s, i);
    lemma_list_item(s, i, ')', strict, items, none, bare_value(b), m);
    lemma_no_trivia(s, m);
    assert(array_at(s, i, ')', strict, items) == list_after(s, m, ')', strict, grown));
    if tokens.len() > 1 {
        assert(rest[0] == tokens[1]);
        assert(is_token(rest[0]) && is_token_char(rest[0][0]));
        assert(tail[0] == rest[0][0]);
        lemma_part_stands(s, m + 2, tail, 0, tail.len() as int);
        assert(s[m + 2 + 0] == tail[0]);
        assert(s.subrange(m + 1, m + 2) =~= seq![' ']);
        assert(s.subrange(m + 2, m + 2) =~= none);
        lemma_separators(s, m + 1, seq![' ']);
        lemma_separators(s, m + 2, none);
        lemma_same_list(s, m + 1, m + 2, ')', strict, grown);
    }
}

/// The tokens of a tuple are the items of a list.
proof fn lemma_tuple_items(
    s: Seq<char>,
    i: int,
    tokens: Seq<Seq<char>>,
    strict: bool,
    items: Seq<Json>,
)
    requires
        tokens_are_proper(tokens),
        stands(s, i, tuple_text(tokens)),
        no_colon(s, i),
    ensures
        array_at(s, i, ')', strict, items) == Outcome::Value(
            Json::Array(items + token_values(tokens)),
            i + tuple_text(tokens).len(),
        ),
    decreases tokens.len(),
{
    if tokens.len() == 0 {
        let text = tuple_text(tokens);
        lemma_part_stands(s, i, text, 0, text.len() as int);
        assert(s.subrange(i, i) =~= Seq::empty());
        assert(s[i + 0] == text[0]);
        assert(items + token_values(tokens) =~= items);
        lemma_list_end(s, i, ')', strict, items, Seq::empty());
    } else {
        let next = i + tokens[0].len() + (if tokens.len() > 1 {
            2int
        } else {
            0
        });
        let grown = items.push(bare_value(tokens[0]));
        lemma_tuple_item(s, i, tokens, strict, items);
        lemma_tuple_items(s, next, tokens.skip(1), strict, grown);
        assert(grown + token_values(tokens.skip(1)) =~= items + token_values(tokens));
    }
}

/// A tuple of tokens is the list of their values, or the value of the only one, whatever it
/// stands in.
pub proof fn lemma_tuple(tokens: Seq<Seq<char>>, strict: bool)
    requires
        tokens.len() > 0,
        tokens_are_proper(tokens),
        '0' <= tokens[0][0] <= '9' || tokens[0][0] == '-' || tokens[0][0] == '.',
        lacks(tuple_text(tokens), ':'),
    ensures
        repaired(seq!['('] + tuple_text(tokens), strict) == Ok::<Json, Failure>(
            if tokens.len() == 1 {
                bare_value(tokens[0])
            } else {
                Json::Array(token_values(tokens))
            },
        ),
{
    let text = tuple_text(tokens);
    let s = seq!['('] + text;
    let values = token_values(tokens);
    assert(is_token(tokens[0]));
    assert(text[0] == tokens[0][0]);
    assert(s[1] == text[0]);
    assert(s.subrange(1, s.len() as int) =~= text);
    assert forall|k: int| 1 <= k < s.len() implies #[trigger] s[k] != ':' by {
        assert(s[k] == text[k - 1]);
    }
    lemma_tuple_items(s, 1, tokens, strict, Seq::empty());
    assert(Seq::<Json>::empty() + values =~= values);
    lemma_parentheses(s, 0, Context::Start, strict);
    let value = if tokens.len() == 1 {
        bare_value(tokens[0])
    } else {
        Json::Array(values)
    };
    lemma_one_value_is_repaired(s, value, strict);
}

/// A bare key loses a quotation mark that stands at its end without one at its start.
pub proof fn lemma_key_with_stray_quote(
    s: Seq<char>,
    i: int,
    name: Seq<char>,
    quote: char,
    end: char,
)
    requires
        is_plain_name(name),
        quote == '"' || quote == '\'' || quote == '\u{201c}' || quote == '\u{201d}',
        end == ':' || end == ',' || end == '}',
        stands(s, i, name + seq![quote, end]),
    ensures
        object_key(s, i) == (name, i + name.len() + 1),
{
    let whole = name + seq![quote, end];
    let n = i + name.len();
    let none = Seq::<char>::empty();
    let key = name + seq![quote];
    lemma_part_stands(s, i, whole, 0, whole.len() as int);
    assert(s[i + 0] == whole[0]);
    let m = name.len() as int;
    assert(s[i + m] == whole[m]);
    assert(s[i + (m + 1)] == whole[m + 1]);
    assert(is_plain_char(name[0]) && is_plain_char(name[name.len() - 1]));
    assert forall|k: int| i <= k < n implies !is_white(#[trigger] s[k]) && !Stops::Key.has(s[k])
        && s[k] != '#' && s[k] != '/' by {
        assert(s[i + (k - i)] == whole[k - i]);
        assert(is_plain_char(name[k - i]));
    }
    lemma_token_run(s, i, n + 1, Stops::Key, Context::ObjectKey, none);
    assert(none + s.subrange(i, n + 1) =~= key) by {
        assert forall|k: int| 0 <= k < key.len() implies s[i + k] == key[k] by {
            assert(s[i + k] == whole[k]);
        }
    }
    assert(bare_ends(s, n + 1, Stops::Key, Context::ObjectKey, key));
    lemma_no_trivia(s, i);
    lemma_trim_ends(key);
    assert(tidy_bare(key) == key);
    lemma_trim_ends(name);
    lemma_drop_quote(name, quote);
}

/// A text that starts with a plain character loses nothing at its start.
proof fn lemma_trim_ends(t: Seq<char>)
    requires
        t.len() > 0,
        is_plain_char(t[0]),
        !is_white(t.last()),
        t.last() != '`',
    ensures
        trimmed(t, Trim::White) == t,
        trimmed_end(t, Trim::Only('`')) == t,
{
}

proof fn lemma_drop_quote(name: Seq<char>, quote: char)
    requires
        is_plain_name(name),
        quote == '"' || quote == '\'' || quote == '\u{201c}' || quote == '\u{201d}',
    ensures
        tidy_key(name + seq![quote]) == name,
{
    let key = name + seq![quote];
    assert(is_plain_char(name[0]) && is_plain_char(name[name.len() - 1]));
    assert(key[0] == name[0] && key.last() == quote);
    assert(key.drop_last() =~= name);
    assert forall|c: char| c == '"' || c == '\'' || c == '\u{201c}' || c == '\u{201d}' implies
        #[trigger] trimmed(name, Trim::Only(c)) == name && trimmed(key, Trim::Only(c)) == (if c
        == quote {
        name
    } else {
        key
    }) by {
        assert(trimmed_start(key, Trim::Only(c)) == key);
        assert(trimmed_end(name, Trim::Only(c)) == name);
    }
    assert(trimmed(key, Trim::White) == key);
    assert(trimmed(name, Trim::White) == name);
    assert(trimmed(name, Trim::Only('"')) == name);
    assert(trimmed(name, Trim::Only('\'')) == name);
    assert(trimmed(name, Trim::Only('\u{201c}')) == name);
    assert(trimmed(name, Trim::Only('\u{201d}')) == name);
}

/// A phrase in a list is read whole, up to the comma or closing bracket after it, if no word for
/// true, false or null and no number starts it.
pub proof fn lemma_phrase_in_list(s: Seq<char>, i: int, p: Seq<char>, strict: bool)
    requires
        is_phrase(p),
        'a' <= p[0] <= 'z' || 'A' <= p[0] <= 'Z' || p[0] == '_',
        p[0] != 't' && p[0] != 'T' && p[0] != 'f' && p[0] != 'F' && p[0] != 'n' && p[0] != 'N',
        stands(s, i, p),
        at(s, i + p.len()) == Some(',') || at(s, i + p.len()) == Some(']'),
    ensures
        value_at(s, i, Context::Array, strict) == Outcome::Value(bare_value(p), i + p.len()),
{
    let n = i + p.len();
    let none = Seq::<char>::empty();
    lemma_part_stands(s, i, p, 0, p.len() as int);
    assert(s[i + 0] == p[0]);
    assert forall|j: int| i <= j < n implies is_token_char(#[trigger] s[j]) || is_blank(s[j]) by {
        assert(s[i + (j - i)] == p[j - i]);
    }
    lemma_list_phrase_run(s, i, i, n);
    assert(s.subrange(i, i) =~= none);
    assert(s.subrange(i, n) =~= p);
    lemma_trim_ends(p);
    assert(tidy_bare(p) == p);
    lemma_no_trivia(s, i);
}

proof fn lemma_list_phrase_run(s: Seq<char>, from: int, i: int, n: int)
    requires
        0 <= from <= i <= n < s.len(),
        from < n,
        forall|j: int| from <= j < n ==> is_token_char(#[trigger] s[j]) || is_blank(s[j]),
        s[n] == ',' || s[n] == ']',
        'a' <= s[from] <= 'z' || 'A' <= s[from] <= 'Z' || s[from] == '_',
        s[from] != 't' && s[from] != 'T' && s[from] != 'f' && s[from] != 'F' && s[from] != 'n'
            && s[from] != 'N',
    ensures
        bare_rest(s, i, Stops::Value, Context::Array, s.subrange(from, i)) == (
            s.subrange(from, n),
            n,
        ),
    decreases n - i,
{
    let out = s.subrange(from, i);
    if i < n {
        assert(is_token_char(s[i]) || is_blank(s[i]));
        if i > from {
            lemma_incomplete(out);
        }
        assert(!bare_ends(s, i, Stops::Value, Context::Array, out));
        assert(out.push(s[i]) =~= s.subrange(from, i + 1));
        lemma_list_phrase_run(s, from, i + 1, n);
    }
}

proof fn lemma_incomplete(out: Seq<char>)
    requires
        out.len() > 0,
        'a' <= out[0] <= 'z' || 'A' <= out[0] <= 'Z' || out[0] == '_',
        out[0] != 't' && out[0] != 'T' && out[0] != 'f' && out[0] != 'F' && out[0] != 'n' && out[0]
            != 'N',
    ensures
        !is_complete_token(out),
{
    let text = trimmed(out, Trim::White);
    lemma_keeps_start(out);
    assert(text.len() > 0 ==> text[0] == out[0]);
    lemma_words(text);
    assert(!spells_true(text) && !spells_false(text) && !spells_null(text));
}

proof fn lemma_keeps_start(t: Seq<char>)
    requires
        t.len() > 0,
        !is_white(t[0]),
    ensures
        trimmed(t, Trim::White).len() > 0,
        trimmed(t, Trim::White)[0] == t[0],
    decreases t.len(),
{
    if is_white(t.last()) {
        assert(t.drop_last()[0] == t[0]);
        lemma_keeps_start(t.drop_last());
    }
}

/// A quotation mark that a mark follows which starts no value and closes nothing, after
/// whitespace or at once, is part of the string.
pub proof fn lemma_quote_before_mark_is_kept(
    s: Seq<char>,
    i: int,
    open: char,
    close: char,
    first: Seq<char>,
    w: Seq<char>,
    mark: char,
    last: Seq<char>,
    end: Seq<char>,
    strict: bool,
)
    requires
        is_pair(open, close),
        all_blank(w),
        is_stray(mark) || mark == ':' || mark == ')',
        ({
            let t = first + seq![close] + w + seq![mark] + last;
            &&& lacks(t, '\\')
            &&& lacks(t, '}')
            &&& lacks(t, ']')
            &&& is_kept(Seq::empty(), t, Seq::empty(), Seq::empty())
            &&& stands(s, i, string_between(open, t, close))
            &&& value_ends(s, i + t.len() + 2, end)
        }),
        lacks(first, close),
        lacks(last, close),
    ensures
        ({
            let t = first + seq![close] + w + seq![mark] + last;
            &&& value_at(s, i, Context::ObjectValue, strict) == Outcome::Value(
                Json::String(t),
                i + t.len() + 2,
            )
            &&& value_at(s, i, Context::Array, strict) == Outcome::Value(
                Json::String(t),
                i + t.len() + 2,
            )
        }),
{
    let t = first + seq![close] + w + seq![mark] + last;
    let text = string_between(open, t, close);
    let none = Seq::<char>::empty();
    let f = first.len() as int;
    let after = i + f + 2;
    let at_mark = after + w.len();
    lemma_part_stands(s, i, text, 0, text.len() as int);
    assert forall|k: int| 0 <= k < t.len() implies #[trigger] s[i + 1 + k] == t[k] by {
        assert(s[i + (k + 1)] == text[k + 1]);
    }
    assert forall|k: int| after <= k < at_mark implies is_white(#[trigger] s[k]) by {
        assert(s[i + 1 + (k - i - 1)] == t[k - i - 1]);
        assert(t[k - i - 1] == w[k - after]);
        assert(is_blank(w[k - after]));
    }
    assert(s[i + 1 + (at_mark - i - 1)] == t[at_mark - i - 1]);
    assert(s[at_mark] == mark);
    lemma_white_run(s, after, at_mark);
    lemma_no_trivia(s, at_mark);
    assert(skip_trivia(s, after, false) == skip_trivia(s, at_mark, false));
    assert(!string_can_close(s, after, Context::ObjectValue));
    assert(!string_can_close(s, after, Context::Array));
    assert forall|k: int| 0 <= k < t.len() && #[trigger] t[k] == close implies k == f by {
        if k < f {
            assert(t[k] == first[k]);
        } else if k > f {
            if k - f - 1 < w.len() {
                assert(t[k] == w[k - f - 1]);
                assert(is_blank(w[k - f - 1]));
            } else if k > f + 1 + w.len() {
                assert(t[k] == last[k - f - 2 - w.len()]);
            }
        }
    }
    assert(none + t + none + none =~= t);
    lemma_kept(none, t, none, none);
    lemma_value_ends(s, i + t.len() + 2, end);
    lemma_string_between(s, i, open, close, t, Context::ObjectValue);
    lemma_string_between(s, i, open, close, t, Context::Array);
    lemma_no_trivia(s, i);
}

/// A word: a token start, and then any characters but whitespace, backquotes, those that end a
/// value, and those that can start a comment.
pub open spec fn is_word(b: Seq<char>) -> bool {
    &&& b.len() > 0
    &&& is_token_char(b[0]) && b[0] != '+'
    &&& forall|k: int|
        0 <= k < b.len() ==> !is_white(#[trigger] b[k]) && b[k] != ',' && b[k] != '}' && b[k] != ']'
            && b[k] != ')' && b[k] != '#' && b[k] != '/' && b[k] != '`'
}

/// A word is read whole, with the colons, quotation marks and brackets in it.
pub proof fn lemma_word_is_read_whole(
    s: Seq<char>,
    i: int,
    b: Seq<char>,
    context: Context,
    strict: bool,
)
    requires
        is_word(b),
        stands(s, i, b),
        context == Context::ObjectValue || context == Context::Array,
        match at(s, i + b.len()) {
            Some(c) => c == ',' || c == '}' || c == ']' || c == ')',
            None => true,
        },
    ensures
        value_at(s, i, context, strict) == Outcome::Value(bare_value(b), i + b.len()),
{
    let n = i + b.len();
    let none = Seq::<char>::empty();
    lemma_part_stands(s, i, b, 0, b.len() as int);
    assert(s[i + 0] == b[0]);
    assert forall|k: int| i <= k < n implies !is_white(#[trigger] s[k]) && !Stops::Value.has(s[k])
        && s[k] != '#' && s[k] != '/' by {
        assert(s[i + (k - i)] == b[k - i]);
    }
    lemma_token_run(s, i, n, Stops::Value, context, none);
    assert(none + s.subrange(i, n) =~= b);
    assert(bare_ends(s, n, Stops::Value, context, b));
    assert(!is_white(b[b.len() - 1]));
    assert(trimmed(b, Trim::White) == b);
    assert(trimmed_end(b, Trim::Only('`')) == b);
    assert(tidy_bare(b) == b);
    lemma_no_trivia(s, i);
}

/// A quotation mark that the text ends with, where a key is due, is no member.
pub proof fn lemma_dangling_quote(
    s: Seq<char>,
    i: int,
    strict: bool,
    members: Seq<(Seq<char>, Json)>,
    before: Seq<char>,
    open: char,
    close: char,
)
    requires
        all_separators(before),
        is_pair(open, close),
        stands(s, i, before + seq![open]),
        i + before.len() + 1 == s.len(),
    ensures
        object_at(s, i, strict, members) == Outcome::Value(
            Json::Object(members),
            s.len() as int,
        ),
{
    let whole = before + seq![open];
    let b = before.len() as int;
    let j = i + b;
    let none = Seq::<char>::empty();
    lemma_part_stands(s, i, whole, 0, whole.len() as int);
    assert(s[i + b] == whole[b]);
    lemma_part_stands(s, i, whole, 0, b);
    assert(whole.subrange(0, b) =~= before);
    lemma_separators(s, i, before);
    assert(s.subrange(j, j + 1) =~= seq![open] + none);
    assert(none + none + none + none =~= none);
    lemma_missing_quote_of_key(s, j, open, close, none, none, none, none);
    lemma_no_trivia(s, s.len() as int);
}

/// A key that the text ends with, closed or not, is a member with the empty text.
pub proof fn lemma_unfinished_member(
    s: Seq<char>,
    i: int,
    strict: bool,
    members: Seq<(Seq<char>, Json)>,
    before: Seq<char>,
    open: char,
    close: char,
    name: Seq<char>,
    closed: bool,
)
    requires
        all_separators(before),
        is_pair(open, close),
        is_plain_name(name),
        !is_among(members, name),
        stands(s, i, before + seq![open] + name + closing_text(closed, close)),
        i + (before + seq![open] + name + closing_text(closed, close)).len() == s.len(),
    ensures
        object_at(s, i, strict, members) == Outcome::Value(
            Json::Object(members.push((name, Json::String(Seq::empty())))),
            s.len() as int,
        ),
{
    let whole = before + seq![open] + name + closing_text(closed, close);
    let b = before.len() as int;
    let j = i + b;
    let n = s.len() as int;
    let none = Seq::<char>::empty();
    lemma_part_stands(s, i, whole, 0, whole.len() as int);
    assert(s[i + b] == whole[b]);
    lemma_part_stands(s, i, whole, 0, b);
    assert(whole.subrange(0, b) =~= before);
    lemma_part_stands(s, i, whole, b, whole.len() as int);
    lemma_separators(s, i, before);
    assert(none + name + none + none =~= name);
    assert(is_plain_char(name[0]) && is_plain_char(name[name.len() - 1]));
    assert forall|k: int| 0 <= k < name.len() implies is_plain_char(#[trigger] name[k]) by {}
    if closed {
        assert(whole.subrange(b, whole.len() as int) =~= string_between(open, name, close));
        assert(s.subrange(n, n) =~= none);
        lemma_inner_quote_of_key_is_kept(s, j, open, close, none, name, none, none, none);
    } else {
        assert(whole.subrange(b, whole.len() as int) =~= seq![open] + name);
        lemma_missing_quote_of_key(s, j, open, close, none, name, none, none);
    }
    assert(object_key(s, j) == (name, n));
    lemma_no_trivia(s, n);
    lemma_position(members, name, 0);
    assert(!has_key(members, name));
    let grown = members.push((name, Json::String(Seq::empty())));
    assert(s.subrange(n, n) =~= none);
    lemma_object_end(s, n, strict, grown, none);
}

/// A parenthesis outside any value that a value follows after whitespace opens a list.
pub proof fn lemma_parenthesis_then_value(
    s: Seq<char>,
    i: int,
    w: Seq<char>,
    context: Context,
    strict: bool,
)
    requires
        context == Context::Start || context == Context::Top,
        at(s, i) == Some('('),
        stands(s, i + 1, w),
        all_white(w),
        at(s, i + 1 + w.len()) matches Some(c) && ('0' <= c <= '9' || c == '-' || c == '.' || c
            == '"' || c == '\'' || c == '\u{201c}' || c == '{' || c == '[' || c == '('),
    ensures
        value_at(s, i, context, strict) == match array_at(s, i + 1, ')', strict, Seq::empty()) {
            Outcome::Value(Json::Array(items), next) if items.len() == 1 => Outcome::Value(
                items[0],
                next,
            ),
            list => list,
        },
{
    lemma_no_trivia(s, i);
    lemma_white_stands(s, i + 1, w);
    lemma_no_trivia(s, i + 1 + w.len());
}

/// A string outside any value, with a comment after it to the end of the text, closed or not.
pub proof fn lemma_string_alone_before_comment(
    s: Seq<char>,
    i: int,
    open: char,
    close: char,
    t: Seq<char>,
    w: Seq<char>,
    comment: Seq<char>,
    context: Context,
    strict: bool,
)
    requires
        context == Context::Start || context == Context::Top,
        is_pair(open, close),
        is_kept(Seq::empty(), t, Seq::empty(), Seq::empty()),
        lacks(t, close),
        lacks(t, '\\'),
        all_white(w),
        lacks(comment, '\n'),
        lacks(comment, '\r'),
        stands(s, i, string_between(open, t, close) + w + seq!['#'] + comment) || stands(
            s,
            i,
            string_between(open, t, close) + w + seq!['/', '/'] + comment,
        ),
        i + t.len() + 2 + w.len() + (if s[i + t.len() + 2 + w.len()] == '#' {
            1int
        } else {
            2
        }) + comment.len() == s.len(),
    ensures
        value_at(s, i, context, strict) == Outcome::Value(Json::String(t), i + t.len() + 2),
{
    let none = Seq::<char>::empty();
    let text = string_between(open, t, close);
    let n = text.len() as int;
    let hash = stands(s, i, text + w + seq!['#'] + comment);
    let mark = if hash {
        seq!['#']
    } else {
        seq!['/', '/']
    };
    let whole = text + w + mark + comment;
    let c = n + w.len();
    let d = c + mark.len();
    lemma_part_stands(s, i, whole, 0, whole.len() as int);
    lemma_part_stands(s, i, whole, 0, n);
    assert(whole.subrange(0, n) =~= text);
    lemma_part_stands(s, i, whole, n, c);
    assert(whole.subrange(n, c) =~= w);
    assert(s[i + c] == whole[c]);
    if !hash {
        assert(s[i + (c + 1)] == whole[c + 1]);
    }
    assert(whole.len() == d + comment.len());
    assert(i + whole.len() == s.len());
    assert forall|k: int| i + d <= k < s.len() implies #[trigger] s[k] != '\n' && s[k] != '\r' by {
        assert(s[i + (k - i)] == whole[k - i]);
        assert(whole[k - i] == comment[k - i - d]);
    }
    lemma_line_beyond(s, i + d);
    lemma_white_stands(s, i + n, w);
    assert(skip_white(s, i + c) == i + c);
    assert(comment_starts(s, i + c));
    lemma_no_trivia(s, s.len() as int);
    assert(skip_trivia(s, i + c, false) == s.len());
    assert(skip_trivia(s, i + n, false) == skip_trivia(s, i + c, false));
    assert(none + t + none + none =~= t);
    lemma_kept(none, t, none, none);
    lemma_string_between(s, i, open, close, t, context);
    lemma_no_trivia(s, i);
}

proof fn lemma_line_beyond(s: Seq<char>, i: int)
    requires
        0 <= i <= s.len(),
        forall|k: int| i <= k < s.len() ==> #[trigger] s[k] != '\n' && s[k] != '\r',
    ensures
        line_comment_end(s, i, false) == s.len(),
    decreases s.len() - i,
{
    if i < s.len() {
        lemma_line_beyond(s, i + 1);
    }
}

/// A string that is all there is: its text, or nothing if that is empty.
pub proof fn lemma_string_alone_is_repaired(
    open: char,
    close: char,
    lead: Seq<char>,
    u: Seq<char>,
    trail: Seq<char>,
    ticks: Seq<char>,
    strict: bool,
)
    requires
        is_pair(open, close),
        is_kept(lead, u, trail, ticks),
        lacks(lead + u + trail + ticks, '#'),
        lacks(lead + u + trail + ticks, '/'),
        lacks(lead + u + trail + ticks, '\\'),
    ensures
        repaired(string_between(open, lead + u + trail + ticks, close), strict) == if u.len() == 0 {
            Err::<Json, Failure>(Failure::Empty)
        } else {
            Ok::<Json, Failure>(Json::String(u))
        },
{
    let s = string_between(open, lead + u + trail + ticks, close);
    let none = Seq::<char>::empty();
    let n = s.len() as int;
    assert(s + none =~= s);
    assert(s.subrange(0, n) =~= s);
    lemma_string_alone_is_read_whole(
        s,
        0,
        open,
        close,
        lead,
        u,
        trail,
        ticks,
        none,
        Context::Start,
        strict,
    );
    if u.len() == 0 {
        assert(u =~= none);
        let found = Seq::<Json>::empty();
        assert(all_found(s, n, strict, found) == Ok::<Seq<Json>, Seq<char>>(found));
        assert(all_found(s, 0, strict, found) == Ok::<Seq<Json>, Seq<char>>(found));
    } else {
        lemma_one_value_is_repaired(s, Json::String(u), strict);
    }
}

} // verus!
