//! What strict mode refuses in an object: a key that is repeated, and nothing else.

use crate::gaps::lemma_no_trivia;
use crate::grammar::{
    lemma_member_head, lemma_member_value, lemma_set_at, member_value, object_at, repaired,
    value_at, Failure, Outcome,
};
use crate::laws::lemma_object_agrees;
use crate::loose::{
    lemma_one_value_is_repaired, lemma_part_ends, lemma_part_start, part_is_proper, part_text,
    part_value, Part,
};
use crate::members::{is_among, lemma_object_member};
use crate::quoting::{is_plain_name, written_key};
use crate::scan::{at, lemma_skip_trivia, skip_separators, skip_trivia, Context};
use crate::standard::stands;
use crate::token::object_key;
use crate::value::{has_key, lemma_position, Json};
use vstd::prelude::*;

verus! {

/// The members that come at `i` in an object, up to the first whose value is refused: each key
/// with what strict mode reads as its value.
pub open spec fn members_read(s: Seq<char>, i: int) -> Seq<(Seq<char>, Outcome)>
    decreases s.len() - i,
{
    let j = skip_separators(s, i);
    let (key, k) = object_key(s, j);
    let after_key = skip_trivia(s, k, true);
    let start = skip_trivia(
        s,
        if at(s, after_key) == Some(':') {
            after_key + 1
        } else {
            after_key
        },
        true,
    );
    let value = match at(s, start) {
        None | Some(',') | Some('}') | Some(']') | Some(')') => Outcome::Value(
            Json::String(Seq::empty()),
            start,
        ),
        _ => member_value(s, start, true),
    };
    let ends = match at(s, j) {
        None | Some('}') | Some(']') | Some(')') | Some('[') => true,
        _ => at(s, after_key) == Some(',') || at(s, after_key) == Some('}') || (key.len() == 0
            && at(s, after_key) is None),
    };
    if ends {
        Seq::empty()
    } else {
        match value {
            Outcome::Value(_, end) => {
                let next = skip_trivia(s, end, true);
                let goes_on = if at(s, next) == Some(',') {
                    next + 1
                } else {
                    next
                };
                seq![(key, value)] + if at(s, next) != Some('}') && i < next && goes_on
                    <= s.len() {
                    members_read(s, goes_on)
                } else {
                    Seq::empty()
                }
            },
            _ => seq![(key, value)],
        }
    }
}

/// Whether no value was refused.
pub open spec fn none_refused(read: Seq<(Seq<char>, Outcome)>) -> bool {
    forall|k: int| 0 <= k < read.len() ==> (#[trigger] read[k]).1 !is Rejected
}

/// Whether the key read at `p` is a key already, or was read before.
pub open spec fn is_repeated(
    known: Seq<(Seq<char>, Json)>,
    read: Seq<(Seq<char>, Outcome)>,
    p: int,
) -> bool {
    ||| exists|k: int| 0 <= k < known.len() && (#[trigger] known[k]).0 == read[p].0
    ||| exists|k: int| 0 <= k < p && (#[trigger] read[k]).0 == read[p].0
}

/// If strict mode refuses an object in which no value is refused, the reason names a key that is
/// repeated. If no key is repeated, the object is read as without strict mode.
pub proof fn lemma_only_repeated_keys_are_refused(
    s: Seq<char>,
    i: int,
    known: Seq<(Seq<char>, Json)>,
)
    requires
        0 <= i <= s.len(),
        none_refused(members_read(s, i)),
    ensures
        ({
            let read = members_read(s, i);
            &&& object_at(s, i, true, known) matches Outcome::Rejected(reason) ==> exists|p: int|
                0 <= p < read.len() && is_repeated(known, read, p) && reason == "duplicate key `"@
                    + (#[trigger] read[p]).0 + "` found"@
            &&& (forall|p: int| 0 <= p < read.len() ==> !is_repeated(known, read, p)) ==> object_at(
                s,
                i,
                true,
                known,
            ) == object_at(s, i, false, known)
        }),
{
    lemma_refused_key(s, i, known);
    lemma_object_agrees(s, i, known);
}

proof fn lemma_refused_key(s: Seq<char>, i: int, known: Seq<(Seq<char>, Json)>)
    requires
        0 <= i <= s.len(),
        none_refused(members_read(s, i)),
    ensures
        ({
            let read = members_read(s, i);
            object_at(s, i, true, known) matches Outcome::Rejected(reason) ==> exists|p: int|
                0 <= p < read.len() && is_repeated(known, read, p) && reason == "duplicate key `"@
                    + (#[trigger] read[p]).0 + "` found"@
        }),
    decreases s.len() - i,
{
    let read = members_read(s, i);
    let j = skip_separators(s, i);
    let (key, k) = object_key(s, j);
    let after_key = skip_trivia(s, k, true);
    let start = skip_trivia(
        s,
        if at(s, after_key) == Some(':') {
            after_key + 1
        } else {
            after_key
        },
        true,
    );
    lemma_member_head(s, i);
    match at(s, j) {
        None => {},
        Some(c) => if c == '}' || c == ']' || c == ')' || c == '[' {
        } else if at(s, after_key) == Some(',') || at(s, after_key) == Some('}') {
            lemma_set_at(s, after_key, seq![Json::String(key)]);
        } else if key.len() == 0 && at(s, after_key) is None {
        } else {
            lemma_member_value(s, start, true);
            let value = match at(s, start) {
                None | Some(',') | Some('}') | Some(']') | Some(')') => Outcome::Value(
                    Json::String(Seq::empty()),
                    start,
                ),
                _ => member_value(s, start, true),
            };
            assert(read[0] == (key, value));
            match value {
                Outcome::Value(v, end) => {
                    let next = skip_trivia(s, end, true);
                    let goes_on = if at(s, next) == Some(',') {
                        next + 1
                    } else {
                        next
                    };
                    lemma_skip_trivia(s, end, true);
                    lemma_position(known, key, 0);
                    if has_key(known, key) {
                        assert(is_repeated(known, read, 0));
                    } else if at(s, next) != Some('}') {
                        let grown = known.push((key, v));
                        let later = members_read(s, goes_on);
                        assert(read == seq![(key, value)] + later);
                        assert forall|q: int| 0 <= q < later.len() implies (
                        #[trigger] later[q]).1 !is Rejected by {
                            assert(later[q] == read[q + 1]);
                        }
                        lemma_refused_key(s, goes_on, grown);
                        match object_at(s, goes_on, true, grown) {
                            Outcome::Rejected(reason) => {
                                let q = choose|q: int|
                                    0 <= q < later.len() && is_repeated(grown, later, q) && reason
                                        == "duplicate key `"@ + (#[trigger] later[q]).0
                                        + "` found"@;
                                lemma_repeated_later(known, read, (key, value), v, later, q);
                                assert(read[q + 1] == later[q]);
                            },
                            _ => {},
                        }
                    }
                },
                _ => {},
            }
        },
    }
}

proof fn lemma_repeated_later(
    known: Seq<(Seq<char>, Json)>,
    read: Seq<(Seq<char>, Outcome)>,
    first: (Seq<char>, Outcome),
    v: Json,
    later: Seq<(Seq<char>, Outcome)>,
    q: int,
)
    requires
        read == seq![first] + later,
        0 <= q < later.len(),
        is_repeated(known.push((first.0, v)), later, q),
    ensures
        is_repeated(known, read, q + 1),
{
    let grown = known.push((first.0, v));
    assert(read[q + 1] == later[q]);
    if exists|k: int| 0 <= k < grown.len() && (#[trigger] grown[k]).0 == later[q].0 {
        let k = choose|k: int| 0 <= k < grown.len() && (#[trigger] grown[k]).0 == later[q].0;
        if k < known.len() {
            assert(known[k].0 == read[q + 1].0);
        } else {
            assert(read[0].0 == read[q + 1].0);
        }
    } else {
        let k = choose|k: int| 0 <= k < q && (#[trigger] later[k]).0 == later[q].0;
        assert(read[k + 1].0 == read[q + 1].0);
    }
}

/// Two members with one key, from where the first starts to the closing brace.
#[verifier::spinoff_prover]
proof fn lemma_key_twice(
    s: Seq<char>,
    i: int,
    name: Seq<char>,
    first: Part,
    second: Part,
    strict: bool,
)
    requires
        is_plain_name(name),
        part_is_proper(first),
        part_is_proper(second),
        ({
            let head = head_of(name);
            let start = i + head.len();
            let comma = start + part_text(first).len();
            let again = comma + 1 + head.len() + 1;
            &&& stands(s, i, head)
            &&& stands(s, start, part_text(first))
            &&& at(s, comma) == Some(',')
            &&& stands(s, comma + 1, seq![' '] + head)
            &&& stands(s, again, part_text(second))
            &&& at(s, again + part_text(second).len()) == Some('}')
        }),
    ensures
        ({
            let head = head_of(name);
            let brace = i + head.len() + part_text(first).len() + 2 + head.len() + part_text(
                second,
            ).len();
            object_at(s, i, strict, Seq::empty()) == if strict {
                Outcome::Rejected("duplicate key `"@ + name + "` found"@)
            } else {
                Outcome::Value(Json::Object(seq![(name, part_value(second))]), brace + 1)
            }
        }),
{
    let none = Seq::<char>::empty();
    let nothing = Seq::<(Seq<char>, Json)>::empty();
    let head = head_of(name);
    let start = i + head.len();
    let comma = start + part_text(first).len();
    let again = comma + 2 + head.len();
    let brace = again + part_text(second).len();
    let one = nothing.push((name, part_value(first)));
    let other = seq![(name, part_value(second))];
    let quoted = written_key(name, false, '"', '"');
    assert(none + quoted + none + seq![':'] + seq![' '] =~= head);
    assert(seq![' '] + quoted + none + seq![':'] + seq![' '] =~= seq![' '] + head);
    assert(s.subrange(comma, comma) =~= none);
    assert(s.subrange(brace, brace) =~= none);
    lemma_part_start(s, start, first);
    lemma_part_start(s, again, second);
    lemma_part_ends(s, start, first, none, strict);
    lemma_part_ends(s, again, second, none, strict);
    lemma_object_member(
        s,
        i,
        strict,
        nothing,
        none,
        name,
        false,
        '"',
        '"',
        none,
        seq![' '],
        part_value(first),
        comma,
    );
    lemma_no_trivia(s, comma);
    assert(object_at(s, i, strict, nothing) == object_at(s, comma + 1, strict, one));
    lemma_object_member(
        s,
        comma + 1,
        strict,
        one,
        seq![' '],
        name,
        false,
        '"',
        '"',
        none,
        seq![' '],
        part_value(second),
        brace,
    );
    assert(one[0].0 == name);
    assert(is_among(one, name));
    assert(one.update(0, (name, part_value(second))) =~= other);
    lemma_no_trivia(s, brace);
}

/// A key in quotation marks, a colon and a space.
pub open spec fn head_of(name: Seq<char>) -> Seq<char> {
    seq!['"'] + name + seq!['"', ':', ' ']
}

/// An object that has one key twice, whatever its two values are: strict mode refuses it for
/// that key, and without strict mode the key has the second value.
pub proof fn lemma_key_that_comes_twice(name: Seq<char>, first: Part, second: Part, strict: bool)
    requires
        is_plain_name(name),
        part_is_proper(first),
        part_is_proper(second),
    ensures
        ({
            let text = seq!['{'] + head_of(name) + part_text(first) + seq![',', ' '] + head_of(name)
                + part_text(second) + seq!['}'];
            repaired(text, strict) == if strict {
                Err::<Json, Failure>(
                    Failure::Strict("duplicate key `"@ + name + "` found"@),
                )
            } else {
                Ok::<Json, Failure>(Json::Object(seq![(name, part_value(second))]))
            }
        }),
{
    let head = head_of(name);
    let a = part_text(first);
    let b = part_text(second);
    let s = seq!['{'] + head + a + seq![',', ' '] + head + b + seq!['}'];
    let k = head.len() as int;
    let comma = 1 + k + a.len();
    let again = comma + 2 + k;
    let brace = again + b.len();
    let other = Json::Object(seq![(name, part_value(second))]);
    assert(s.len() == brace + 1);
    assert(s.subrange(1, 1 + k) =~= head);
    assert(s.subrange(1 + k, comma) =~= a);
    assert(s.subrange(comma + 1, again) =~= seq![' '] + head);
    assert(s.subrange(again, brace) =~= b);
    lemma_key_twice(s, 1, name, first, second, strict);
    lemma_no_trivia(s, 0);
    assert(value_at(s, 0, Context::Start, strict) == object_at(s, 1, strict, Seq::empty()));
    if !strict {
        lemma_one_value_is_repaired(s, other, false);
    }
}

} // verus!
