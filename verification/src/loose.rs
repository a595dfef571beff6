//! Objects and lists that are written loosely: commas, quotation marks and closing marks may be
//! missing.

use crate::chars::is_white;
use crate::gaps::{all_white, lemma_no_trivia, lemma_white_stands};
use crate::grammar::{all_found, found_added, object_at, repaired, value_at, Failure, Outcome};
use crate::lists::lemma_object_end;
use crate::members::{
    is_among, lemma_object_member, lemma_same_object, lemma_separators, object_after,
};
use crate::number::bare_value;
use crate::plain::{is_plain, is_plain_text, lemma_plain_value};
use crate::quoting::{
    all_blank, is_kept, is_pair, is_plain_char, is_plain_name, lacks,
    lemma_closed_string_is_read_whole, lemma_string_closes_before_member, member_ahead,
    string_between, value_ends, written_key,
};
use crate::scan::{at, skip_trivia, Context};
use crate::standard::{lemma_part_stands, stands};
use crate::value::{Json, Num, Object};
use crate::words::{
    is_token, is_token_char, lemma_integers, lemma_token_ends_before_member, lemma_token_is_read,
};
use crate::writer::{number_text, rendered};
use vstd::prelude::*;

verus! {

/// A value as it is written: in quotation marks, with what is trimmed off around the text; as a
/// word; or as a plain object.
pub enum Part {
    Text {
        open: char,
        close: char,
        lead: Seq<char>,
        kept: Seq<char>,
        trail: Seq<char>,
        ticks: Seq<char>,
    },
    Word(Seq<char>),
    Object(Seq<(Seq<char>, Json)>),
}

pub open spec fn part_text(part: Part) -> Seq<char> {
    match part {
        Part::Text { open, close, lead, kept, trail, ticks } => string_between(
            open,
            lead + kept + trail + ticks,
            close,
        ),
        Part::Word(b) => b,
        Part::Object(m) => rendered(Json::Object(m), false),
    }
}

/// The value that is meant.
pub open spec fn part_value(part: Part) -> Json {
    match part {
        Part::Text { kept, .. } => Json::String(kept),
        Part::Word(b) => bare_value(b),
        Part::Object(m) => Json::Object(m),
    }
}

pub open spec fn part_is_proper(part: Part) -> bool {
    match part {
        Part::Text { open, close, lead, kept, trail, ticks } => {
            let t = lead + kept + trail + ticks;
            &&& is_pair(open, close)
            &&& is_kept(lead, kept, trail, ticks)
            &&& lacks(t, close)
            &&& lacks(t, '\\')
            &&& lacks(t, '}')
            &&& lacks(t, ']')
        },
        Part::Word(b) => is_token(b),
        Part::Object(m) => is_plain(Json::Object(m)),
    }
}

/// A member as it is written: whitespace, a key, bare or in quotation marks, a colon with
/// whitespace around it, a value, whitespace, and a comma or not.
pub struct Member {
    pub before: Seq<char>,
    pub name: Seq<char>,
    pub bare: bool,
    pub open: char,
    pub close: char,
    pub before_colon: Seq<char>,
    pub after_colon: Seq<char>,
    pub part: Part,
    pub after: Seq<char>,
    pub comma: bool,
}

pub open spec fn key_text(m: Member) -> Seq<char> {
    written_key(m.name, m.bare, m.open, m.close)
}

/// The text up to the value.
pub open spec fn head_text(m: Member) -> Seq<char> {
    m.before + key_text(m) + m.before_colon + seq![':'] + m.after_colon
}

pub open spec fn comma_text(comma: bool) -> Seq<char> {
    if comma {
        seq![',']
    } else {
        Seq::empty()
    }
}

pub open spec fn closing_text(closed: bool, closing: char) -> Seq<char> {
    if closed {
        seq![closing]
    } else {
        Seq::empty()
    }
}

/// The text of the members and of the closing brace, if it is there.
pub open spec fn members_text(members: Seq<Member>, closed: bool) -> Seq<char>
    decreases members.len(),
{
    if members.len() == 0 {
        closing_text(closed, '}')
    } else {
        head_text(members[0]) + part_text(members[0].part) + members[0].after + comma_text(
            members[0].comma,
        ) + members_text(members.skip(1), closed)
    }
}

/// The members that are meant.
pub open spec fn members_meant(members: Seq<Member>) -> Seq<(Seq<char>, Json)> {
    members.map_values(|m: Member| (m.name, part_value(m.part)))
}

/// Whether a member is written properly. Where a comma is missing, whitespace stands instead.
pub open spec fn member_is_proper(m: Member, last: bool) -> bool {
    &&& all_white(m.before)
    &&& is_plain_name(m.name)
    &&& is_pair(m.open, m.close)
    &&& all_blank(m.before_colon)
    &&& all_white(m.after_colon)
    &&& part_is_proper(m.part)
    &&& all_white(m.after)
    &&& !m.comma && !last ==> m.after.len() > 0
}

pub open spec fn members_are_proper(members: Seq<Member>) -> bool {
    forall|k: int|
        0 <= k < members.len() ==> member_is_proper(#[trigger] members[k], k + 1 == members.len())
}

/// Whether no name comes twice, and none is already a key.
pub open spec fn names_are_new(known: Seq<(Seq<char>, Json)>, members: Seq<Member>) -> bool {
    &&& forall|i: int, j: int|
        0 <= i < j < members.len() ==> (#[trigger] members[i]).name != (#[trigger] members[j]).name
    &&& forall|i: int, j: int|
        0 <= i < known.len() && 0 <= j < members.len() ==> (#[trigger] known[i]).0 != (
        #[trigger] members[j]).name
}

pub proof fn lemma_all_white_joined(a: Seq<char>, b: Seq<char>)
    requires
        all_white(a),
        all_white(b),
    ensures
        all_white(a + b),
{
    assert forall|k: int| 0 <= k < (a + b).len() implies is_white(#[trigger] (a + b)[k]) by {
        if k < a.len() {
            assert((a + b)[k] == a[k]);
        } else {
            assert((a + b)[k] == b[k - a.len()]);
        }
    }
}

/// The first character of a value is none of those that end one or that are skipped.
pub proof fn lemma_part_start(s: Seq<char>, i: int, part: Part)
    requires
        part_is_proper(part),
        stands(s, i, part_text(part)),
    ensures
        part_text(part).len() > 0,
        at(s, i) matches Some(c) && !is_white(c) && c != '#' && c != '/' && c != ',' && c != '}'
            && c != ']' && c != ')' && c != '`' && c != ':',
{
    let t = part_text(part);
    lemma_part_stands(s, i, t, 0, t.len() as int);
    match part {
        Part::Text { open, .. } => {
            assert(t[0] == open);
        },
        Part::Word(b) => {
            assert(is_token_char(b[0]));
        },
        Part::Object(m) => {
            assert(t[0] == '{');
        },
    }
    assert(s[i + 0] == t[0]);
}

/// A value that something follows that ends it.
pub proof fn lemma_part_ends(s: Seq<char>, i: int, part: Part, w: Seq<char>, strict: bool)
    requires
        part_is_proper(part),
        stands(s, i, part_text(part)),
        value_ends(s, i + part_text(part).len(), w),
    ensures
        value_at(s, i, Context::ObjectValue, strict) matches Outcome::Value(v, end) && v
            == part_value(part) && (end == i + part_text(part).len() || end == i + part_text(
            part,
        ).len() + w.len()),
        value_at(s, i, Context::Array, strict) matches Outcome::Value(v, end) && v == part_value(
            part,
        ) && (end == i + part_text(part).len() || end == i + part_text(part).len() + w.len()),
{
    match part {
        Part::Text { open, close, lead, kept, trail, ticks } => {
            lemma_closed_string_is_read_whole(
                s,
                i,
                open,
                close,
                lead,
                kept,
                trail,
                ticks,
                w,
                strict,
            );
        },
        Part::Word(b) => {
            lemma_token_is_read(s, i, b, w, Context::ObjectValue, strict);
            lemma_token_is_read(s, i, b, w, Context::Array, strict);
        },
        Part::Object(m) => {
            lemma_plain_value(s, i, Json::Object(m), Context::ObjectValue, strict);
            lemma_plain_value(s, i, Json::Object(m), Context::Array, strict);
        },
    }
}

/// A value that the next member follows.
proof fn lemma_part_before_member(
    s: Seq<char>,
    i: int,
    part: Part,
    w: Seq<char>,
    name: Seq<char>,
    bare: bool,
    open: char,
    close: char,
    before_colon: Seq<char>,
    strict: bool,
)
    requires
        part_is_proper(part),
        stands(s, i, part_text(part)),
        member_ahead(s, i + part_text(part).len(), w, name, bare, open, close, before_colon),
    ensures
        value_at(s, i, Context::ObjectValue, strict) == Outcome::Value(
            part_value(part),
            i + part_text(part).len(),
        ),
{
    match part {
        Part::Text { open: o, close: c, lead, kept, trail, ticks } => {
            lemma_string_closes_before_member(
                s,
                i,
                o,
                c,
                lead,
                kept,
                trail,
                ticks,
                w,
                name,
                bare,
                open,
                close,
                before_colon,
                strict,
            );
        },
        Part::Word(b) => {
            lemma_token_ends_before_member(
                s,
                i,
                b,
                w,
                name,
                bare,
                open,
                close,
                before_colon,
                strict,
            );
        },
        Part::Object(m) => {
            lemma_plain_value(s, i, Json::Object(m), Context::ObjectValue, strict);
        },
    }
}

/// The members that are left at `i` are read as they are meant.
pub proof fn lemma_loose_members(
    s: Seq<char>,
    i: int,
    strict: bool,
    known: Seq<(Seq<char>, Json)>,
    members: Seq<Member>,
    closed: bool,
)
    requires
        members_are_proper(members),
        names_are_new(known, members),
        stands(s, i, members_text(members, closed)),
        closed || i + members_text(members, closed).len() == s.len(),
    ensures
        object_at(s, i, strict, known) == Outcome::Value(
            Json::Object(known + members_meant(members)),
            i + members_text(members, closed).len(),
        ),
    decreases members.len(),
{
    let text = members_text(members, closed);
    lemma_part_stands(s, i, text, 0, text.len() as int);
    if members.len() == 0 {
        assert(known + members_meant(members) =~= known);
        assert(s.subrange(i, i) =~= Seq::empty());
        if closed {
            assert(s[i + 0] == text[0]);
        }
        lemma_object_end(s, i, strict, known, Seq::empty());
    } else {
        let m = members[0];
        let rest = members.skip(1);
        let value = part_value(m.part);
        let grown = known.push((m.name, value));
        let start = i + head_text(m).len();
        let n = start + part_text(m.part).len();
        let next = n + m.after.len();
        let goes_on = next + comma_text(m.comma).len();
        lemma_rest_is_proper(known, members);
        lemma_member_parts(s, i, members, closed);
        lemma_part_start(s, start, m.part);
        assert forall|k: int| 0 <= k < m.before.len() implies is_white(#[trigger] m.before[k])
            || m.before[k] == ',' by {}
        lemma_loose_value(s, i, strict, members, closed);
        let end = value_at(s, start, Context::ObjectValue, strict)->Value_1;
        lemma_object_member(
            s,
            i,
            strict,
            known,
            m.before,
            m.name,
            m.bare,
            m.open,
            m.close,
            m.before_colon,
            m.after_colon,
            value,
            end,
        );
        assert(!is_among(known, m.name));
        lemma_loose_members(s, goes_on, strict, grown, rest, closed);
        assert(grown + members_meant(rest) =~= known + members_meant(members)) by {
            assert(members_meant(members) =~= seq![(m.name, value)] + members_meant(rest));
        }
        lemma_after_member(s, i, strict, grown, members, closed, end);
    }
}

proof fn lemma_rest_is_proper(known: Seq<(Seq<char>, Json)>, members: Seq<Member>)
    requires
        members.len() > 0,
        members_are_proper(members),
        names_are_new(known, members),
    ensures
        member_is_proper(members[0], members.len() == 1),
        members_are_proper(members.skip(1)),
        names_are_new(
            known.push((members[0].name, part_value(members[0].part))),
            members.skip(1),
        ),
        !is_among(known, members[0].name),
{
    let rest = members.skip(1);
    let grown = known.push((members[0].name, part_value(members[0].part)));
    assert(member_is_proper(members[0], members.len() == 1));
    assert forall|k: int| 0 <= k < rest.len() implies member_is_proper(
        #[trigger] rest[k],
        k + 1 == rest.len(),
    ) by {
        assert(rest[k] == members[k + 1]);
    }
    assert forall|a: int, b: int| 0 <= a < b < rest.len() implies (#[trigger] rest[a]).name != (
    #[trigger] rest[b]).name by {
        assert(rest[a] == members[a + 1] && rest[b] == members[b + 1]);
    }
    assert forall|a: int, b: int| 0 <= a < grown.len() && 0 <= b < rest.len() implies (
    #[trigger] grown[a]).0 != (#[trigger] rest[b]).name by {
        assert(rest[b] == members[b + 1]);
        if a < known.len() {
            assert(grown[a] == known[a]);
        } else {
            assert(members[0].name != members[b + 1].name);
        }
    }
    if is_among(known, members[0].name) {
        let k = choose|k: int| 0 <= k < known.len() && (#[trigger] known[k]).0 == members[0].name;
        assert(known[k].0 != members[0].name);
    }
}

/// Where the parts of the first member stand.
proof fn lemma_member_parts(s: Seq<char>, i: int, members: Seq<Member>, closed: bool)
    requires
        members.len() > 0,
        stands(s, i, members_text(members, closed)),
    ensures
        ({
            let m = members[0];
            let start = i + head_text(m).len();
            let n = start + part_text(m.part).len();
            let next = n + m.after.len();
            let goes_on = next + comma_text(m.comma).len();
            let rest = members.skip(1);
            &&& stands(s, i, head_text(m))
            &&& stands(s, start, part_text(m.part))
            &&& stands(s, n, m.after)
            &&& m.comma ==> at(s, next) == Some(',')
            &&& stands(s, goes_on, members_text(rest, closed))
            &&& goes_on + members_text(rest, closed).len() == i + members_text(
                members,
                closed,
            ).len()
        }),
{
    let m = members[0];
    let tail = members_text(members.skip(1), closed);
    lemma_parts_stand(s, i, head_text(m), part_text(m.part), m.after, comma_text(m.comma), tail);
}

/// Where five texts that follow each other stand.
pub proof fn lemma_parts_stand(
    s: Seq<char>,
    i: int,
    a: Seq<char>,
    b: Seq<char>,
    c: Seq<char>,
    d: Seq<char>,
    e: Seq<char>,
)
    requires
        stands(s, i, a + b + c + d + e),
    ensures
        stands(s, i, a),
        stands(s, i + a.len(), b),
        stands(s, i + a.len() + b.len(), c),
        d.len() > 0 ==> at(s, i + a.len() + b.len() + c.len()) == Some(d[0]),
        stands(s, i + a.len() + b.len() + c.len() + d.len(), e),
        (a + b + c + d + e).len() == a.len() + b.len() + c.len() + d.len() + e.len(),
{
    let text = a + b + c + d + e;
    let p = a.len() as int;
    let q = p + b.len();
    let r = q + c.len();
    let t = r + d.len();
    lemma_part_stands(s, i, text, 0, p);
    assert(text.subrange(0, p) =~= a);
    lemma_part_stands(s, i, text, p, q);
    assert(text.subrange(p, q) =~= b);
    lemma_part_stands(s, i, text, q, r);
    assert(text.subrange(q, r) =~= c);
    lemma_part_stands(s, i, text, r, t);
    if d.len() > 0 {
        assert(s[i + r] == text[r]);
    }
    lemma_part_stands(s, i, text, t, text.len() as int);
    assert(text.subrange(t, text.len() as int) =~= e);
}

/// The value of the first member is read as it is meant.
proof fn lemma_loose_value(s: Seq<char>, i: int, strict: bool, members: Seq<Member>, closed: bool)
    requires
        members.len() > 0,
        members_are_proper(members),
        stands(s, i, members_text(members, closed)),
        closed || i + members_text(members, closed).len() == s.len(),
    ensures
        ({
            let m = members[0];
            let start = i + head_text(m).len();
            let n = start + part_text(m.part).len();
            value_at(s, start, Context::ObjectValue, strict) matches Outcome::Value(v, end) && v
                == part_value(m.part) && (end == n || end == n + m.after.len())
        }),
{
    let m = members[0];
    let rest = members.skip(1);
    let start = i + head_text(m).len();
    let n = start + part_text(m.part).len();
    let next = n + m.after.len();
    let goes_on = next + comma_text(m.comma).len();
    assert(member_is_proper(m, members.len() == 1));
    lemma_member_parts(s, i, members, closed);
    if m.comma || rest.len() == 0 {
        if !m.comma {
            assert(rest =~= Seq::empty());
            let tail = members_text(rest, closed);
            lemma_part_stands(s, next, tail, 0, tail.len() as int);
            if closed {
                assert(s[next + 0] == tail[0]);
            }
        }
        lemma_part_ends(s, start, m.part, m.after, strict);
    } else {
        let f = rest[0];
        assert(f == members[1]);
        assert(member_is_proper(f, members.len() == 2));
        lemma_member_parts(s, next, rest, closed);
        let w = m.after + f.before;
        lemma_all_white_joined(m.after, f.before);
        let ahead = w + key_text(f) + f.before_colon + seq![':'];
        lemma_part_stands(s, next, head_text(f), 0, head_text(f).len() as int);
        assert(s.subrange(n, n + ahead.len()) =~= ahead) by {
            assert forall|k: int| 0 <= k < ahead.len() implies s[n + k] == ahead[k] by {
                if k < m.after.len() {
                    lemma_part_stands(s, n, m.after, 0, m.after.len() as int);
                    assert(s[n + k] == m.after[k]);
                } else {
                    let h = k - m.after.len();
                    assert(s[next + h] == head_text(f)[h]);
                }
            }
        }
        lemma_part_before_member(
            s,
            start,
            m.part,
            w,
            f.name,
            f.bare,
            f.open,
            f.close,
            f.before_colon,
            strict,
        );
    }
}

/// After the first member the reading goes on with the others.
proof fn lemma_after_member(
    s: Seq<char>,
    i: int,
    strict: bool,
    grown: Seq<(Seq<char>, Json)>,
    members: Seq<Member>,
    closed: bool,
    end: int,
)
    requires
        members.len() > 0,
        members_are_proper(members),
        stands(s, i, members_text(members, closed)),
        closed || i + members_text(members, closed).len() == s.len(),
        ({
            let n = i + head_text(members[0]).len() + part_text(members[0].part).len();
            end == n || end == n + members[0].after.len()
        }),
    ensures
        ({
            let m = members[0];
            let next = i + head_text(m).len() + part_text(m.part).len() + m.after.len();
            let goes_on = next + comma_text(m.comma).len();
            object_after(s, end, strict, grown) == object_at(s, goes_on, strict, grown)
        }),
{
    let m = members[0];
    let rest = members.skip(1);
    let start = i + head_text(m).len();
    let n = start + part_text(m.part).len();
    let next = n + m.after.len();
    let goes_on = next + comma_text(m.comma).len();
    assert(member_is_proper(m, members.len() == 1));
    lemma_member_parts(s, i, members, closed);
    let tail = members_text(rest, closed);
    lemma_part_stands(s, goes_on, tail, 0, tail.len() as int);
    lemma_white_stands(s, n, m.after);
    assert(skip_trivia(s, end, true) == skip_trivia(s, next, true));
    if m.comma {
        lemma_no_trivia(s, next);
    } else if rest.len() == 0 {
        assert(rest =~= Seq::empty());
        assert(s.subrange(next, next) =~= Seq::empty());
        if closed {
            assert(s[next + 0] == tail[0]);
        }
        lemma_no_trivia(s, next);
        lemma_object_end(s, next, strict, grown, Seq::empty());
    } else {
        let f = rest[0];
        assert(f == members[1]);
        assert(member_is_proper(f, members.len() == 2));
        lemma_member_parts(s, next, rest, closed);
        let head = head_text(f);
        let b = f.before.len() as int;
        lemma_part_stands(s, next, head, 0, head.len() as int);
        lemma_part_stands(s, next, head, 0, b);
        assert(head.subrange(0, b) =~= f.before);
        assert(s[next + b] == head[b]);
        assert(is_plain_char(f.name[0]));
        lemma_white_stands(s, next, f.before);
        lemma_no_trivia(s, next + b);
        assert(skip_trivia(s, next, true) == skip_trivia(s, next + b, true));
        assert(s.subrange(next + b, next + b) =~= Seq::empty());
        lemma_separators(s, next, f.before);
        lemma_separators(s, next + b, Seq::empty());
        lemma_same_object(s, next, next + b, strict, grown);
    }
}

/// An object with its members in any of these ways, with or without the closing brace at the end
/// of the text, is the object that is meant, in strict mode too.
pub proof fn lemma_loose_object(
    s: Seq<char>,
    i: int,
    context: Context,
    strict: bool,
    members: Seq<Member>,
    closed: bool,
)
    requires
        members_are_proper(members),
        names_are_new(Seq::empty(), members),
        stands(s, i, seq!['{'] + members_text(members, closed)),
        closed || i + 1 + members_text(members, closed).len() == s.len(),
    ensures
        value_at(s, i, context, strict) == Outcome::Value(
            Json::Object(members_meant(members)),
            i + 1 + members_text(members, closed).len(),
        ),
{
    let whole = seq!['{'] + members_text(members, closed);
    lemma_part_stands(s, i, whole, 0, whole.len() as int);
    assert(s[i + 0] == whole[0]);
    lemma_part_stands(s, i, whole, 1, whole.len() as int);
    assert(whole.subrange(1, whole.len() as int) =~= members_text(members, closed));
    lemma_loose_members(s, i + 1, strict, Seq::empty(), members, closed);
    assert(Seq::<(Seq<char>, Json)>::empty() + members_meant(members) =~= members_meant(members));
    lemma_no_trivia(s, i);
}

/// The repair of such an object is the object that is meant.
pub proof fn lemma_loose_object_is_repaired(members: Seq<Member>, closed: bool, strict: bool)
    requires
        members_are_proper(members),
        names_are_new(Seq::empty(), members),
    ensures
        repaired(seq!['{'] + members_text(members, closed), strict) == Ok::<Json, Failure>(
            Json::Object(members_meant(members)),
        ),
{
    let s = seq!['{'] + members_text(members, closed);
    assert(s.subrange(0, s.len() as int) =~= s);
    lemma_loose_object(s, 0, Context::Start, strict, members, closed);
    lemma_one_value_is_repaired(s, Json::Object(members_meant(members)), strict);
}

/// A text that is one value to its end is repaired to that value.
pub proof fn lemma_one_value_is_repaired(s: Seq<char>, v: Json, strict: bool)
    requires
        s.len() > 0,
        v != Json::String(Seq::empty()),
        value_at(s, 0, Context::Start, strict) == Outcome::Value(v, s.len() as int),
    ensures
        repaired(s, strict) == Ok::<Json, Failure>(v),
{
    let found = Seq::<Json>::empty().push(v);
    assert(all_found(s, s.len() as int, strict, found) == Ok::<Seq<Json>, Seq<char>>(found));
    assert(found_added(Seq::empty(), v, strict) == found);
    assert(all_found(s, 0, strict, Seq::empty()) == Ok::<Seq<Json>, Seq<char>>(found));
}

/// A comma that was left out between two members is put back, whatever whitespace stands there,
/// a line break too: with it and without it the object has exactly those members.
pub proof fn lemma_missing_comma(
    a: Seq<char>,
    text: Seq<char>,
    w: Seq<char>,
    b: Seq<char>,
    strict: bool,
)
    requires
        is_plain_name(a),
        is_plain_name(b),
        a != b,
        is_plain_text(text),
        all_white(w),
        w.len() > 0,
    ensures
        ({
            let first = seq!['{', '"'] + a + seq!['"', ':', ' ', '"'] + text + seq!['"'];
            let second = seq!['"'] + b + seq!['"', ':', ' ', '1', '}'];
            let meant = seq![(a, Json::String(text)), (b, Json::Number(Num::Int(1)))];
            &&& repaired(first + w + second, strict) == Ok::<Json, Failure>(Json::Object(meant))
            &&& repaired(first + seq![','] + w + second, strict) == Ok::<Json, Failure>(
                Json::Object(meant),
            )
        }),
{
    let first = seq!['{', '"'] + a + seq!['"', ':', ' ', '"'] + text + seq!['"'];
    let second = seq!['"'] + b + seq!['"', ':', ' ', '1', '}'];
    lemma_two_members(a, text, w, b, false, strict);
    lemma_two_members(a, text, w, b, true, strict);
    assert(first + comma_text(false) + w + second =~= first + w + second);
}

#[verifier::spinoff_prover]
proof fn lemma_two_members(
    a: Seq<char>,
    text: Seq<char>,
    w: Seq<char>,
    b: Seq<char>,
    comma: bool,
    strict: bool,
)
    requires
        is_plain_name(a),
        is_plain_name(b),
        a != b,
        is_plain_text(text),
        all_white(w),
        w.len() > 0,
    ensures
        ({
            let first = seq!['{', '"'] + a + seq!['"', ':', ' ', '"'] + text + seq!['"'];
            let second = seq!['"'] + b + seq!['"', ':', ' ', '1', '}'];
            let meant = seq![(a, Json::String(text)), (b, Json::Number(Num::Int(1)))];
            repaired(first + comma_text(comma) + w + second, strict) == Ok::<Json, Failure>(
                Json::Object(meant),
            )
        }),
{
    let none = Seq::<char>::empty();
    let first = seq!['{', '"'] + a + seq!['"', ':', ' ', '"'] + text + seq!['"'];
    let second = seq!['"'] + b + seq!['"', ':', ' ', '1', '}'];
    let meant = seq![(a, Json::String(text)), (b, Json::Number(Num::Int(1)))];
    let one = seq!['1'];
    let part = Part::Text {
        open: '"',
        close: '"',
        lead: none,
        kept: text,
        trail: none,
        ticks: none,
    };
    let m = quoted_member(
        none,
        a,
        part,
        if comma {
            none
        } else {
            w
        },
        comma,
    );
    let o = quoted_member(
        if comma {
            w
        } else {
            none
        },
        b,
        Part::Word(one),
        none,
        false,
    );
    let members = seq![m, o];
    assert(none + text + none + none =~= text);
    lemma_integers(1);
    assert(number_text(Num::Int(1)) =~= one);
    assert(part_is_proper(part));
    assert(part_is_proper(o.part));
    assert(member_is_proper(m, false));
    assert(member_is_proper(o, true));
    assert(members_are_proper(members)) by {
        assert(members[0] == m && members[1] == o);
    }
    assert(names_are_new(Seq::empty(), members)) by {
        assert(members[0].name == a && members[1].name == b);
    }
    lemma_text_of_two(m, o);
    assert(head_text(m) =~= seq!['"'] + a + seq!['"', ':', ' ']);
    assert(head_text(o) =~= o.before + seq!['"'] + b + seq!['"', ':', ' ']);
    assert(part_text(part) =~= seq!['"'] + text + seq!['"']);
    assert(seq!['{'] + members_text(members, true) =~= first + comma_text(comma) + w + second);
    assert(members_meant(members) =~= meant);
    lemma_loose_object_is_repaired(members, true, strict);
}

/// A member with its key in quotation marks and a space after the colon.
pub open spec fn quoted_member(
    before: Seq<char>,
    name: Seq<char>,
    part: Part,
    after: Seq<char>,
    comma: bool,
) -> Member {
    Member {
        before,
        name,
        bare: false,
        open: '"',
        close: '"',
        before_colon: Seq::empty(),
        after_colon: seq![' '],
        part,
        after,
        comma,
    }
}

proof fn lemma_text_of_two(m: Member, o: Member)
    ensures
        members_text(seq![m, o], true) == head_text(m) + part_text(m.part) + m.after + comma_text(
            m.comma,
        ) + (head_text(o) + part_text(o.part) + o.after + comma_text(o.comma) + seq!['}']),
{
    let members = seq![m, o];
    let tail = members.skip(1);
    assert(tail =~= seq![o]);
    assert(tail.skip(1) =~= Seq::empty());
    assert(members_text(tail.skip(1), true) == seq!['}']);
    assert(members_text(tail, true) == head_text(o) + part_text(o.part) + o.after + comma_text(
        o.comma,
    ) + seq!['}']);
}

} // verus!
