//! How several values become one.

use crate::chars::is_white;
use crate::equality::lemma_same_reflexive;
use crate::gaps::{all_white, gap_is_proper, gap_text, lemma_white_stands, piece_is_proper, Piece};
use crate::grammar::{
    all_found, belong_together, found_added, merged, repaired, value_at, whole_value, Failure,
};
use crate::laws::{lemma_insertion_keeps_keys_distinct, lemma_merge_prefers_the_second};
use crate::plain::{is_plain, lemma_plain_value};
use crate::prose::{
    is_fence, is_prose, lemma_closing_fence_adds_nothing, lemma_fence_is_passed_over,
    lemma_gap_is_passed_over, lemma_prose_is_passed_over,
};
use crate::quoting::{all_blank, is_blank};
use crate::scan::{skip_trivia, Context};
use crate::value::{distinct_keys, has_key, lemma_position, position, same, well_formed, Json};
use crate::writer::rendered;
use vstd::prelude::*;

verus! {

/// Whether two objects have a key in common.
pub open spec fn share_a_key(m: Seq<(Seq<char>, Json)>, o: Seq<(Seq<char>, Json)>) -> bool {
    exists|i: int, j: int|
        0 <= i < m.len() && 0 <= j < o.len() && (#[trigger] m[i]).0 == (#[trigger] o[j]).0
}

/// Two objects that follow each other both stay if neither is empty and they share no key.
pub proof fn lemma_objects_stay_apart(
    values: Seq<Json>,
    m: Seq<(Seq<char>, Json)>,
    o: Seq<(Seq<char>, Json)>,
)
    requires
        m.len() > 0,
        o.len() > 0,
        !share_a_key(m, o),
    ensures
        found_added(values.push(Json::Object(m)), Json::Object(o), false) == values.push(
            Json::Object(m),
        ).push(Json::Object(o)),
{
    assert(!belong_together(m, o)) by {
        if belong_together(m, o) {
            let i = choose|i: int| 0 <= i < m.len() && has_key(o, (#[trigger] m[i]).0);
            let j = choose|j: int| 0 <= j < o.len() && (#[trigger] o[j]).0 == m[i].0;
            assert(m[i].0 == o[j].0);
        }
    }
    lemma_position(o, m[0].0, 0);
    let at = position(o, m[0].0);
    if at < o.len() {
        assert(m[0].0 == o[at].0);
    }
    assert(!same(Json::Object(m), Json::Object(o))) by {
        if same(Json::Object(m), Json::Object(o)) {
            let member = m[0];
            assert(position(o, member.0) < o.len());
        }
    }
}

/// Two objects that share a key become one in their place. It has the keys of both, the values of
/// the second, and the other values of the first.
pub proof fn lemma_objects_with_a_common_key_merge(
    values: Seq<Json>,
    m: Seq<(Seq<char>, Json)>,
    o: Seq<(Seq<char>, Json)>,
    i: int,
    j: int,
)
    requires
        0 <= i < m.len(),
        0 <= j < o.len(),
        m[i].0 == o[j].0,
        distinct_keys(m),
        distinct_keys(o),
    ensures
        ({
            let all = found_added(values.push(Json::Object(m)), Json::Object(o), false);
            &&& all.len() == values.len() + 1
            &&& all.drop_last() == values
            &&& all.last() matches Json::Object(whole) && is_merge(whole, m, o)
        }),
{
    assert(has_key(o, m[i].0));
    let all = found_added(values.push(Json::Object(m)), Json::Object(o), false);
    let whole = merged(m, o, o.len() as int);
    assert(values.push(Json::Object(m)).drop_last() =~= values);
    assert(all == values.push(Json::Object(whole)));
    assert(all.drop_last() =~= values);
    lemma_is_merge(m, o);
}

/// Whether an object has the keys of two others, in their order, each with the value of the second
/// if that has it, and else of the first.
pub open spec fn is_merge(
    whole: Seq<(Seq<char>, Json)>,
    m: Seq<(Seq<char>, Json)>,
    o: Seq<(Seq<char>, Json)>,
) -> bool {
    &&& forall|k: int|
        0 <= k < o.len() ==> has_member(whole, (#[trigger] o[k]).0, o[k].1)
    &&& forall|k: int|
        0 <= k < m.len() && lacks_key(o, (#[trigger] m[k]).0) ==> has_member(whole, m[k].0, m[k].1)
    &&& forall|k: int|
        0 <= k < whole.len() ==> !lacks_key(m, (#[trigger] whole[k]).0) || !lacks_key(o, whole[k].0)
    &&& forall|p: int, q: int|
        0 <= p < q < whole.len() ==> (#[trigger] whole[p]).0 != (#[trigger] whole[q]).0
    &&& keeps_order(whole, m, o, o.len() as int)
}

/// Whether the keys of the first object come first, in their order, and then keys of the first
/// `count` members of the second, in theirs.
pub open spec fn keeps_order(
    whole: Seq<(Seq<char>, Json)>,
    m: Seq<(Seq<char>, Json)>,
    o: Seq<(Seq<char>, Json)>,
    count: int,
) -> bool {
    &&& whole.len() >= m.len()
    &&& forall|k: int| 0 <= k < m.len() ==> (#[trigger] whole[k]).0 == m[k].0
    &&& exists|from: Seq<int>|
        #![trigger from.len()]
        from.len() == whole.len() - m.len() && (forall|k: int|
            0 <= k < from.len() ==> 0 <= #[trigger] from[k] < count && o[from[k]].0 == whole[m.len()
                + k].0) && forall|a: int, b: int|
            0 <= a < b < from.len() ==> #[trigger] from[a] < #[trigger] from[b]
}

pub open spec fn has_member(members: Seq<(Seq<char>, Json)>, key: Seq<char>, value: Json) -> bool {
    exists|k: int| 0 <= k < members.len() && #[trigger] members[k] == (key, value)
}

pub open spec fn lacks_key(members: Seq<(Seq<char>, Json)>, key: Seq<char>) -> bool {
    forall|k: int| 0 <= k < members.len() ==> (#[trigger] members[k]).0 != key
}

proof fn lemma_is_merge(m: Seq<(Seq<char>, Json)>, o: Seq<(Seq<char>, Json)>)
    requires
        distinct_keys(m),
        distinct_keys(o),
    ensures
        is_merge(merged(m, o, o.len() as int), m, o),
{
    let whole = merged(m, o, o.len() as int);
    assert forall|k: int| 0 <= k < o.len() implies has_member(
        whole,
        (#[trigger] o[k]).0,
        o[k].1,
    ) by {
        assert(has_key(o, o[k].0));
        lemma_merge_prefers_the_second(m, o, o[k].0);
        lemma_position(o, o[k].0, 0);
        lemma_position(whole, o[k].0, 0);
        assert(whole[position(whole, o[k].0)] == (o[k].0, o[k].1));
    }
    assert forall|k: int| 0 <= k < m.len() && lacks_key(o, (#[trigger] m[k]).0) implies has_member(
        whole,
        m[k].0,
        m[k].1,
    ) by {
        assert(has_key(m, m[k].0));
        lemma_merge_prefers_the_second(m, o, m[k].0);
        lemma_position(m, m[k].0, 0);
        lemma_position(whole, m[k].0, 0);
        assert(whole[position(whole, m[k].0)] == (m[k].0, m[k].1));
    }
    assert forall|k: int| 0 <= k < whole.len() implies !lacks_key(m, (#[trigger] whole[k]).0)
        || !lacks_key(o, whole[k].0) by {
        assert(has_key(whole, whole[k].0));
        lemma_merge_prefers_the_second(m, o, whole[k].0);
    }
    lemma_merged_distinct(m, o, o.len() as int);
    lemma_merged_order(m, o, o.len() as int);
}

proof fn lemma_merged_order(m: Seq<(Seq<char>, Json)>, o: Seq<(Seq<char>, Json)>, count: int)
    requires
        0 <= count <= o.len(),
    ensures
        keeps_order(merged(m, o, count), m, o, count),
    decreases count,
{
    let whole = merged(m, o, count);
    let n = m.len() as int;
    if count == 0 {
        let from = Seq::<int>::empty();
        assert(from.len() == whole.len() - n);
    } else {
        lemma_merged_order(m, o, count - 1);
        let before = merged(m, o, count - 1);
        let key = o[count - 1].0;
        let from = choose|from: Seq<int>|
            #![trigger from.len()]
            from.len() == before.len() - n && (forall|k: int|
                0 <= k < from.len() ==> 0 <= #[trigger] from[k] < count - 1 && o[from[k]].0
                    == before[n + k].0) && forall|a: int, b: int|
                0 <= a < b < from.len() ==> #[trigger] from[a] < #[trigger] from[b];
        lemma_position(before, key, 0);
        if position(before, key) < before.len() {
            assert forall|k: int| 0 <= k < from.len() implies 0 <= #[trigger] from[k] < count
                && o[from[k]].0 == whole[n + k].0 by {}
            assert(from.len() == whole.len() - n);
        } else {
            let more = from.push(count - 1);
            assert forall|k: int| 0 <= k < more.len() implies 0 <= #[trigger] more[k] < count
                && o[more[k]].0 == whole[n + k].0 by {
                if k < from.len() {
                    assert(more[k] == from[k]);
                    assert(whole[n + k] == before[n + k]);
                }
            }
            assert forall|a: int, b: int| 0 <= a < b < more.len() implies #[trigger] more[a]
                < #[trigger] more[b] by {
                assert(more[a] == from[a]);
                if b < from.len() {
                    assert(more[b] == from[b]);
                }
            }
            assert(more.len() == whole.len() - n);
        }
    }
}

proof fn lemma_merged_distinct(
    m: Seq<(Seq<char>, Json)>,
    o: Seq<(Seq<char>, Json)>,
    count: int,
)
    requires
        distinct_keys(m),
        0 <= count <= o.len(),
    ensures
        distinct_keys(merged(m, o, count)),
    decreases count,
{
    if count > 0 {
        lemma_merged_distinct(m, o, count - 1);
        lemma_insertion_keeps_keys_distinct(
            merged(m, o, count - 1),
            o[count - 1].0,
            o[count - 1].1,
        );
    }
}

/// An empty object leaves the object beside it as it is.
pub proof fn lemma_empty_object_adds_nothing(values: Seq<Json>, m: Seq<(Seq<char>, Json)>)
    requires
        distinct_keys(m),
    ensures
        found_added(values.push(Json::Object(m)), Json::Object(Seq::empty()), false)
            == values.push(Json::Object(m)),
        found_added(values.push(Json::Object(Seq::empty())), Json::Object(m), false)
            == values.push(Json::Object(m)),
{
    let none = Seq::<(Seq<char>, Json)>::empty();
    assert(values.push(Json::Object(m)).drop_last() =~= values);
    assert(values.push(Json::Object(none)).drop_last() =~= values);
    assert(merged(m, none, 0) == m);
    lemma_merge_into_empty(m, m.len() as int);
    assert(m.take(m.len() as int) =~= m);
}

proof fn lemma_merge_into_empty(m: Seq<(Seq<char>, Json)>, count: int)
    requires
        distinct_keys(m),
        0 <= count <= m.len(),
    ensures
        merged(Seq::empty(), m, count) == m.take(count),
    decreases count,
{
    if count > 0 {
        lemma_merge_into_empty(m, count - 1);
        let before = m.take(count - 1);
        lemma_position(before, m[count - 1].0, 0);
        assert forall|k: int| 0 <= k < before.len() implies (#[trigger] before[k]).0 != m[count
            - 1].0 by {
            assert(before[k] == m[k]);
        }
        assert(m.take(count) =~= before.push(m[count - 1]));
    } else {
        assert(m.take(0) =~= Seq::empty());
    }
}

/// A value other than an object that follows its equal takes its place.
pub proof fn lemma_equal_neighbour_takes_the_place(values: Seq<Json>, v: Json)
    requires
        well_formed(v),
        v !is Object,
    ensures
        found_added(values.push(v), v, false) == values.push(v),
{
    lemma_same_reflexive(v);
    assert(values.push(v).drop_last() =~= values);
}

/// Whether a value holds neither objects nor doubles.
pub open spec fn is_simple(v: Json) -> bool
    decreases v,
{
    match v {
        Json::Number(n) => n is Int,
        Json::Array(items) => forall|k: int|
            0 <= k < items.len() ==> is_simple(#[trigger] items[k]),
        Json::Object(_) => false,
        _ => true,
    }
}

/// Without objects and doubles, values are equal only if they are the same.
pub proof fn lemma_simple_values_are_equal_if_the_same(a: Json, b: Json)
    requires
        is_simple(a),
        is_simple(b),
        same(a, b),
    ensures
        a == b,
    decreases a,
{
    match (a, b) {
        (Json::Array(x), Json::Array(y)) => {
            assert forall|k: int| 0 <= k < x.len() implies x[k] == y[k] by {
                assert(is_simple(x[k]) && is_simple(y[k]));
                assert(same(x[k], y[k]));
                lemma_simple_values_are_equal_if_the_same(x[k], y[k]);
            }
            assert(x =~= y);
        },
        _ => {},
    }
}

/// Equal objects have the same keys with equal values.
pub proof fn lemma_equal_objects_have_equal_members(
    m: Seq<(Seq<char>, Json)>,
    o: Seq<(Seq<char>, Json)>,
    k: int,
)
    requires
        same(Json::Object(m), Json::Object(o)),
        0 <= k < m.len(),
    ensures
        m.len() == o.len(),
        exists|j: int|
            0 <= j < o.len() && (#[trigger] o[j]).0 == m[k].0 && same(m[k].1, o[j].1),
{
    let member = m[k];
    lemma_position(o, member.0, 0);
    let at = position(o, member.0);
    assert(at < o.len() && same(member.1, o[at].1));
    assert(o[at].0 == m[k].0);
}

/// Different values, or an object and something else, both stay.
pub proof fn lemma_different_values_both_stay(values: Seq<Json>, a: Json, b: Json)
    requires
        a != b,
        is_simple(a),
        is_simple(b) || b is Object,
    ensures
        found_added(values.push(a), b, false) == values.push(a).push(b),
        b is Object ==> found_added(values.push(b), a, false) == values.push(b).push(a),
{
    if same(a, b) && is_simple(b) {
        lemma_simple_values_are_equal_if_the_same(a, b);
    }
}

/// Strict mode gives up none of the values, so that they are refused if there are several.
pub proof fn lemma_strict_mode_keeps_all(values: Seq<Json>, v: Json)
    ensures
        found_added(values, v, true) == values.push(v),
        whole_value(values.push(v), true) == if values.len() == 0 {
            Ok::<Json, Failure>(v)
        } else {
            Err(Failure::Strict("multiple top-level JSON values found"@))
        },
        whole_value(values.push(v), false) == Ok::<Json, Failure>(
            if values.len() == 0 {
                v
            } else {
                Json::Array(values.push(v))
            },
        ),
        whole_value(Seq::empty(), true) == Err::<Json, Failure>(Failure::Empty),
        whole_value(Seq::empty(), false) == Err::<Json, Failure>(Failure::Empty),
{
}

/// What two plain objects after each other are repaired to: an array of both if neither is empty
/// and they share no key, one object otherwise, and nothing but a refusal in strict mode.
pub proof fn lemma_two_objects(
    m: Seq<(Seq<char>, Json)>,
    w: Seq<char>,
    o: Seq<(Seq<char>, Json)>,
)
    requires
        is_plain(Json::Object(m)),
        is_plain(Json::Object(o)),
        all_white(w),
    ensures
        ({
            let text = rendered(Json::Object(m), false) + w + rendered(Json::Object(o), false);
            &&& repaired(text, true) == Err::<Json, Failure>(
                Failure::Strict("multiple top-level JSON values found"@),
            )
            &&& m.len() > 0 && o.len() > 0 && !share_a_key(m, o) ==> repaired(text, false) == Ok::<
                Json,
                Failure,
            >(Json::Array(seq![Json::Object(m), Json::Object(o)]))
            &&& share_a_key(m, o) ==> (repaired(text, false) matches Ok(Json::Object(whole))
                && is_merge(whole, m, o))
            &&& o.len() == 0 ==> repaired(text, false) == Ok::<Json, Failure>(Json::Object(m))
            &&& m.len() == 0 ==> repaired(text, false) == Ok::<Json, Failure>(Json::Object(o))
        }),
{
    let a = rendered(Json::Object(m), false);
    let b = rendered(Json::Object(o), false);
    let text = a + w + b;
    let n = a.len() as int;
    let e = n + w.len();
    let none = Seq::<Json>::empty();
    assert(text.subrange(0, n) =~= a);
    assert(text.subrange(n, e) =~= w);
    assert(text.subrange(e, text.len() as int) =~= b);
    lemma_white_stands(text, n, w);
    assert(skip_trivia(text, n, true) == skip_trivia(text, e, true));
    assert(a.len() > 0 && b.len() > 0);
    assert forall|strict: bool| #[trigger] all_found(text, 0, strict, none) == Ok::<
        Seq<Json>,
        Seq<char>,
    >(found_added(seq![Json::Object(m)], Json::Object(o), strict)) by {
        let first = seq![Json::Object(m)];
        let both = found_added(first, Json::Object(o), strict);
        lemma_plain_value(text, 0, Json::Object(m), Context::Start, strict);
        lemma_plain_value(text, e, Json::Object(o), Context::Top, strict);
        assert(value_at(text, n, Context::Top, strict) == value_at(text, e, Context::Top, strict));
        assert(found_added(none, Json::Object(m), strict) =~= first);
        assert(all_found(text, text.len() as int, strict, both) == Ok::<Seq<Json>, Seq<char>>(
            both,
        ));
        assert(all_found(text, n, strict, first) == Ok::<Seq<Json>, Seq<char>>(both));
    }
    let first = seq![Json::Object(m)];
    assert(first =~= none.push(Json::Object(m)));
    assert(all_found(text, 0, true, none) == Ok::<Seq<Json>, Seq<char>>(
        first.push(Json::Object(o)),
    ));
    let both = found_added(first, Json::Object(o), false);
    assert(all_found(text, 0, false, none) == Ok::<Seq<Json>, Seq<char>>(both));
    lemma_plain_keys_distinct(m);
    lemma_plain_keys_distinct(o);
    if m.len() > 0 && o.len() > 0 && !share_a_key(m, o) {
        lemma_objects_stay_apart(none, m, o);
        assert(both =~= seq![Json::Object(m), Json::Object(o)]);
    }
    if share_a_key(m, o) {
        let (i, j) = choose|i: int, j: int|
            0 <= i < m.len() && 0 <= j < o.len() && (#[trigger] m[i]).0 == (#[trigger] o[j]).0;
        lemma_objects_with_a_common_key_merge(none, m, o, i, j);
    }
    if o.len() == 0 {
        lemma_empty_object_adds_nothing(none, m);
        assert(o =~= Seq::empty());
    }
    if m.len() == 0 {
        lemma_empty_object_adds_nothing(none, o);
        assert(m =~= Seq::empty());
    }
}

proof fn lemma_plain_keys_distinct(m: Seq<(Seq<char>, Json)>)
    requires
        is_plain(Json::Object(m)),
    ensures
        distinct_keys(m),
{
    let v = Json::Object(m);
    assert(v->Object_0 == m);
}

/// A plain object in a code fence, after prose, is what the text is repaired to.
pub proof fn lemma_fenced_object(
    prose: Seq<char>,
    ticks: Seq<char>,
    language: Seq<char>,
    before: Seq<char>,
    m: Seq<(Seq<char>, Json)>,
    after: Seq<char>,
    closing: Seq<char>,
    rest: Seq<char>,
    strict: bool,
)
    requires
        prose.len() == 0 || is_prose(prose),
        is_fence(ticks, language),
        all_blank(before),
        is_plain(Json::Object(m)),
        all_white(after),
        forall|k: int| 0 <= k < closing.len() ==> #[trigger] closing[k] == '`',
        all_blank(rest),
    ensures
        repaired(
            prose + (ticks + language + (before + (rendered(Json::Object(m), false) + (after
                + closing + rest)))),
            strict,
        ) == Ok::<Json, Failure>(Json::Object(m)),
{
    let none = Seq::<Json>::empty();
    let a = rendered(Json::Object(m), false);
    let tail = after + closing + rest;
    let text = a + tail;
    let n = a.len() as int;
    let found = seq![Json::Object(m)];
    assert(a.len() > 0);
    assert(text.subrange(0, n) =~= a);
    assert(text.subrange(n, text.len() as int) =~= tail);
    lemma_plain_value(text, 0, Json::Object(m), Context::Start, strict);
    lemma_closing_fence_adds_nothing(text, n, after, closing, rest, strict, found);
    assert(found_added(none, Json::Object(m), strict) =~= found);
    assert(all_found(text, 0, strict, none) == Ok::<Seq<Json>, Seq<char>>(found));
    assert(repaired(text, strict) == Ok::<Json, Failure>(Json::Object(m)));
    lemma_white_gap(before);
    lemma_gap_is_passed_over(white_pieces(before), text, strict, none);
    let inner = before + text;
    assert(a[0] == '{');
    if before.len() > 0 {
        assert(inner[0] == before[0]);
        assert(is_blank(before[0]));
    } else {
        assert(inner[0] == a[0]);
    }
    lemma_fence_is_passed_over(ticks, language, inner, strict, none);
    let fenced = ticks + language + inner;
    assert(fenced[0] == ticks[0]);
    if prose.len() > 0 {
        lemma_prose_is_passed_over(prose, fenced, strict, none);
    } else {
        assert(prose + fenced =~= fenced);
    }
}

/// Each character of a whitespace text as a piece of a gap.
spec fn white_pieces(w: Seq<char>) -> Seq<Piece>
    decreases w.len(),
{
    if w.len() == 0 {
        Seq::empty()
    } else {
        seq![Piece::White(w[0])] + white_pieces(w.skip(1))
    }
}

/// Whitespace is a gap.
proof fn lemma_white_gap(w: Seq<char>)
    requires
        all_white(w),
    ensures
        gap_text(white_pieces(w)) == w,
        gap_is_proper(white_pieces(w)),
    decreases w.len(),
{
    if w.len() > 0 {
        let rest = w.skip(1);
        assert forall|k: int| 0 <= k < rest.len() implies is_white(#[trigger] rest[k]) by {
            assert(rest[k] == w[k + 1]);
        }
        lemma_white_gap(rest);
        let pieces = white_pieces(w);
        assert(pieces.skip(1) =~= white_pieces(rest));
        assert forall|k: int| 0 <= k < pieces.len() implies piece_is_proper(
            #[trigger] pieces[k],
        ) by {
            assert(is_white(w[0]));
            if k > 0 {
                assert(pieces[k] == white_pieces(rest)[k - 1]);
            }
        }
        assert(seq![w[0]] + rest =~= w);
    } else {
        assert(gap_text(white_pieces(w)) =~= w);
    }
}

} // verus!
