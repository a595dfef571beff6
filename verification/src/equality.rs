//! Equality of values is an equivalence.

use crate::value::{distinct_keys, has_key, lemma_position, position, same, well_formed, Json, Num};
use vstd::prelude::*;

verus! {

/// A value is equal to itself.
pub proof fn lemma_same_reflexive(v: Json)
    requires
        well_formed(v),
    ensures
        same(v, v),
    decreases v,
{
    match v {
        Json::Array(items) => {
            assert forall|i: int| 0 <= i < items.len() implies same(
                #[trigger] items[i],
                items[i],
            ) by {
                lemma_same_reflexive(items[i]);
            }
        },
        Json::Object(members) => {
            assert forall|i: int| 0 <= i < members.len() implies ({
                let member = #[trigger] members[i];
                let at = position(members, member.0);
                at < members.len() && same(member.1, members[at].1)
            }) by {
                lemma_position(members, members[i].0, 0);
                assert(decreases_to!(members => members[i]));
                assert(decreases_to!(members[i] => members[i].1));
                lemma_same_reflexive(members[i].1);
            }
        },
        _ => {},
    }
}

spec fn keys(members: Seq<(Seq<char>, Json)>) -> Seq<Seq<char>> {
    members.map_values(|member: (Seq<char>, Json)| member.0)
}

/// Of two objects with equally many keys, the second has none beyond the first's if it has all
/// of those.
proof fn lemma_same_keys(x: Seq<(Seq<char>, Json)>, y: Seq<(Seq<char>, Json)>, j: int)
    requires
        distinct_keys(x),
        distinct_keys(y),
        x.len() == y.len(),
        forall|i: int| 0 <= i < x.len() ==> has_key(y, (#[trigger] x[i]).0),
        0 <= j < y.len(),
    ensures
        has_key(x, y[j].0),
{
    let a = keys(x);
    let b = keys(y);
    assert(a.no_duplicates()) by {
        assert forall|p: int, q: int| 0 <= p < a.len() && 0 <= q < a.len() && p != q implies a[p]
            != a[q] by {
            assert(x[p].0 == a[p] && x[q].0 == a[q]);
        }
    }
    assert(b.no_duplicates()) by {
        assert forall|p: int, q: int| 0 <= p < b.len() && 0 <= q < b.len() && p != q implies b[p]
            != b[q] by {
            assert(y[p].0 == b[p] && y[q].0 == b[q]);
        }
    }
    a.unique_seq_to_set();
    b.unique_seq_to_set();
    assert(a.to_set().subset_of(b.to_set())) by {
        assert forall|key: Seq<char>| a.to_set().contains(key) implies b.to_set().contains(
            key,
        ) by {
            let i = choose|i: int| 0 <= i < a.len() && a[i] == key;
            assert(x[i].0 == key);
            let k = choose|k: int| 0 <= k < y.len() && (#[trigger] y[k]).0 == key;
            assert(b[k] == key);
        }
    }
    vstd::set_lib::lemma_subset_equality(a.to_set(), b.to_set());
    assert(b[j] == y[j].0);
    assert(b.to_set().contains(y[j].0));
    let i = choose|i: int| 0 <= i < a.len() && a[i] == y[j].0;
    assert(x[i].0 == y[j].0);
}

/// Equality goes both ways.
pub proof fn lemma_same_symmetric(a: Json, b: Json)
    requires
        well_formed(a),
        well_formed(b),
        same(a, b),
    ensures
        same(b, a),
    decreases a,
{
    match (a, b) {
        (Json::Array(x), Json::Array(y)) => {
            assert forall|i: int| 0 <= i < y.len() implies same(#[trigger] y[i], x[i]) by {
                assert(same(x[i], y[i]));
                lemma_same_symmetric(x[i], y[i]);
            }
        },
        (Json::Object(x), Json::Object(y)) => {
            assert forall|i: int| 0 <= i < x.len() implies has_key(y, (#[trigger] x[i]).0) by {
                lemma_position(y, x[i].0, 0);
            }
            assert forall|j: int| 0 <= j < y.len() implies ({
                let member = #[trigger] y[j];
                let at = position(x, member.0);
                at < x.len() && same(member.1, x[at].1)
            }) by {
                lemma_same_keys(x, y, j);
                lemma_position(x, y[j].0, 0);
                let i = position(x, y[j].0);
                lemma_position(y, x[i].0, 0);
                assert(position(y, x[i].0) == j);
                assert(decreases_to!(x => x[i]));
                assert(decreases_to!(x[i] => x[i].1));
                lemma_same_symmetric(x[i].1, y[j].1);
            }
        },
        _ => {},
    }
}

/// Values equal to a third are equal.
pub proof fn lemma_same_transitive(a: Json, b: Json, c: Json)
    requires
        same(a, b),
        same(b, c),
    ensures
        same(a, c),
    decreases a,
{
    match (a, b, c) {
        (Json::Array(x), Json::Array(y), Json::Array(z)) => {
            assert forall|i: int| 0 <= i < x.len() implies same(#[trigger] x[i], z[i]) by {
                assert(same(x[i], y[i]) && same(y[i], z[i]));
                lemma_same_transitive(x[i], y[i], z[i]);
            }
        },
        (Json::Object(x), Json::Object(y), Json::Object(z)) => {
            assert forall|i: int| 0 <= i < x.len() implies ({
                let member = #[trigger] x[i];
                let at = position(z, member.0);
                at < z.len() && same(member.1, z[at].1)
            }) by {
                let p = position(y, x[i].0);
                lemma_position(y, x[i].0, 0);
                lemma_position(z, y[p].0, 0);
                assert(decreases_to!(x => x[i]));
                assert(decreases_to!(x[i] => x[i].1));
                lemma_same_transitive(x[i].1, y[p].1, z[position(z, y[p].0)].1);
            }
        },
        _ => {},
    }
}

/// The order of the members does not matter.
pub proof fn lemma_order_does_not_matter(x: Seq<(Seq<char>, Json)>, y: Seq<(Seq<char>, Json)>)
    requires
        well_formed(Json::Object(x)),
        well_formed(Json::Object(y)),
        x.len() == y.len(),
        forall|i: int|
            0 <= i < x.len() ==> exists|j: int|
                0 <= j < y.len() && #[trigger] y[j] == #[trigger] x[i],
    ensures
        same(Json::Object(x), Json::Object(y)),
{
    let v = Json::Object(x);
    let w = Json::Object(y);
    assert(v->Object_0 == x && w->Object_0 == y);
    assert forall|i: int| 0 <= i < x.len() implies ({
        let member = #[trigger] x[i];
        let at = position(y, member.0);
        at < y.len() && same(member.1, y[at].1)
    }) by {
        let j = choose|j: int| 0 <= j < y.len() && #[trigger] y[j] == x[i];
        lemma_position(y, x[i].0, 0);
        let at = position(y, x[i].0);
        if at != j {
            assert(at < j);
            assert(y[at].0 != y[j].0);
        }
        lemma_same_reflexive(x[i].1);
    }
}

/// Objects of different size, and objects of which one has a key that the other lacks, differ.
pub proof fn lemma_other_keys_differ(
    x: Seq<(Seq<char>, Json)>,
    y: Seq<(Seq<char>, Json)>,
    i: int,
)
    requires
        x.len() != y.len() || (0 <= i < x.len() && forall|j: int|
            0 <= j < y.len() ==> (#[trigger] y[j]).0 != x[i].0),
    ensures
        !same(Json::Object(x), Json::Object(y)),
{
    if x.len() == y.len() {
        let member = x[i];
        lemma_position(y, member.0, 0);
        if same(Json::Object(x), Json::Object(y)) {
            assert(position(y, member.0) < y.len());
        }
    }
}

/// Doubles are equal if they have one text, and the two zeros are; an integer equals no double.
pub proof fn lemma_equal_numbers(x: Seq<char>, y: Seq<char>, n: int, m: int)
    ensures
        same(Json::Number(Num::Int(n)), Json::Number(Num::Int(m))) == (n == m),
        !same(Json::Number(Num::Int(n)), Json::Number(Num::Float(x))),
        !same(Json::Number(Num::Float(x)), Json::Number(Num::Int(n))),
        same(Json::Number(Num::Float(x)), Json::Number(Num::Float(x))),
        same(
            Json::Number(Num::Float(seq!['0', '.', '0'])),
            Json::Number(Num::Float(seq!['-', '0', '.', '0'])),
        ),
        same(Json::Number(Num::Float(x)), Json::Number(Num::Float(y))) && x.len() > 0 && x.last()
            != '0' ==> x == y,
{
}

} // verus!
