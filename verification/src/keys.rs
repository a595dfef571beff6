//! Keys that occur twice in an object.

use crate::text::{chars_of, string_of};
use crate::value::{
    distinct_keys, inserted, items_view, lemma_array_view, lemma_object_view, lemma_position,
    number_in_range, position, well_formed, Json, JsonValue,
};
use vstd::prelude::*;

verus! {

/// The key that is the first to come a second time in one of the objects of a value, in the
/// order of reading.
pub open spec fn repeated_key(v: Json) -> Option<Seq<char>>
    decreases v, 0int,
{
    match v {
        Json::Array(items) => repeated_in_items(items, items.len() as int),
        Json::Object(members) => repeated_in_members(members, members.len() as int),
        _ => None,
    }
}

/// The first repeated key in the first `count` items.
pub open spec fn repeated_in_items(items: Seq<Json>, count: int) -> Option<Seq<char>>
    decreases items, count,
{
    if 0 < count <= items.len() {
        match repeated_in_items(items, count - 1) {
            Some(key) => Some(key),
            None => repeated_key(items[count - 1]),
        }
    } else {
        None
    }
}

/// The first repeated key in or among the first `count` members.
pub open spec fn repeated_in_members(members: Seq<(Seq<char>, Json)>, count: int) -> Option<
    Seq<char>,
>
    decreases members, count,
{
    if 0 < count <= members.len() {
        match repeated_in_members(members, count - 1) {
            Some(key) => Some(key),
            None => match repeated_in_member(members[count - 1]) {
                Some(key) => Some(key),
                None => if position(members, members[count - 1].0) < count - 1 {
                    Some(members[count - 1].0)
                } else {
                    None
                },
            },
        }
    } else {
        None
    }
}

/// The first repeated key in the value of a member.
pub open spec fn repeated_in_member(member: (Seq<char>, Json)) -> Option<Seq<char>>
    decreases member, 0int,
{
    repeated_key(member.1)
}

/// Whether no object in a value has a key twice.
pub open spec fn distinct_throughout(v: Json) -> bool
    decreases v,
{
    match v {
        Json::Array(items) => forall|i: int|
            0 <= i < items.len() ==> distinct_throughout(#[trigger] items[i]),
        Json::Object(members) => distinct_keys(members) && forall|i: int|
            0 <= i < members.len() ==> distinct_throughout((#[trigger] members[i]).1),
        _ => true,
    }
}

/// Whether every number in a value is one that a document can hold.
pub open spec fn numbers_fit(v: Json) -> bool
    decreases v,
{
    match v {
        Json::Number(n) => number_in_range(n),
        Json::Array(items) => forall|i: int|
            0 <= i < items.len() ==> numbers_fit(#[trigger] items[i]),
        Json::Object(members) => forall|i: int|
            0 <= i < members.len() ==> numbers_fit((#[trigger] members[i]).1),
        _ => true,
    }
}

/// A value in which a key that comes again has its last value, at its first place.
pub open spec fn settled(v: Json) -> Json
    decreases v, 0int,
{
    match v {
        Json::Array(items) => Json::Array(settled_items(items, items.len() as int)),
        Json::Object(members) => Json::Object(settled_members(members, members.len() as int)),
        _ => v,
    }
}

/// The first `count` items, each settled.
pub open spec fn settled_items(items: Seq<Json>, count: int) -> Seq<Json>
    decreases items, count,
{
    if 0 < count <= items.len() {
        settled_items(items, count - 1).push(settled(items[count - 1]))
    } else {
        Seq::empty()
    }
}

/// The object that the first `count` members make when they are set one after the other.
pub open spec fn settled_members(members: Seq<(Seq<char>, Json)>, count: int) -> Seq<
    (Seq<char>, Json),
>
    decreases members, count,
{
    if 0 < count <= members.len() {
        inserted(
            settled_members(members, count - 1),
            members[count - 1].0,
            settled_member(members[count - 1]),
        )
    } else {
        Seq::empty()
    }
}

/// The value of a member, settled.
pub open spec fn settled_member(member: (Seq<char>, Json)) -> Json
    decreases member, 0int,
{
    settled(member.1)
}

/// A value is well formed if its numbers fit and no object in it has a key twice.
pub proof fn lemma_well_formed_parts(v: Json)
    ensures
        well_formed(v) == (numbers_fit(v) && distinct_throughout(v)),
    decreases v,
{
    match v {
        Json::Array(items) => {
            assert forall|i: int| 0 <= i < items.len() implies well_formed(#[trigger] items[i])
                == (numbers_fit(items[i]) && distinct_throughout(items[i])) by {
                lemma_well_formed_parts(items[i]);
            }
        },
        Json::Object(members) => {
            assert forall|i: int| 0 <= i < members.len() implies well_formed(
                (#[trigger] members[i]).1,
            ) == (numbers_fit(members[i].1) && distinct_throughout(members[i].1)) by {
                assert(decreases_to!(members => members[i]));
                assert(decreases_to!(members[i] => members[i].1));
                lemma_well_formed_parts(members[i].1);
            }
        },
        _ => {},
    }
}

/// There is a repeated key exactly where some object has a key twice.
pub proof fn lemma_repeated_key(v: Json)
    ensures
        repeated_key(v) is None == distinct_throughout(v),
    decreases v, 0int,
{
    match v {
        Json::Array(items) => {
            lemma_repeated_in_items(items, items.len() as int);
        },
        Json::Object(members) => {
            lemma_repeated_in_members(members, members.len() as int);
            lemma_positions_tell(members);
        },
        _ => {},
    }
}

proof fn lemma_repeated_in_items(items: Seq<Json>, count: int)
    requires
        0 <= count <= items.len(),
    ensures
        repeated_in_items(items, count) is None == forall|i: int|
            0 <= i < count ==> distinct_throughout(#[trigger] items[i]),
    decreases items, count,
{
    if count > 0 {
        lemma_repeated_in_items(items, count - 1);
        lemma_repeated_key(items[count - 1]);
    }
}

spec fn first_places(members: Seq<(Seq<char>, Json)>, count: int) -> bool {
    forall|i: int| 0 <= i < count ==> position(members, (#[trigger] members[i]).0) >= i
}

proof fn lemma_repeated_in_members(members: Seq<(Seq<char>, Json)>, count: int)
    requires
        0 <= count <= members.len(),
    ensures
        repeated_in_members(members, count) is None == (first_places(members, count)
            && forall|i: int| 0 <= i < count ==> distinct_throughout((#[trigger] members[i]).1)),
    decreases members, count,
{
    if count > 0 {
        lemma_repeated_in_members(members, count - 1);
        assert(decreases_to!(members => members[count - 1]));
        assert(decreases_to!(members[count - 1] => members[count - 1].1));
        lemma_repeated_key(members[count - 1].1);
        assert(repeated_in_member(members[count - 1]) == repeated_key(members[count - 1].1));
    }
}

proof fn lemma_positions_tell(members: Seq<(Seq<char>, Json)>)
    ensures
        first_places(members, members.len() as int) == distinct_keys(members),
{
    if first_places(members, members.len() as int) {
        assert forall|i: int, j: int| 0 <= i < j < members.len() implies (#[trigger] members[i]).0
            != (#[trigger] members[j]).0 by {
            lemma_position(members, members[j].0, 0);
        }
    }
    if distinct_keys(members) {
        assert forall|i: int| 0 <= i < members.len() implies position(
            members,
            (#[trigger] members[i]).0,
        ) >= i by {
            lemma_position(members, members[i].0, 0);
        }
    }
}

/// A value without repeated keys is settled.
pub proof fn lemma_settled(v: Json)
    requires
        distinct_throughout(v),
    ensures
        settled(v) == v,
    decreases v, 0int,
{
    match v {
        Json::Array(items) => {
            lemma_settled_items(items, items.len() as int);
            assert(items.take(items.len() as int) =~= items);
        },
        Json::Object(members) => {
            lemma_settled_members(members, members.len() as int);
            assert(members.take(members.len() as int) =~= members);
        },
        _ => {},
    }
}

proof fn lemma_settled_items(items: Seq<Json>, count: int)
    requires
        0 <= count <= items.len(),
        forall|i: int| 0 <= i < items.len() ==> distinct_throughout(#[trigger] items[i]),
    ensures
        settled_items(items, count) == items.take(count),
    decreases items, count,
{
    if count > 0 {
        lemma_settled_items(items, count - 1);
        lemma_settled(items[count - 1]);
        assert(items.take(count) =~= items.take(count - 1).push(items[count - 1]));
    } else {
        assert(items.take(0) =~= Seq::empty());
    }
}

proof fn lemma_settled_members(members: Seq<(Seq<char>, Json)>, count: int)
    requires
        0 <= count <= members.len(),
        distinct_keys(members),
        forall|i: int| 0 <= i < members.len() ==> distinct_throughout((#[trigger] members[i]).1),
    ensures
        settled_members(members, count) == members.take(count),
    decreases members, count,
{
    if count > 0 {
        lemma_settled_members(members, count - 1);
        let last = members[count - 1];
        assert(decreases_to!(members => members[count - 1]));
        assert(decreases_to!(members[count - 1] => members[count - 1].1));
        lemma_settled(last.1);
        assert(settled_member(last) == last.1);
        let before = members.take(count - 1);
        lemma_position(before, last.0, 0);
        assert forall|i: int| 0 <= i < before.len() implies (#[trigger] before[i]).0 != last.0 by {
            assert(before[i] == members[i]);
        }
        assert(members.take(count) =~= before.push(last));
    } else {
        assert(members.take(0) =~= Seq::empty());
    }
}

/// Finds the key that is the first to come a second time.
pub fn find_repeated_key(value: &JsonValue) -> (r: Option<String>)
    ensures
        match r {
            Some(key) => repeated_key(value@) == Some(key@),
            None => repeated_key(value@) is None,
        },
    decreases value,
{
    match value {
        JsonValue::Array(values) => {
            let ghost items = items_view(values@);
            proof {
                lemma_array_view(*values);
            }
            let mut i: usize = 0;
            while i < values.len()
                invariant
                    i <= values.len(),
                    *value == JsonValue::Array(*values),
                    value@ == Json::Array(items),
                    items == items_view(values@),
                    repeated_in_items(items, i as int) is None,
                decreases values.len() - i,
            {
                assert(value->Array_0 == *values);
                assert(decreases_to!(*value => value->Array_0));
                assert(decreases_to!(value->Array_0 => value->Array_0[i as int]));
                match find_repeated_key(&values[i]) {
                    Some(key) => {
                        assert(repeated_in_items(items, i + 1) == Some(key@));
                        proof {
                            lemma_found_in_items(items, i + 1, items.len() as int);
                        }
                        return Some(key);
                    },
                    None => {},
                }
                i += 1;
            }
            None
        },
        JsonValue::Object(object) => {
            let ghost members = object@;
            proof {
                lemma_object_view(*object);
            }
            let mut i: usize = 0;
            while i < object.entries.len()
                invariant
                    i <= object.entries.len(),
                    *value == JsonValue::Object(*object),
                    value@ == Json::Object(members),
                    members == object@,
                    repeated_in_members(members, i as int) is None,
                decreases object.entries.len() - i,
            {
                proof {
                    assert(value->Object_0 == *object);
                    assert(decreases_to!(*value => value->Object_0));
                    assert(decreases_to!(value->Object_0 => value->Object_0.entries));
                    let entry = value->Object_0.entries[i as int];
                    assert(decreases_to!(value->Object_0.entries => entry));
                    assert(decreases_to!(entry => entry.1));
                    assert(members[i as int] == (entry.0@, entry.1@));
                    assert(repeated_in_member(members[i as int]) == repeated_key(entry.1@));
                }
                match find_repeated_key(&object.entries[i].1) {
                    Some(key) => {
                        assert(repeated_in_members(members, i + 1) == Some(key@));
                        proof {
                            lemma_found_in_members(members, i + 1, members.len() as int);
                        }
                        return Some(key);
                    },
                    None => {},
                }
                if object.find(&object.entries[i].0) < i {
                    let key = string_of(&chars_of(object.entries[i].0.as_str()));
                    assert(repeated_in_members(members, i + 1) == Some(key@));
                    proof {
                        lemma_found_in_members(members, i + 1, members.len() as int);
                    }
                    return Some(key);
                }
                i += 1;
            }
            None
        },
        _ => None,
    }
}

proof fn lemma_found_in_items(items: Seq<Json>, k: int, n: int)
    requires
        0 <= k <= n <= items.len(),
        repeated_in_items(items, k) is Some,
    ensures
        repeated_in_items(items, n) == repeated_in_items(items, k),
    decreases n - k,
{
    if k < n {
        lemma_found_in_items(items, k, n - 1);
    }
}

proof fn lemma_found_in_members(members: Seq<(Seq<char>, Json)>, k: int, n: int)
    requires
        0 <= k <= n <= members.len(),
        repeated_in_members(members, k) is Some,
    ensures
        repeated_in_members(members, n) == repeated_in_members(members, k),
    decreases n - k,
{
    if k < n {
        lemma_found_in_members(members, k, n - 1);
    }
}

} // verus!
