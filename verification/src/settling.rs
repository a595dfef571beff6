//! Keys that come again: which is named, and what becomes of their values.

use crate::keys::{
    repeated_in_items, repeated_in_member, repeated_in_members, repeated_key, settled,
    settled_items, settled_member, settled_members,
};
use crate::laws::lemma_insertion_keeps_keys_distinct;
use crate::value::{distinct_keys, lemma_position, position, Json};
use vstd::prelude::*;

verus! {

proof fn lemma_prefix(members: Seq<(Seq<char>, Json)>, more: (Seq<char>, Json), count: int)
    requires
        0 <= count <= members.len(),
    ensures
        settled_members(members.push(more), count) == settled_members(members, count),
        repeated_in_members(members.push(more), count) == repeated_in_members(members, count),
    decreases count,
{
    if count > 0 {
        lemma_prefix(members, more, count - 1);
        let key = members[count - 1].0;
        assert(members.push(more)[count - 1] == members[count - 1]);
        lemma_position(members, key, 0);
        lemma_position(members.push(more), key, 0);
        let p = position(members, key);
        let q = position(members.push(more), key);
        assert(p < members.len());
        assert(members.push(more)[p] == members[p]);
        assert(q <= p);
        if q < p {
            assert(members.push(more)[q] == members[q]);
        }
    }
}

proof fn lemma_item_prefix(items: Seq<Json>, more: Json, count: int)
    requires
        0 <= count <= items.len(),
    ensures
        settled_items(items.push(more), count) == settled_items(items, count),
        repeated_in_items(items.push(more), count) == repeated_in_items(items, count),
    decreases count,
{
    if count > 0 {
        lemma_item_prefix(items, more, count - 1);
        assert(items.push(more)[count - 1] == items[count - 1]);
    }
}

/// Items are settled one by one, and the first of them with a repeated key names it.
pub proof fn lemma_one_item_more(items: Seq<Json>, v: Json)
    ensures
        settled(Json::Array(items.push(v))) matches Json::Array(all) && settled(Json::Array(items))
            == Json::Array(all.drop_last()) && all.len() == items.len() + 1 && all.last()
            == settled(v),
        repeated_key(Json::Array(items.push(v))) == match repeated_key(Json::Array(items)) {
            Some(key) => Some(key),
            None => repeated_key(v),
        },
{
    let n = items.len() as int;
    let before = settled_items(items, n);
    lemma_item_prefix(items, v, n);
    lemma_settled_length(items, n);
    assert(before.push(settled(v)).drop_last() =~= before);
}

proof fn lemma_settled_length(items: Seq<Json>, count: int)
    requires
        0 <= count <= items.len(),
    ensures
        settled_items(items, count).len() == count,
    decreases count,
{
    if count > 0 {
        lemma_settled_length(items, count - 1);
    }
}

/// Whether a member of an object has a key.
pub open spec fn comes_among(members: Seq<(Seq<char>, Json)>, key: Seq<char>) -> bool {
    exists|k: int| 0 <= k < members.len() && (#[trigger] members[k]).0 == key
}

/// One member more: a new key comes last, and a key that came before keeps its place and takes
/// the new value. The key is named as repeated if nothing before it was, neither among the
/// members nor in its own value.
pub proof fn lemma_one_member_more(members: Seq<(Seq<char>, Json)>, key: Seq<char>, v: Json)
    ensures
        ({
            let before = settled(Json::Object(members))->Object_0;
            let after = settled(Json::Object(members.push((key, v))))->Object_0;
            &&& settled(Json::Object(members.push((key, v)))) is Object
            &&& !comes_among(members, key) ==> after == before.push((key, settled(v)))
            &&& comes_among(members, key) ==> after.len() == before.len() && comes_among(
                before,
                key,
            ) && forall|k: int|
                0 <= k < before.len() ==> (#[trigger] after[k]).0 == before[k].0
            &&& comes_among(members, key) ==> forall|k: int|
                0 <= k < before.len() && before[k].0 != key ==> #[trigger] after[k] == before[k]
            &&& comes_among(members, key) ==> forall|k: int|
                0 <= k < before.len() && before[k].0 == key ==> (#[trigger] after[k]).1
                    == settled(v)
        }),
        repeated_key(Json::Object(members.push((key, v)))) == match repeated_key(
            Json::Object(members),
        ) {
            Some(other) => Some(other),
            None => match repeated_key(v) {
                Some(other) => Some(other),
                None => if comes_among(members, key) {
                    Some(key)
                } else {
                    None
                },
            },
        },
{
    let n = members.len() as int;
    let more = members.push((key, v));
    let before = settled_members(members, n);
    lemma_prefix(members, (key, v), n);
    assert(more[n] == (key, v));
    assert(settled_member((key, v)) == settled(v));
    assert(repeated_in_member((key, v)) == repeated_key(v));
    lemma_settled_keys(members, n, key);
    assert(members.take(n) =~= members);
    lemma_settled_distinct(members, n);
    lemma_position(before, key, 0);
    lemma_position(more, key, 0);
    if comes_among(members, key) {
        let k = choose|k: int| 0 <= k < members.len() && (#[trigger] members[k]).0 == key;
        assert(more[k] == members[k]);
        assert(position(more, key) < n);
        assert forall|k: int| 0 <= k < before.len() && before[k].0 == key implies k == position(
            before,
            key,
        ) by {
            let p = position(before, key);
            if p < k {
                assert(before[p].0 != before[k].0);
            }
        }
    } else {
        assert forall|k: int| 0 <= k < n implies (#[trigger] more[k]).0 != key by {
            assert(more[k] == members[k]);
        }
        if position(more, key) < n {
            assert(more[position(more, key)].0 == key);
        }
        if position(before, key) < before.len() {
            assert(before[position(before, key)].0 == key);
        }
    }
}

proof fn lemma_settled_distinct(members: Seq<(Seq<char>, Json)>, count: int)
    requires
        0 <= count <= members.len(),
    ensures
        distinct_keys(settled_members(members, count)),
    decreases count,
{
    if count > 0 {
        lemma_settled_distinct(members, count - 1);
        lemma_insertion_keeps_keys_distinct(
            settled_members(members, count - 1),
            members[count - 1].0,
            settled_member(members[count - 1]),
        );
    }
}

proof fn lemma_settled_keys(members: Seq<(Seq<char>, Json)>, count: int, key: Seq<char>)
    requires
        0 <= count <= members.len(),
    ensures
        comes_among(settled_members(members, count), key) == comes_among(members.take(count), key),
    decreases count,
{
    if count > 0 {
        let before = settled_members(members, count - 1);
        let last = members[count - 1];
        let after = settled_members(members, count);
        let earlier = members.take(count - 1);
        let now = members.take(count);
        lemma_settled_keys(members, count - 1, key);
        lemma_position(before, last.0, 0);
        let at = position(before, last.0);
        assert(now =~= earlier.push(last));
        if comes_among(before, key) {
            let k = choose|k: int| 0 <= k < before.len() && (#[trigger] before[k]).0 == key;
            assert(after[k].0 == key);
            let j = choose|j: int| 0 <= j < earlier.len() && (#[trigger] earlier[j]).0 == key;
            assert(now[j].0 == key);
        }
        if last.0 == key {
            assert(now[count - 1].0 == key);
            if at < before.len() {
                assert(after[at].0 == key);
            } else {
                assert(after[before.len() as int].0 == key);
            }
        }
        if comes_among(after, key) && last.0 != key {
            let k = choose|k: int| 0 <= k < after.len() && (#[trigger] after[k]).0 == key;
            assert(k < before.len());
            assert(before[k].0 == key);
        }
        if comes_among(now, key) && last.0 != key {
            let k = choose|k: int| 0 <= k < now.len() && (#[trigger] now[k]).0 == key;
            assert(k < count - 1);
            assert(earlier[k].0 == key);
        }
    } else {
        assert(members.take(0) =~= Seq::empty());
    }
}

} // verus!
