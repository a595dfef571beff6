//! The strict reading of JSON, which `serde_json` does.

use crate::keys::{
    lemma_repeated_key, lemma_settled, lemma_well_formed_parts, numbers_fit, repeated_key, settled,
};
use crate::standard::{lemma_written_text_is_json, read_text};
use crate::value::{
    distinct_keys, items_view, lemma_array_view, lemma_items_push, lemma_members_push,
    lemma_object_view, members_view, number_in_range, well_formed, Json, JsonValue, Num, Number,
    Object,
};
use crate::writer::is_written;
use vstd::prelude::*;

verus! {

#[verifier::external_type_specification]
#[verifier::external_body]
pub struct ExSerdeValue(serde_json::Value);

/// What a document of `serde_json` holds.
pub uninterp spec fn document(v: serde_json::Value) -> Json;

/// What `serde_json::from_str` reads in a text, if it takes the text for a JSON document.
pub uninterp spec fn strict_document(text: Seq<char>) -> Option<Json>;

/// How many containers stand inside each other in a value.
pub open spec fn depth(v: Json) -> int
    decreases v, 0int,
{
    match v {
        Json::Array(items) => 1 + items_depth(items, items.len() as int),
        Json::Object(members) => 1 + members_depth(members, members.len() as int),
        _ => 0,
    }
}

/// The depth of the deepest of the first `count` items.
pub open spec fn items_depth(items: Seq<Json>, count: int) -> int
    decreases items, count,
{
    if 0 < count <= items.len() {
        let before = items_depth(items, count - 1);
        let last = depth(items[count - 1]);
        if before < last {
            last
        } else {
            before
        }
    } else {
        0
    }
}

/// The depth of the deepest of the first `count` members.
pub open spec fn members_depth(members: Seq<(Seq<char>, Json)>, count: int) -> int
    decreases members, count,
{
    if 0 < count <= members.len() {
        let before = members_depth(members, count - 1);
        let last = member_depth(members[count - 1]);
        if before < last {
            last
        } else {
            before
        }
    } else {
        0
    }
}

pub open spec fn member_depth(member: (Seq<char>, Json)) -> int
    decreases member, 0int,
{
    depth(member.1)
}

/// Whether each double in a value is read back: its text alone is read as that double.
pub open spec fn doubles_read_back(v: Json) -> bool
    decreases v,
{
    match v {
        Json::Number(Num::Float(text)) => strict_document(text) == Some(v),
        Json::Array(items) => forall|i: int|
            0 <= i < items.len() ==> doubles_read_back(#[trigger] items[i]),
        Json::Object(members) => forall|i: int|
            0 <= i < members.len() ==> doubles_read_back((#[trigger] members[i]).1),
        _ => true,
    }
}

/// Whether `serde_json` reads a text that writes this value: it follows the value to its full
/// depth, its numbers fit, and each of its doubles is read as that double and not as a
/// neighbour.
pub open spec fn is_readable(v: Json) -> bool {
    numbers_fit(v) && depth(v) <= 127 && doubles_read_back(v)
}

/// Whether a value, once written, is read back exactly.
pub open spec fn reads_back(v: Json) -> bool {
    well_formed(v) && is_readable(v)
}

/// The document that a text is by the strict reading. A text that is no JSON is none. JSON is
/// read by the standard, and of a key that comes again the last value counts. Only where the
/// standard leaves the reading open, in the choice of doubles and beyond the depth that
/// `serde_json` follows, the document is what `serde_json` makes of the text.
pub open spec fn strict_value(text: Seq<char>) -> Option<Json> {
    match read_text(text) {
        Some(v) => if is_readable(v) {
            Some(settled(v))
        } else {
            strict_document(text)
        },
        None => None,
    }
}

/// Whether a text is JSON that writes a readable value.
pub open spec fn is_readable_text(text: Seq<char>) -> bool {
    read_text(text) matches Some(v) && is_readable(v)
}

/// Whether a text is JSON, and what was read in it is the value that it writes if that value is
/// readable.
pub open spec fn is_reading_of(text: Seq<char>, read: Json) -> bool {
    read_text(text) matches Some(v) && (is_readable(v) ==> read == settled(v))
}

/// Reads a text with `serde_json::from_str`. Whether it succeeds and what the document holds is
/// a function of the text. Only JSON text is read. A JSON text that is nested no deeper than the
/// recursion limit allows, whose integers have 64 bits at most and whose doubles, each alone,
/// are read as those doubles, is read as the value that it writes; a key that comes again keeps
/// its place and takes the later value.
#[verifier::external_body]
fn read_strict(text: &str) -> (r: Option<serde_json::Value>)
    ensures
        r is Some == strict_document(text@) is Some,
        r matches Some(v) ==> strict_document(text@) == Some(document(v)),
        is_readable_text(text@) ==> r is Some,
        r matches Some(v) ==> is_reading_of(text@, document(v)),
{
    serde_json::from_str(text).ok()
}

/// The outermost layer of a document.
enum Layer {
    Null,
    Bool(bool),
    Number(Number),
    String(String),
    Array(Vec<serde_json::Value>),
    Object(Vec<(String, serde_json::Value)>),
}

spec fn layer_document(layer: Layer) -> Json {
    match layer {
        Layer::Null => Json::Null,
        Layer::Bool(b) => Json::Bool(b),
        Layer::Number(n) => Json::Number(n@),
        Layer::String(s) => Json::String(s@),
        Layer::Array(items) => Json::Array(items@.map_values(|v: serde_json::Value| document(v))),
        Layer::Object(entries) => Json::Object(
            entries@.map_values(|e: (String, serde_json::Value)| (e.0@, document(e.1))),
        ),
    }
}

/// Takes a document apart by the variants of `serde_json::Value`. The entries of a
/// `serde_json::Map` come in its order, with no key twice; a `serde_json::Number` is an integer
/// of 64 bits by `as_u64` or `as_i64`, or a finite double, which its `Display` writes as a JSON
/// number with a fraction or an exponent.
#[verifier::external_body]
fn outer_layer(v: serde_json::Value) -> (r: Layer)
    ensures
        layer_document(r) == document(v),
        r matches Layer::Number(n) ==> number_in_range(n@),
        r matches Layer::Object(entries) ==> forall|i: int, j: int|
            0 <= i < j < entries@.len() ==> (#[trigger] entries@[i]).0@ != (
            #[trigger] entries@[j]).0@,
{
    match v {
        serde_json::Value::Null => Layer::Null,
        serde_json::Value::Bool(b) => Layer::Bool(b),
        serde_json::Value::Number(n) => Layer::Number(match (n.as_u64(), n.as_i64()) {
            (Some(u), _) => Number::PosInt(u),
            (None, Some(i)) => Number::NegInt(i),
            (None, None) => Number::Float(n.to_string()),
        }),
        serde_json::Value::String(s) => Layer::String(s),
        serde_json::Value::Array(items) => Layer::Array(items),
        serde_json::Value::Object(map) => Layer::Object(map.into_iter().collect()),
    }
}

/// The value that a document holds.
fn import(v: serde_json::Value) -> (r: JsonValue)
    ensures
        r@ == document(v),
        well_formed(document(v)),
    decreases document(v),
{
    broadcast use {lemma_items_push, lemma_members_push};

    let ghost whole = document(v);
    match outer_layer(v) {
        Layer::Null => JsonValue::Null,
        Layer::Bool(b) => JsonValue::Bool(b),
        Layer::Number(n) => JsonValue::Number(n),
        Layer::String(s) => JsonValue::String(s),
        Layer::Array(items) => {
            let ghost all = items@;
            let ghost parts = all.map_values(|v: serde_json::Value| document(v));
            let mut out: Vec<JsonValue> = Vec::new();
            for item in iter: items.into_iter()
                invariant
                    iter.seq() == all,
                    whole == document(v),
                    whole == Json::Array(parts),
                    parts == all.map_values(|v: serde_json::Value| document(v)),
                    items_view(out@) == parts.take(iter.index()),
                    forall|i: int| 0 <= i < iter.index() ==> well_formed(#[trigger] parts[i]),
            {
                assert(0 <= iter.index() < all.len());
                assert(item == all[iter.index()]);
                assert(document(item) == parts[iter.index()]);
                assert(decreases_to!(whole => whole->Array_0));
                assert(decreases_to!(whole->Array_0 => whole->Array_0[iter.index()]));
                let ghost before = out@;
                let value = import(item);
                out.push(value);
                proof {
                    let k = iter.index();
                    assert(out@ == before.push(value));
                    assert(parts.take(k + 1) =~= parts.take(k).push(parts[k]));
                }
            }
            proof {
                lemma_array_view(out);
                assert(parts.take(parts.len() as int) == parts);
            }
            JsonValue::Array(out)
        },
        Layer::Object(entries) => {
            let ghost all = entries@;
            let ghost parts = all.map_values(
                |e: (String, serde_json::Value)| (e.0@, document(e.1)),
            );
            let mut out: Vec<(String, JsonValue)> = Vec::new();
            for entry in iter: entries.into_iter()
                invariant
                    iter.seq() == all,
                    whole == document(v),
                    whole == Json::Object(parts),
                    parts == all.map_values(
                        |e: (String, serde_json::Value)| (e.0@, document(e.1)),
                    ),
                    members_view(out@) == parts.take(iter.index()),
                    forall|i: int| 0 <= i < iter.index() ==> well_formed((#[trigger] parts[i]).1),
            {
                assert(entry == all[iter.index()]);
                assert((entry.0@, document(entry.1)) == parts[iter.index()]);
                assert(decreases_to!(whole => whole->Object_0));
                assert(decreases_to!(whole->Object_0 => whole->Object_0[iter.index()]));
                let ghost member = whole->Object_0[iter.index()];
                assert(decreases_to!(member => member.1));
                let ghost before = out@;
                let member = (entry.0, import(entry.1));
                out.push(member);
                proof {
                    let k = iter.index();
                    assert(out@ == before.push(member));
                    assert(parts.take(k + 1) =~= parts.take(k).push(parts[k]));
                }
            }
            let object = Object { entries: out };
            proof {
                lemma_object_view(object);
                assert(parts.take(parts.len() as int) == parts);
                assert(distinct_keys(parts));
            }
            JsonValue::Object(object)
        },
    }
}

/// A text that writes a value that is read back is that value by the strict reading.
pub proof fn lemma_written_text_is_read_back(v: Json, text: Seq<char>)
    requires
        reads_back(v),
        is_written(v, text),
    ensures
        read_text(text) == Some(v),
        repeated_key(v) is None,
        strict_value(text) == Some(v),
{
    lemma_written_text_is_json(v, true);
    lemma_written_text_is_json(v, false);
    lemma_well_formed_parts(v);
    lemma_repeated_key(v);
    lemma_settled(v);
}

/// Reads a text as strict JSON.
pub fn strict_loads(text: &str) -> (r: Option<JsonValue>)
    ensures
        match r {
            Some(v) => strict_value(text@) == Some(v@) && well_formed(v@),
            None => strict_value(text@) is None,
        },
        strict_document(text@) == strict_value(text@),
{
    match read_strict(text) {
        Some(v) => Some(import(v)),
        None => None,
    }
}

} // verus!
