//! JSON values: the mathematical model, the executable type, and equality.

use crate::number::is_float_text;
use crate::text::{chars_of, is_text, string_of};
use vstd::prelude::*;
use vstd::std_specs::cmp::PartialEqSpecImpl;

verus! {

/// A number: an integer, or the shortest decimal text of a finite double.
pub enum Num {
    Int(int),
    Float(Seq<char>),
}

/// A JSON document as a mathematical value. An object is the sequence of its members in order.
pub enum Json {
    Null,
    Bool(bool),
    Number(Num),
    String(Seq<char>),
    Array(Seq<Json>),
    Object(Seq<(Seq<char>, Json)>),
}

/// A JSON number: an integer of either sign, or a finite double, which is held as its shortest
/// decimal text.
#[derive(Debug)]
pub enum Number {
    PosInt(u64),
    NegInt(i64),
    Float(String),
}

/// The members of a JSON object, in the order in which their keys first came.
#[derive(Debug)]
pub struct Object {
    pub entries: Vec<(String, JsonValue)>,
}

/// A JSON value.
#[derive(Debug)]
pub enum JsonValue {
    Null,
    Bool(bool),
    Number(Number),
    String(String),
    Array(Vec<JsonValue>),
    Object(Object),
}

impl View for Number {
    type V = Num;

    open spec fn view(&self) -> Num {
        match self {
            Number::PosInt(n) => Num::Int(*n as int),
            Number::NegInt(n) => Num::Int(*n as int),
            Number::Float(text) => Num::Float(text@),
        }
    }
}

/// The value that an executable value stands for.
pub open spec fn json_of(v: JsonValue) -> Json
    decreases v,
{
    match v {
        JsonValue::Null => Json::Null,
        JsonValue::Bool(b) => Json::Bool(b),
        JsonValue::Number(n) => Json::Number(n@),
        JsonValue::String(s) => Json::String(s@),
        JsonValue::Array(items) => Json::Array(
            Seq::new(
                items@.len(),
                |i: int|
                    if 0 <= i < items@.len() {
                        json_of(items@[i])
                    } else {
                        Json::Null
                    },
            ),
        ),
        JsonValue::Object(object) => Json::Object(
            Seq::new(
                object.entries@.len(),
                |i: int|
                    if 0 <= i < object.entries@.len() {
                        member_of(object.entries@[i])
                    } else {
                        (Seq::<char>::empty(), Json::Null)
                    },
            ),
        ),
    }
}

/// The member that an entry of an object stands for.
pub open spec fn member_of(entry: (String, JsonValue)) -> (Seq<char>, Json)
    decreases entry,
{
    (entry.0@, json_of(entry.1))
}

impl View for JsonValue {
    type V = Json;

    open spec fn view(&self) -> Json {
        json_of(*self)
    }
}

/// The values that the items of a vector stand for.
pub open spec fn items_view(items: Seq<JsonValue>) -> Seq<Json> {
    items.map_values(|item: JsonValue| json_of(item))
}

/// The members that the entries of an object stand for.
pub open spec fn members_view(entries: Seq<(String, JsonValue)>) -> Seq<(Seq<char>, Json)> {
    entries.map_values(|entry: (String, JsonValue)| member_of(entry))
}

impl View for Object {
    type V = Seq<(Seq<char>, Json)>;

    open spec fn view(&self) -> Seq<(Seq<char>, Json)> {
        members_view(self.entries@)
    }
}

/// An array stands for the array of what its items stand for.
pub broadcast proof fn lemma_array_view(items: Vec<JsonValue>)
    ensures
        #[trigger] JsonValue::Array(items)@ == Json::Array(items_view(items@)),
{
    assert(JsonValue::Array(items)@->Array_0 =~= items_view(items@));
}

/// An object stands for the object of its members.
pub broadcast proof fn lemma_object_view(object: Object)
    ensures
        #[trigger] JsonValue::Object(object)@ == Json::Object(object@),
{
    assert(JsonValue::Object(object)@->Object_0 =~= object@);
}

/// One item more stands for one value more.
pub broadcast proof fn lemma_items_push(items: Seq<JsonValue>, item: JsonValue)
    ensures
        #[trigger] items_view(items.push(item)) == items_view(items).push(item@),
{
    assert(items_view(items.push(item)) =~= items_view(items).push(item@));
}

/// One entry more stands for one member more.
pub broadcast proof fn lemma_members_push(
    entries: Seq<(String, JsonValue)>,
    entry: (String, JsonValue),
)
    ensures
        #[trigger] members_view(entries.push(entry)) == members_view(entries).push(
            (entry.0@, entry.1@),
        ),
{
    assert(members_view(entries.push(entry)) =~= members_view(entries).push(
        (entry.0@, entry.1@),
    ));
}

/// The index of the first member at or after `from` with the given key, or the number of
/// members if there is none.
pub open spec fn position_from(
    members: Seq<(Seq<char>, Json)>,
    key: Seq<char>,
    from: int,
) -> int
    decreases members.len() - from,
{
    if 0 <= from < members.len() {
        if members[from].0 == key {
            from
        } else {
            position_from(members, key, from + 1)
        }
    } else {
        members.len() as int
    }
}

/// The index of the first member with the given key, or the number of members.
pub open spec fn position(members: Seq<(Seq<char>, Json)>, key: Seq<char>) -> int {
    position_from(members, key, 0)
}

/// Whether some member has the given key.
pub open spec fn has_key(members: Seq<(Seq<char>, Json)>, key: Seq<char>) -> bool {
    exists|i: int| 0 <= i < members.len() && (#[trigger] members[i]).0 == key
}

/// The members after an insertion: a new key comes last, a known key keeps its place and takes
/// the new value.
pub open spec fn inserted(
    members: Seq<(Seq<char>, Json)>,
    key: Seq<char>,
    value: Json,
) -> Seq<(Seq<char>, Json)> {
    let at = position(members, key);
    if at < members.len() {
        members.update(at, (key, value))
    } else {
        members.push((key, value))
    }
}

/// Whether no key occurs twice.
pub open spec fn distinct_keys(members: Seq<(Seq<char>, Json)>) -> bool {
    forall|i: int, j: int|
        0 <= i < j < members.len() ==> (#[trigger] members[i]).0 != (#[trigger] members[j]).0
}

/// The position of a key is that of the first member that has it.
pub proof fn lemma_position(members: Seq<(Seq<char>, Json)>, key: Seq<char>, from: int)
    requires
        0 <= from <= members.len(),
    ensures
        ({
            let at = position_from(members, key, from);
            &&& from <= at <= members.len()
            &&& at < members.len() ==> members[at].0 == key
            &&& forall|i: int| from <= i < at ==> (#[trigger] members[i]).0 != key
        }),
    decreases members.len() - from,
{
    if from < members.len() && members[from].0 != key {
        lemma_position(members, key, from + 1);
    }
}

/// Whether a number is one that a document can hold: an integer of 64 bits with or without a
/// sign, or the text of a double.
pub open spec fn number_in_range(n: Num) -> bool {
    match n {
        Num::Int(i) => i64::MIN <= i <= u64::MAX,
        Num::Float(text) => is_float_text(text),
    }
}

/// Whether a value is one that a document can hold: its numbers are in range, and no key occurs
/// twice in an object.
pub open spec fn well_formed(v: Json) -> bool
    decreases v,
{
    match v {
        Json::Number(n) => number_in_range(n),
        Json::Array(items) => forall|i: int|
            0 <= i < items.len() ==> well_formed(#[trigger] items[i]),
        Json::Object(members) => distinct_keys(members) && forall|i: int|
            0 <= i < members.len() ==> well_formed((#[trigger] members[i]).1),
        _ => true,
    }
}

/// Whether two numbers are equal. The two zeros of the doubles are.
pub open spec fn same_number(a: Num, b: Num) -> bool {
    match (a, b) {
        (Num::Int(x), Num::Int(y)) => x == y,
        (Num::Float(x), Num::Float(y)) => x == y || (is_zero_text(x) && is_zero_text(y)),
        _ => false,
    }
}

/// The texts of the two zeros of the doubles.
pub open spec fn is_zero_text(t: Seq<char>) -> bool {
    t == seq!['0', '.', '0'] || t == seq!['-', '0', '.', '0']
}

/// Whether two values are equal. The order of an object's members does not count.
pub open spec fn same(a: Json, b: Json) -> bool
    decreases a,
{
    match (a, b) {
        (Json::Null, Json::Null) => true,
        (Json::Bool(x), Json::Bool(y)) => x == y,
        (Json::Number(x), Json::Number(y)) => same_number(x, y),
        (Json::String(x), Json::String(y)) => x == y,
        (Json::Array(x), Json::Array(y)) => x.len() == y.len() && forall|i: int|
            0 <= i < x.len() ==> same(#[trigger] x[i], y[i]),
        (Json::Object(x), Json::Object(y)) => x.len() == y.len() && forall|i: int|
            0 <= i < x.len() ==> {
                let member = #[trigger] x[i];
                let at = position(y, member.0);
                at < y.len() && same(member.1, y[at].1)
            },
        _ => false,
    }
}

impl Object {
    /// An object without members.
    pub fn new() -> (r: Object)
        ensures
            r@ == Seq::<(Seq<char>, Json)>::empty(),
    {
        let r = Object { entries: Vec::new() };
        assert(r@ =~= Seq::empty());
        r
    }

    pub fn is_empty(&self) -> (r: bool)
        ensures
            r == (self@.len() == 0),
    {
        self.entries.len() == 0
    }

    /// The index of the member with the given key, or the number of members.
    pub(crate) fn find(&self, key: &String) -> (r: usize)
        ensures
            r == position(self@, key@),
            r <= self.entries.len(),
    {
        let mut i: usize = 0;
        while i < self.entries.len()
            invariant_except_break
                i <= self.entries.len(),
                position(self@, key@) == position_from(self@, key@, i as int),
            ensures
                i == position(self@, key@),
                i <= self.entries.len(),
            decreases self.entries.len() - i,
        {
            if self.entries[i].0 == *key {
                break;
            }
            i += 1;
        }
        i
    }

    /// Whether a member has the given key.
    pub fn contains_key(&self, key: &String) -> (r: bool)
        ensures
            r == has_key(self@, key@),
    {
        let at = self.find(key);
        proof {
            lemma_position(self@, key@, 0);
        }
        at < self.entries.len()
    }

    /// Sets the member with the given key. A new key comes last, a known one keeps its place.
    pub fn insert(&mut self, key: String, value: JsonValue)
        ensures
            final(self)@ == inserted(old(self)@, key@, value@),
    {
        let at = self.find(&key);
        if at < self.entries.len() {
            self.entries.set(at, (key, value));
            assert(self@ =~= inserted(old(self)@, key@, value@));
        } else {
            self.entries.push((key, value));
            assert(self@ =~= inserted(old(self)@, key@, value@));
        }
    }
}

fn is_zero(text: &String) -> (r: bool)
    ensures
        r == is_zero_text(text@),
{
    proof {
        reveal_strlit("0.0");
        reveal_strlit("-0.0");
        assert("0.0"@ =~= seq!['0', '.', '0']);
        assert("-0.0"@ =~= seq!['-', '0', '.', '0']);
    }
    let t = chars_of(text.as_str());
    is_text(&t, "0.0") || is_text(&t, "-0.0")
}

fn numbers_equal(a: &Number, b: &Number) -> (r: bool)
    ensures
        r == same_number(a@, b@),
{
    match (a, b) {
        (Number::PosInt(x), Number::PosInt(y)) => *x == *y,
        (Number::NegInt(x), Number::NegInt(y)) => *x == *y,
        (Number::PosInt(x), Number::NegInt(y)) => *x as i128 == *y as i128,
        (Number::NegInt(x), Number::PosInt(y)) => *x as i128 == *y as i128,
        (Number::Float(x), Number::Float(y)) => *x == *y || (is_zero(x) && is_zero(y)),
        _ => false,
    }
}

/// Whether two values are equal.
pub(crate) fn values_equal(a: &JsonValue, b: &JsonValue) -> (r: bool)
    ensures
        r == same(a@, b@),
    decreases a,
{
    broadcast use {lemma_array_view, lemma_object_view};

    match (a, b) {
        (JsonValue::Null, JsonValue::Null) => true,
        (JsonValue::Bool(x), JsonValue::Bool(y)) => *x == *y,
        (JsonValue::Number(x), JsonValue::Number(y)) => numbers_equal(x, y),
        (JsonValue::String(x), JsonValue::String(y)) => *x == *y,
        (JsonValue::Array(x), JsonValue::Array(y)) => {
            if x.len() != y.len() {
                return false;
            }
            let mut i: usize = 0;
            while i < x.len()
                invariant
                    i <= x.len(),
                    x.len() == y.len(),
                    *a == JsonValue::Array(*x),
                    *b == JsonValue::Array(*y),
                    forall|j: int|
                        0 <= j < i ==> same(#[trigger] items_view(x@)[j], items_view(y@)[j]),
                decreases x.len() - i,
            {
                proof {
                    assert(a->Array_0 == *x);
                    assert(decreases_to!(*a => a->Array_0));
                    assert(decreases_to!(a->Array_0 => a->Array_0[i as int]));
                }
                if !values_equal(&x[i], &y[i]) {
                    proof {
                        lemma_array_view(*x);
                        lemma_array_view(*y);
                        assert(!same(items_view(x@)[i as int], items_view(y@)[i as int]));
                    }
                    return false;
                }
                i += 1;
            }
            true
        },
        (JsonValue::Object(x), JsonValue::Object(y)) => {
            if x.entries.len() != y.entries.len() {
                return false;
            }
            let mut i: usize = 0;
            while i < x.entries.len()
                invariant
                    i <= x.entries.len(),
                    x.entries.len() == y.entries.len(),
                    *a == JsonValue::Object(*x),
                    *b == JsonValue::Object(*y),
                    forall|j: int|
                        0 <= j < i ==> {
                            let member = #[trigger] x@[j];
                            let at = position(y@, member.0);
                            at < y@.len() && same(member.1, y@[at].1)
                        },
                decreases x.entries.len() - i,
            {
                let at = y.find(&x.entries[i].0);
                let ghost member = x@[i as int];
                if at >= y.entries.len() || !values_equal(&x.entries[i].1, &y.entries[at].1) {
                    proof {
                        lemma_object_view(*x);
                        lemma_object_view(*y);
                        assert(x@[i as int] == member);
                    }
                    return false;
                }
                i += 1;
            }
            true
        },
        _ => false,
    }
}

impl PartialEq for JsonValue {
    fn eq(&self, other: &JsonValue) -> (r: bool) {
        values_equal(self, other)
    }
}

impl PartialEqSpecImpl for JsonValue {
    open spec fn obeys_eq_spec() -> bool {
        true
    }

    open spec fn eq_spec(&self, other: &JsonValue) -> bool {
        same(self@, other@)
    }
}

impl Clone for Number {
    fn clone(&self) -> (r: Number)
        ensures
            r@ == self@,
    {
        match self {
            Number::PosInt(n) => Number::PosInt(*n),
            Number::NegInt(n) => Number::NegInt(*n),
            Number::Float(text) => Number::Float(string_of(&chars_of(text.as_str()))),
        }
    }
}

fn copy_value(value: &JsonValue) -> (r: JsonValue)
    ensures
        r@ == value@,
    decreases value,
{
    match value {
        JsonValue::Null => JsonValue::Null,
        JsonValue::Bool(b) => JsonValue::Bool(*b),
        JsonValue::Number(n) => JsonValue::Number(n.clone()),
        JsonValue::String(text) => JsonValue::String(string_of(&chars_of(text.as_str()))),
        JsonValue::Array(items) => {
            let mut out: Vec<JsonValue> = Vec::new();
            assert(items_view(out@) =~= items_view(items@).take(0));
            let mut i: usize = 0;
            while i < items.len()
                invariant
                    i <= items.len(),
                    *value == JsonValue::Array(*items),
                    items_view(out@) == items_view(items@).take(i as int),
                decreases items.len() - i,
            {
                assert(value->Array_0 == *items);
                assert(decreases_to!(*value => value->Array_0));
                assert(decreases_to!(value->Array_0 => value->Array_0[i as int]));
                let item = copy_value(&items[i]);
                proof {
                    lemma_items_push(out@, item);
                    let all = items_view(items@);
                    assert(all.take(i + 1) =~= all.take(i as int).push(all[i as int]));
                }
                out.push(item);
                i += 1;
            }
            proof {
                let all = items_view(items@);
                assert(all.take(all.len() as int) =~= all);
                lemma_array_view(out);
                lemma_array_view(*items);
            }
            JsonValue::Array(out)
        },
        JsonValue::Object(object) => {
            assert(value->Object_0 == *object);
            assert(decreases_to!(*value => value->Object_0));
            let copy = copy_object(object);
            proof {
                lemma_object_view(copy);
                lemma_object_view(*object);
            }
            JsonValue::Object(copy)
        },
    }
}

fn copy_object(object: &Object) -> (r: Object)
    ensures
        r@ == object@,
    decreases object,
{
    let mut entries: Vec<(String, JsonValue)> = Vec::new();
    assert(members_view(entries@) =~= object@.take(0));
    let mut i: usize = 0;
    while i < object.entries.len()
        invariant
            i <= object.entries.len(),
            members_view(entries@) == object@.take(i as int),
        decreases object.entries.len() - i,
    {
        proof {
            let entry = object.entries[i as int];
            assert(decreases_to!(*object => object.entries));
            assert(decreases_to!(object.entries => entry));
            assert(decreases_to!(entry => entry.1));
        }
        let entry = (
            string_of(&chars_of(object.entries[i].0.as_str())),
            copy_value(&object.entries[i].1),
        );
        proof {
            lemma_members_push(entries@, entry);
            assert(object@[i as int] == (entry.0@, entry.1@));
            assert(object@.take(i + 1) =~= object@.take(i as int).push(object@[i as int]));
        }
        entries.push(entry);
        i += 1;
    }
    assert(object@.take(object@.len() as int) =~= object@);
    Object { entries }
}

impl Clone for JsonValue {
    fn clone(&self) -> (r: JsonValue)
        ensures
            r@ == self@,
    {
        copy_value(self)
    }
}

impl Clone for Object {
    fn clone(&self) -> (r: Object)
        ensures
            r@ == self@,
    {
        copy_object(self)
    }
}

} // verus!
