//! JSON documents: the values a query reads and builds.

use vstd::prelude::*;
use crate::number::{
    float_equal, float_key, float_less, float_of_nat, float_of_u64, SIGN_BIT,
};

verus! {

/// A JSON number: a whole number that is not negative, a negative whole
/// number, or the pattern of a finite double.
#[derive(Debug, Clone, Copy)]
pub enum JsonNumber {
    PosInt(u64),
    NegInt(i64),
    Float(u64),
}

/// The pattern of the double that a number is compared as: a whole number
/// is rounded to the nearest double.
pub open spec fn number_bits(n: JsonNumber) -> u64 {
    match n {
        JsonNumber::PosInt(u) => float_of_nat(u as nat),
        JsonNumber::NegInt(i) => if i < 0 {
            (float_of_nat((-i) as nat) + SIGN_BIT) as u64
        } else {
            float_of_nat(i as nat)
        },
        JsonNumber::Float(bits) => bits,
    }
}

/// The place of a number in the order of numbers.
pub open spec fn number_key(n: JsonNumber) -> int {
    float_key(number_bits(n))
}

/// Two numbers are equal when they are of the same kind and hold the same
/// number; a whole number never equals a double.
pub open spec fn number_eq(a: JsonNumber, b: JsonNumber) -> bool {
    match (a, b) {
        (JsonNumber::PosInt(x), JsonNumber::PosInt(y)) => x == y,
        (JsonNumber::NegInt(x), JsonNumber::NegInt(y)) => x == y,
        (JsonNumber::Float(x), JsonNumber::Float(y)) => float_key(x) == float_key(y),
        _ => false,
    }
}

impl JsonNumber {
    /// The pattern of the double that this number is compared as.
    pub fn to_float_bits(&self) -> (bits: u64)
        ensures
            bits == number_bits(*self),
    {
        match self {
            JsonNumber::PosInt(u) => float_of_u64(*u),
            JsonNumber::NegInt(i) => {
                if *i < 0 {
                    let magnitude: u64 = (-(*i as i128)) as u64;
                    float_of_u64(magnitude) + SIGN_BIT
                } else {
                    float_of_u64(*i as u64)
                }
            },
            JsonNumber::Float(bits) => *bits,
        }
    }

    /// Whether two numbers are equal.
    pub fn equals(&self, other: &JsonNumber) -> (r: bool)
        ensures
            r == number_eq(*self, *other),
    {
        match (self, other) {
            (JsonNumber::PosInt(x), JsonNumber::PosInt(y)) => *x == *y,
            (JsonNumber::NegInt(x), JsonNumber::NegInt(y)) => *x == *y,
            (JsonNumber::Float(x), JsonNumber::Float(y)) => float_equal(*x, *y),
            _ => false,
        }
    }

    /// Whether this number is less than the other, both taken as doubles.
    pub fn less_than(&self, other: &JsonNumber) -> (r: bool)
        ensures
            r == (number_key(*self) < number_key(*other)),
    {
        float_less(self.to_float_bits(), other.to_float_bits())
    }
}

/// A JSON document. An object holds its members in the order in which they
/// were put in; where a key stands twice, the first one counts.
#[derive(Debug)]
pub enum Json {
    Null,
    Bool(bool),
    Number(JsonNumber),
    String(String),
    Array(Vec<Json>),
    Object(Vec<(String, Json)>),
}

/// The value of a document: the same tree over sequences.
pub enum JsonValue {
    Null,
    Bool(bool),
    Number(JsonNumber),
    String(Seq<char>),
    Array(Seq<JsonValue>),
    Object(Seq<(Seq<char>, JsonValue)>),
}

/// The value that a document stands for.
pub open spec fn json_value(j: Json) -> JsonValue
    decreases j,
{
    match j {
        Json::Null => JsonValue::Null,
        Json::Bool(b) => JsonValue::Bool(b),
        Json::Number(n) => JsonValue::Number(n),
        Json::String(s) => JsonValue::String(s@),
        Json::Array(items) => JsonValue::Array(
            Seq::new(
                items@.len(),
                |i: int|
                    if 0 <= i < items@.len() {
                        json_value(items@[i])
                    } else {
                        JsonValue::Null
                    },
            ),
        ),
        Json::Object(members) => JsonValue::Object(
            Seq::new(
                members@.len(),
                |i: int|
                    if 0 <= i < members@.len() {
                        (members@[i].0@, json_value(members@[i].1))
                    } else {
                        (Seq::empty(), JsonValue::Null)
                    },
            ),
        ),
    }
}

impl View for Json {
    type V = JsonValue;

    open spec fn view(&self) -> JsonValue {
        json_value(*self)
    }
}

/// The values of a list of documents.
pub open spec fn values(items: Seq<Json>) -> Seq<JsonValue> {
    Seq::new(items.len(), |i: int| items[i]@)
}

/// The values of a list of members.
pub open spec fn member_values(members: Seq<(String, Json)>) -> Seq<(Seq<char>, JsonValue)> {
    Seq::new(members.len(), |i: int| (members[i].0@, members[i].1@))
}

/// The value of an array is the array of the values of its items.
pub proof fn lemma_array_view(items: Vec<Json>)
    ensures
        Json::Array(items)@ == JsonValue::Array(values(items@)),
{
    let held = Json::Array(items)@->Array_0;
    assert(held.len() == items@.len());
    assert forall|i: int| 0 <= i < held.len() implies held[i] == values(items@)[i] by {}
    assert(held =~= values(items@));
}

/// The value of an object is the object of the values of its members.
pub proof fn lemma_object_view(members: Vec<(String, Json)>)
    ensures
        Json::Object(members)@ == JsonValue::Object(member_values(members@)),
{
    let held = Json::Object(members)@->Object_0;
    assert(held.len() == members@.len());
    assert forall|i: int| 0 <= i < held.len() implies held[i] == member_values(members@)[i] by {}
    assert(held =~= member_values(members@));
}

/// Index of the first member at or after `i` with the key `key`, or the
/// number of members.
pub open spec fn key_from(members: Seq<(Seq<char>, JsonValue)>, key: Seq<char>, i: int) -> int
    decreases members.len() - i,
{
    if 0 <= i < members.len() && members[i].0 != key {
        key_from(members, key, i + 1)
    } else if i < members.len() {
        i
    } else {
        members.len() as int
    }
}

/// Index of the first member with the key `key`, or the number of members.
pub open spec fn key_index(members: Seq<(Seq<char>, JsonValue)>, key: Seq<char>) -> int {
    key_from(members, key, 0)
}

/// The place of a key lies within the members, holds the key where it is a
/// member, and no member before it holds the key.
pub proof fn lemma_key_from(members: Seq<(Seq<char>, JsonValue)>, key: Seq<char>, i: int)
    requires
        0 <= i <= members.len(),
    ensures
        i <= key_from(members, key, i) <= members.len(),
        key_from(members, key, i) < members.len() ==> members[key_from(members, key, i)].0 == key,
        forall|j: int| i <= j < key_from(members, key, i) ==> (#[trigger] members[j]).0 != key,
    decreases members.len() - i,
{
    if i < members.len() && members[i].0 != key {
        lemma_key_from(members, key, i + 1);
    }
}

/// The value of the member `key`, if there is one.
pub open spec fn member(members: Seq<(Seq<char>, JsonValue)>, key: Seq<char>) -> Option<JsonValue> {
    let i = key_index(members, key);
    if 0 <= i < members.len() {
        Some(members[i].1)
    } else {
        None
    }
}

/// The members with `key` set to `value`: in the place of the member of that
/// key where there is one, and at the end otherwise.
pub open spec fn with_member(
    members: Seq<(Seq<char>, JsonValue)>,
    key: Seq<char>,
    value: JsonValue,
) -> Seq<(Seq<char>, JsonValue)> {
    let i = key_index(members, key);
    if 0 <= i < members.len() {
        members.update(i, (key, value))
    } else {
        members.push((key, value))
    }
}

/// Equality of documents: of the same kind, with equal contents. Arrays are
/// equal item by item, in order. Objects are equal as sets of members: the
/// same keys, and under each key equal values, in whatever order they stand.
pub open spec fn json_eq(a: JsonValue, b: JsonValue) -> bool
    decreases a,
{
    match (a, b) {
        (JsonValue::Null, JsonValue::Null) => true,
        (JsonValue::Bool(x), JsonValue::Bool(y)) => x == y,
        (JsonValue::Number(x), JsonValue::Number(y)) => number_eq(x, y),
        (JsonValue::String(x), JsonValue::String(y)) => x == y,
        (JsonValue::Array(x), JsonValue::Array(y)) => {
            &&& x.len() == y.len()
            &&& forall|i: int| 0 <= i < x.len() ==> json_eq(#[trigger] x[i], y[i])
        },
        (JsonValue::Object(x), JsonValue::Object(y)) => {
            &&& forall|i: int|
                0 <= i < x.len() ==> member_matches(#[trigger] x[i], i, x, y) && (key_index(
                    x,
                    x[i].0,
                ) == i ==> json_eq(x[i].1, y[key_index(y, x[i].0)].1))
            &&& keys_within(y, x)
        },
        _ => false,
    }
}

/// Every key of `y` is a key of `x`.
pub open spec fn keys_within(
    y: Seq<(Seq<char>, JsonValue)>,
    x: Seq<(Seq<char>, JsonValue)>,
) -> bool {
    forall|j: int| 0 <= j < y.len() ==> key_index(x, (#[trigger] y[j]).0) < x.len()
}

/// The key of the member `m` of `x` is a key of `y` too.
pub open spec fn member_matches(
    m: (Seq<char>, JsonValue),
    i: int,
    x: Seq<(Seq<char>, JsonValue)>,
    y: Seq<(Seq<char>, JsonValue)>,
) -> bool {
    0 <= key_index(y, m.0) < y.len()
}

/// Index of the first member with the key `key`.
pub fn find_member(members: &Vec<(String, Json)>, key: &String) -> (r: Option<usize>)
    ensures
        match r {
            Some(i) => i < members.len() && key_index(member_values(members@), key@) == i,
            None => key_index(member_values(members@), key@) == members.len(),
        },
{
    let ghost all = member_values(members@);
    let mut i: usize = 0;
    while i < members.len()
        invariant
            i <= members.len(),
            all == member_values(members@),
            key_from(all, key@, i as int) == key_index(all, key@),
        decreases members.len() - i,
    {
        assert(all[i as int].0 == members@[i as int].0@);
        if members[i].0 == *key {
            return Some(i);
        }
        i += 1;
    }
    None
}

impl Json {
    /// A copy of the whole document.
    #[verifier::loop_isolation(false)]
    pub fn duplicate(&self) -> (r: Json)
        ensures
            r@ == self@,
        decreases self,
    {
        match self {
            Json::Null => Json::Null,
            Json::Bool(b) => Json::Bool(*b),
            Json::Number(n) => Json::Number(*n),
            Json::String(s) => Json::String(s.clone()),
            Json::Array(items) => {
                let mut out: Vec<Json> = Vec::new();
                let mut i: usize = 0;
                while i < items.len()
                    invariant
                        i <= items.len(),
                        values(out@) =~= values(items@).take(i as int),
                    decreases items.len() - i,
                {
                    let item = items[i].duplicate();
                    out.push(item);
                    i += 1;
                }
                proof {
                    assert(values(out@) =~= values(items@));
                    lemma_array_view(out);
                    lemma_array_view(*items);
                }
                Json::Array(out)
            },
            Json::Object(members) => {
                let mut out: Vec<(String, Json)> = Vec::new();
                let mut i: usize = 0;
                while i < members.len()
                    invariant
                        i <= members.len(),
                        member_values(out@) =~= member_values(members@).take(i as int),
                    decreases members.len() - i,
                {
                    let key = members[i].0.clone();
                    let value = members[i].1.duplicate();
                    out.push((key, value));
                    i += 1;
                }
                proof {
                    assert(member_values(out@) =~= member_values(members@));
                    lemma_object_view(out);
                    lemma_object_view(*members);
                }
                Json::Object(out)
            },
        }
    }
}

impl Json {
    /// Whether two documents are equal.
    #[verifier::loop_isolation(false)]
    pub fn equals(&self, other: &Json) -> (r: bool)
        ensures
            r == json_eq(self@, other@),
        decreases self,
    {
        match (self, other) {
            (Json::Null, Json::Null) => true,
            (Json::Bool(x), Json::Bool(y)) => *x == *y,
            (Json::Number(x), Json::Number(y)) => x.equals(y),
            (Json::String(x), Json::String(y)) => *x == *y,
            (Json::Array(x), Json::Array(y)) => {
                proof {
                    lemma_array_view(*x);
                    lemma_array_view(*y);
                }
                let ghost xs = values(x@);
                let ghost ys = values(y@);
                if x.len() != y.len() {
                    return false;
                }
                let mut i: usize = 0;
                while i < x.len()
                    invariant
                        i <= x.len(),
                        forall|k: int| 0 <= k < i ==> json_eq(#[trigger] xs[k], ys[k]),
                    decreases x.len() - i,
                {
                    if !x[i].equals(&y[i]) {
                        assert(!json_eq(xs[i as int], ys[i as int]));
                        return false;
                    }
                    i += 1;
                }
                true
            },
            (Json::Object(x), Json::Object(y)) => {
                proof {
                    lemma_object_view(*x);
                    lemma_object_view(*y);
                }
                let ghost xs = member_values(x@);
                let ghost ys = member_values(y@);
                let mut i: usize = 0;
                while i < x.len()
                    invariant
                        i <= x.len(),
                        forall|k: int|
                            0 <= k < i ==> member_matches(#[trigger] xs[k], k, xs, ys) && (
                            key_index(xs, xs[k].0) == k ==> json_eq(
                                xs[k].1,
                                ys[key_index(ys, xs[k].0)].1,
                            )),
                    decreases x.len() - i,
                {
                    let key = &x[i].0;
                    assert(xs[i as int].0 == key@);
                    match find_member(y, key) {
                        None => {
                            assert(!member_matches(xs[i as int], i as int, xs, ys));
                            return false;
                        },
                        Some(j) => {
                            let first = find_member(x, key);
                            proof {
                                lemma_key_from(xs, key@, 0);
                            }
                            if first == Some(i) {
                                assert(ys[j as int].1 == y@[j as int].1@);
                                assert(xs[i as int].1 == x@[i as int].1@);
                                if !x[i].1.equals(&y[j].1) {
                                    assert(!json_eq(
                                        xs[i as int].1,
                                        ys[key_index(ys, xs[i as int].0)].1,
                                    ));
                                    return false;
                                }
                            }
                        },
                    }
                    i += 1;
                }
                let mut j: usize = 0;
                while j < y.len()
                    invariant
                        j <= y.len(),
                        forall|k: int|
                            0 <= k < j ==> key_index(xs, (#[trigger] ys[k]).0) < xs.len(),
                    decreases y.len() - j,
                {
                    let key = &y[j].0;
                    assert(ys[j as int].0 == key@);
                    if find_member(x, key).is_none() {
                        return false;
                    }
                    j += 1;
                }
                true
            },
            _ => false,
        }
    }
}

impl Clone for Json {
    fn clone(&self) -> (r: Json)
        ensures
            r@ == self@,
    {
        self.duplicate()
    }
}

} // verus!
