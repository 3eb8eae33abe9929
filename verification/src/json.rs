//! The JSON value tree.
//!
//! [`JsonValue`] is the value that the codec reads and builds. What it stands for is
//! a [`JsonSpec`]: there a number is a mathematical integer or the bit pattern of a
//! binary64 float, and an object is a map, so that the order of its members does not
//! matter. Where an object holds a name twice, the first member counts.
use crate::float_bits::{int_to_double_spec, signed_to_double, unsigned_to_double};
use crate::names::name_eq;
use crate::schema::{
    first_index, is_first_at, lemma_first_index_absent, lemma_first_index_found,
    lemma_first_index_is_first,
};
use vstd::prelude::*;
use vstd::string::*;

verus! {

/// What a JSON number stands for.
pub enum NumberSpec {
    /// An integer.
    Int(int),
    /// A float, as its binary64 bit pattern.
    Float(u64),
}

/// What a JSON value stands for.
pub enum JsonSpec {
    Null,
    Bool(bool),
    Number(NumberSpec),
    String(Seq<char>),
    Array(Seq<JsonSpec>),
    Object(Map<Seq<char>, JsonSpec>),
}

/// A JSON number: an integer between `-2^63` and `2^64 - 1`, or a float.
#[derive(Clone, Copy, Debug, PartialEq, Eq)]
pub enum JsonNumber {
    PosInt(u64),
    NegInt(i64),
    /// A float, as its binary64 bit pattern.
    Float(u64),
}

/// A JSON value.
#[derive(Debug, PartialEq, Eq)]
pub enum JsonValue {
    Null,
    Bool(bool),
    Number(JsonNumber),
    String(String),
    Array(Vec<JsonValue>),
    /// The members of an object, each with its name.
    Object(Vec<(String, JsonValue)>),
}

impl View for JsonNumber {
    type V = NumberSpec;

    open spec fn view(&self) -> NumberSpec {
        match self {
            JsonNumber::PosInt(n) => NumberSpec::Int(*n as int),
            JsonNumber::NegInt(n) => NumberSpec::Int(*n as int),
            JsonNumber::Float(b) => NumberSpec::Float(*b),
        }
    }
}

/// What the items of an array stand for.
pub open spec fn array_view(items: Seq<JsonValue>) -> Seq<JsonSpec>
    decreases items, 0nat,
{
    Seq::new(
        items.len(),
        |i: int|
            if 0 <= i < items.len() {
                items[i].view()
            } else {
                JsonSpec::Null
            },
    )
}

/// What the members of an object stand for: a map from each name to the value of the
/// first member of that name.
pub open spec fn object_view(entries: Seq<(String, JsonValue)>) -> Map<Seq<char>, JsonSpec>
    decreases entries, 0nat,
{
    if entries.len() == 0 {
        Map::empty()
    } else {
        let rest = object_view(entries.drop_last());
        let last = entries.last();
        if rest.contains_key(last.0@) {
            rest
        } else {
            rest.insert(last.0@, last.1.view())
        }
    }
}

impl View for JsonValue {
    type V = JsonSpec;

    open spec fn view(&self) -> JsonSpec
        decreases self, 1nat,
    {
        match self {
            JsonValue::Null => JsonSpec::Null,
            JsonValue::Bool(b) => JsonSpec::Bool(*b),
            JsonValue::Number(n) => JsonSpec::Number(n@),
            JsonValue::String(s) => JsonSpec::String(s@),
            JsonValue::Array(items) => JsonSpec::Array(array_view(items@)),
            JsonValue::Object(entries) => JsonSpec::Object(object_view(entries@)),
        }
    }
}

impl JsonSpec {
    /// The number as a `u64`, if the value is an integer that fits.
    pub open spec fn as_u64(self) -> Option<u64> {
        match self {
            JsonSpec::Number(NumberSpec::Int(i)) => if 0 <= i <= u64::MAX {
                Some(i as u64)
            } else {
                None
            },
            _ => None,
        }
    }

    /// The number as an `i64`, if the value is an integer that fits.
    pub open spec fn as_i64(self) -> Option<i64> {
        match self {
            JsonSpec::Number(NumberSpec::Int(i)) => if i64::MIN <= i <= i64::MAX {
                Some(i as i64)
            } else {
                None
            },
            _ => None,
        }
    }

    /// The number as a binary64 bit pattern, if the value is a number: the pattern of
    /// a float, the nearest float to an integer.
    pub open spec fn as_double(self) -> Option<u64> {
        match self {
            JsonSpec::Number(NumberSpec::Int(i)) => if i64::MIN <= i <= u64::MAX {
                Some(int_to_double_spec(i))
            } else {
                None
            },
            JsonSpec::Number(NumberSpec::Float(b)) => Some(b),
            _ => None,
        }
    }
}

/// The names of the members of an object.
pub open spec fn entry_keys(entries: Seq<(String, JsonValue)>) -> Seq<Seq<char>> {
    Seq::new(entries.len(), |i: int| entries[i].0@)
}

/// The map that the members of an object stand for holds each member's name, with
/// the value of the first member of that name, and nothing else.
pub proof fn lemma_object_view(entries: Seq<(String, JsonValue)>, key: Seq<char>)
    ensures
        object_view(entries).dom().finite(),
        object_view(entries).contains_key(key) <==> first_index(entry_keys(entries), key) is Some,
        first_index(entry_keys(entries), key) matches Some(i) ==> object_view(entries)[key]
            == entries[i].1@,
    decreases entries.len(),
{
    let keys = entry_keys(entries);
    let m = object_view(entries);
    lemma_first_index_is_first(keys, key);
    if entries.len() > 0 {
        let front = entries.drop_last();
        let front_keys = entry_keys(front);
        let last = entries.last();
        let rest = object_view(front);
        lemma_object_view(front, key);
        lemma_first_index_is_first(front_keys, key);
        assert forall|j: int| 0 <= j < front_keys.len() implies front_keys[j] == keys[j] by {}
        assert(m == if rest.contains_key(last.0@) {
            rest
        } else {
            rest.insert(last.0@, last.1@)
        });
        assert(m.dom().finite());
        match first_index(front_keys, key) {
            Some(i) => {
                assert(is_first_at(keys, key, i));
                lemma_first_index_found(keys, key, i);
                assert(rest.contains_key(key));
                assert(front[i] == entries[i]);
                assert(m.contains_key(key) && m[key] == entries[i].1@);
            },
            None => {
                if last.0@ == key {
                    assert(keys[entries.len() - 1] == key);
                    assert(is_first_at(keys, key, entries.len() - 1));
                    lemma_first_index_found(keys, key, entries.len() - 1);
                    assert(m.contains_key(key) && m[key] == last.1@);
                } else {
                    assert forall|j: int| 0 <= j < keys.len() implies keys[j] != key by {
                        if j < front_keys.len() {
                            assert(front_keys[j] == keys[j]);
                        }
                    }
                    lemma_first_index_absent(keys, key);
                    assert(!m.contains_key(key));
                }
            },
        }
    } else {
        lemma_first_index_absent(keys, key);
        assert(m =~= Map::empty());
    }
}

/// A member added under a new name is added to the map.
pub proof fn lemma_object_view_push(
    entries: Seq<(String, JsonValue)>,
    entry: (String, JsonValue),
)
    ensures
        !object_view(entries).contains_key(entry.0@) ==> object_view(entries.push(entry))
            == object_view(entries).insert(entry.0@, entry.1@),
{
    assert(entries.push(entry).drop_last() =~= entries);
}

impl JsonValue {
    /// The number as a `u64`, if the value is an integer that fits.
    pub fn as_u64(&self) -> (r: Option<u64>)
        ensures
            r == self@.as_u64(),
    {
        match self {
            JsonValue::Number(JsonNumber::PosInt(n)) => Some(*n),
            JsonValue::Number(JsonNumber::NegInt(n)) => if *n >= 0 {
                Some(*n as u64)
            } else {
                None
            },
            _ => None,
        }
    }

    /// The number as an `i64`, if the value is an integer that fits.
    pub fn as_i64(&self) -> (r: Option<i64>)
        ensures
            r == self@.as_i64(),
    {
        match self {
            JsonValue::Number(JsonNumber::PosInt(n)) => if *n <= 0x7fff_ffff_ffff_ffff {
                Some(*n as i64)
            } else {
                None
            },
            JsonValue::Number(JsonNumber::NegInt(n)) => Some(*n),
            _ => None,
        }
    }

    /// The number as a binary64 bit pattern, if the value is a number.
    pub fn as_double(&self) -> (r: Option<u64>)
        ensures
            r == self@.as_double(),
    {
        match self {
            JsonValue::Number(JsonNumber::PosInt(n)) => Some(unsigned_to_double(*n)),
            JsonValue::Number(JsonNumber::NegInt(n)) => Some(signed_to_double(*n)),
            JsonValue::Number(JsonNumber::Float(b)) => Some(*b),
            _ => None,
        }
    }

    /// The string, if the value is one.
    pub fn as_str(&self) -> (r: Option<&str>)
        ensures
            r matches Some(s) ==> self@ == JsonSpec::String(s@),
            r is None ==> !(self@ is String),
    {
        match self {
            JsonValue::String(s) => Some(s.as_str()),
            _ => None,
        }
    }

    /// The boolean, if the value is one.
    pub fn as_bool(&self) -> (r: Option<bool>)
        ensures
            r matches Some(b) ==> self@ == JsonSpec::Bool(b),
            r is None ==> !(self@ is Bool),
    {
        match self {
            JsonValue::Bool(b) => Some(*b),
            _ => None,
        }
    }

    /// The items, if the value is an array.
    pub fn as_array(&self) -> (r: Option<&Vec<JsonValue>>)
        ensures
            r matches Some(items) ==> self@ == JsonSpec::Array(array_view(items@)),
            r is None ==> !(self@ is Array),
    {
        match self {
            JsonValue::Array(items) => Some(items),
            _ => None,
        }
    }

    /// The members, if the value is an object.
    pub fn as_object(&self) -> (r: Option<&Vec<(String, JsonValue)>>)
        ensures
            r matches Some(entries) ==> self@ == JsonSpec::Object(object_view(entries@)),
            r is None ==> !(self@ is Object),
    {
        match self {
            JsonValue::Object(entries) => Some(entries),
            _ => None,
        }
    }
}

/// Members with the same names and values, one by one, stand for the same map.
pub proof fn lemma_object_view_alike(a: Seq<(String, JsonValue)>, b: Seq<(String, JsonValue)>)
    requires
        a.len() == b.len(),
        forall|i: int| 0 <= i < a.len() ==> a[i].0@ == b[i].0@ && a[i].1@ == b[i].1@,
    ensures
        object_view(a) == object_view(b),
    decreases a.len(),
{
    if a.len() > 0 {
        assert(a.last().0@ == b.last().0@ && a.last().1@ == b.last().1@);
        assert forall|i: int| 0 <= i < a.drop_last().len() implies a.drop_last()[i].0@
            == b.drop_last()[i].0@ && a.drop_last()[i].1@ == b.drop_last()[i].1@ by {
            assert(a.drop_last()[i] == a[i] && b.drop_last()[i] == b[i]);
        }
        lemma_object_view_alike(a.drop_last(), b.drop_last());
    }
}

impl Clone for JsonValue {
    /// A copy of the value.
    #[verifier::loop_isolation(false)]
    fn clone(&self) -> (r: Self)
        ensures
            r@ == self@,
        decreases self,
    {
        match self {
            JsonValue::Null => JsonValue::Null,
            JsonValue::Bool(b) => JsonValue::Bool(*b),
            JsonValue::Number(n) => JsonValue::Number(*n),
            JsonValue::String(s) => JsonValue::String(s.clone()),
            JsonValue::Array(items) => {
                let mut copy: Vec<JsonValue> = Vec::new();
                let mut i: usize = 0;
                while i < items.len()
                    invariant
                        i <= items@.len(),
                        copy@.len() == i,
                        forall|j: int| 0 <= j < i ==> copy@[j]@ == items@[j]@,
                    decreases items@.len() - i,
                {
                    let item = items[i].clone();
                    copy.push(item);
                    i += 1;
                }
                assert(array_view(copy@) =~= array_view(items@));
                JsonValue::Array(copy)
            },
            JsonValue::Object(entries) => {
                let mut copy: Vec<(String, JsonValue)> = Vec::new();
                let mut i: usize = 0;
                while i < entries.len()
                    invariant
                        i <= entries@.len(),
                        copy@.len() == i,
                        forall|j: int|
                            0 <= j < i ==> copy@[j].0@ == entries@[j].0@ && copy@[j].1@
                                == entries@[j].1@,
                    decreases entries@.len() - i,
                {
                    let name = entries[i].0.clone();
                    let member = entries[i].1.clone();
                    copy.push((name, member));
                    i += 1;
                }
                proof {
                    lemma_object_view_alike(copy@, entries@);
                }
                JsonValue::Object(copy)
            },
        }
    }
}

/// The value of the member called `key`: of the first one, if there are several.
pub fn object_get<'a>(entries: &'a Vec<(String, JsonValue)>, key: &str) -> (r: Option<
    &'a JsonValue,
>)
    ensures
        r matches Some(v) ==> object_view(entries@).contains_key(key@) && object_view(
            entries@,
        )[key@] == v@,
        r is None ==> !object_view(entries@).contains_key(key@),
{
    let ghost keys = entry_keys(entries@);
    let mut i: usize = 0;
    while i < entries.len()
        invariant
            i <= entries@.len(),
            keys == entry_keys(entries@),
            forall|j: int| 0 <= j < i ==> keys[j] != key@,
        decreases entries@.len() - i,
    {
        if name_eq(entries[i].0.as_str(), key) {
            proof {
                assert(is_first_at(keys, key@, i as int));
                lemma_first_index_found(keys, key@, i as int);
                lemma_object_view(entries@, key@);
            }
            return Some(&entries[i].1);
        }
        i += 1;
    }
    proof {
        lemma_first_index_absent(keys, key@);
        lemma_object_view(entries@, key@);
    }
    None
}

/// The one name of an object that has members of one name only.
pub open spec fn single_key(m: Map<Seq<char>, JsonSpec>) -> Option<Seq<char>> {
    if exists|k: Seq<char>| m.dom() =~= set![k] {
        Some(choose|k: Seq<char>| m.dom() =~= set![k])
    } else {
        None
    }
}

/// A map whose names are `k` and no other has `k` as its one name.
pub proof fn lemma_single_key(m: Map<Seq<char>, JsonSpec>, k: Seq<char>)
    requires
        m.dom() =~= set![k],
    ensures
        single_key(m) == Some(k),
{
    let c = choose|c: Seq<char>| m.dom() =~= set![c];
    assert(set![c].contains(k));
}

/// The name of the members of an object, if they all have the same one.
pub fn object_single_key(entries: &Vec<(String, JsonValue)>) -> (r: Option<&str>)
    ensures
        r matches Some(k) ==> single_key(object_view(entries@)) == Some(k@),
        r is None ==> single_key(object_view(entries@)) is None,
{
    if entries.len() == 0 {
        proof {
            if single_key(object_view(entries@)) is Some {
                let k = single_key(object_view(entries@))->0;
                assert(set![k].contains(k));
                assert(object_view(entries@).dom().contains(k));
            }
        }
        return None;
    }
    let first = entries[0].0.as_str();
    let ghost keys = entry_keys(entries@);
    let mut i: usize = 1;
    while i < entries.len()
        invariant
            1 <= i <= entries@.len(),
            keys == entry_keys(entries@),
            first@ == keys[0],
            forall|j: int| 0 <= j < i ==> keys[j] == first@,
        decreases entries@.len() - i,
    {
        if !name_eq(entries[i].0.as_str(), first) {
            proof {
                let m = object_view(entries@);
                let other = keys[i as int];
                lemma_object_view(entries@, first@);
                lemma_object_view(entries@, other);
                assert(is_first_at(keys, first@, 0));
                lemma_first_index_found(keys, first@, 0);
                lemma_first_index_is_first(keys, other);
                assert(m.contains_key(first@) && m.contains_key(other));
                if single_key(m) is Some {
                    let k = single_key(m)->0;
                    assert(set![k].contains(first@));
                    assert(set![k].contains(other));
                }
            }
            return None;
        }
        i += 1;
    }
    proof {
        let m = object_view(entries@);
        assert(is_first_at(keys, first@, 0));
        lemma_first_index_found(keys, first@, 0);
        assert forall|k: Seq<char>| m.dom().contains(k) <==> set![first@].contains(k) by {
            lemma_object_view(entries@, k);
            lemma_first_index_is_first(keys, k);
        }
        lemma_single_key(m, first@);
    }
    Some(first)
}

} // verus!
