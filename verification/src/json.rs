//! JSON values as the library reads them: the parameters of a procedure and
//! the metadata patches sent by the user interface.
use vstd::prelude::*;
use crate::text::compare_text;

verus! {

/// A JSON number, by what the library reads of it.
#[derive(Debug)]
pub struct JsonNumber {
    /// The number as a `u64`, when it is a non-negative integer that fits.
    pub as_u64: Option<u64>,
    /// The number as an `i64`, when it is an integer that fits.
    pub as_i64: Option<i64>,
}

/// A JSON value. An object lists its entries, each key once.
#[derive(Debug)]
pub enum Json {
    Null,
    Bool(bool),
    Number(JsonNumber),
    Text(String),
    Array(Vec<Json>),
    Object(Vec<(String, Json)>),
}

/// The value under `key` among object entries.
pub open spec fn lookup(entries: Seq<(String, Json)>, key: Seq<char>) -> Option<Json>
    decreases entries.len(),
{
    if entries.len() == 0 {
        None
    } else if entries[0].0@ == key {
        Some(entries[0].1)
    } else {
        lookup(entries.drop_first(), key)
    }
}

/// `value.get(key)`: the entry of an object; nothing for other values.
pub open spec fn json_get(j: Json, key: Seq<char>) -> Option<Json> {
    match j {
        Json::Object(entries) => lookup(entries@, key),
        _ => None,
    }
}

/// The text of a JSON string.
pub open spec fn json_text(j: Option<Json>) -> Option<Seq<char>> {
    match j {
        Some(Json::Text(s)) => Some(s@),
        _ => None,
    }
}

impl Json {
    /// The value under `key`, when this is an object that has one.
    pub fn get(&self, key: &str) -> (r: Option<&Json>)
        ensures
            r is Some == json_get(*self, key@) is Some,
            r matches Some(v) ==> *v == json_get(*self, key@).unwrap(),
    {
        match self {
            Json::Object(entries) => {
                let mut i: usize = 0;
                assert(entries@.skip(0) =~= entries@);
                while i < entries.len()
                    invariant
                        i <= entries.len(),
                        json_get(*self, key@) == lookup(entries@, key@),
                        lookup(entries@, key@) == lookup(entries@.skip(i as int), key@),
                    decreases entries.len() - i,
                {
                    assert(entries@.skip(i as int)[0] == entries@[i as int]);
                    assert(entries@.skip(i as int).drop_first() =~= entries@.skip(i + 1));
                    if compare_text(entries[i].0.as_str(), key) == 0 {
                        return Some(&entries[i].1);
                    }
                    i = i + 1;
                }
                None
            },
            _ => None,
        }
    }

    /// The text, when this is a string.
    pub fn as_text(&self) -> (r: Option<&String>)
        ensures
            r is Some == self is Text,
            r matches Some(s) ==> *self == Json::Text(*s),
    {
        match self {
            Json::Text(s) => Some(s),
            _ => None,
        }
    }

    /// The elements, when this is an array.
    pub fn as_array(&self) -> (r: Option<&Vec<Json>>)
        ensures
            r is Some == self is Array,
            r matches Some(a) ==> *self == Json::Array(*a),
    {
        match self {
            Json::Array(a) => Some(a),
            _ => None,
        }
    }

    /// The entries, when this is an object.
    pub fn as_object(&self) -> (r: Option<&Vec<(String, Json)>>)
        ensures
            r is Some == self is Object,
            r matches Some(o) ==> *self == Json::Object(*o),
    {
        match self {
            Json::Object(o) => Some(o),
            _ => None,
        }
    }

    /// The number as a `u64`, when this is a non-negative integer that fits.
    pub fn as_u64(&self) -> (r: Option<u64>)
        ensures
            r == (match *self {
                Json::Number(n) => n.as_u64,
                _ => None,
            }),
    {
        match self {
            Json::Number(n) => n.as_u64,
            _ => None,
        }
    }
}


/// Looking up a key in object entries finds the first entry with that key, and
/// finds nothing when no entry has it.
pub proof fn lemma_lookup_first(entries: Seq<(String, Json)>, key: Seq<char>)
    ensures
        lookup(entries, key) is None <==> forall|i: int| 0 <= i < entries.len() ==> (#[trigger] entries[i]).0@ != key,
        lookup(entries, key) is Some ==> exists|i: int| 0 <= i < entries.len() && (#[trigger] entries[i]).0@ == key
            && lookup(entries, key) == Some(entries[i].1)
            && forall|j: int| 0 <= j < i ==> (#[trigger] entries[j]).0@ != key,
    decreases entries.len(),
{
    if entries.len() > 0 {
        let rest = entries.drop_first();
        lemma_lookup_first(rest, key);
        assert forall|i: int| 0 <= i < rest.len() implies rest[i] == entries[i + 1] by {}
        if entries[0].0@ == key {
            assert(entries[0].0@ == key);
        } else if lookup(rest, key) is Some {
            let i = choose|i: int| 0 <= i < rest.len() && (#[trigger] rest[i]).0@ == key
                && lookup(rest, key) == Some(rest[i].1)
                && forall|j: int| 0 <= j < i ==> (#[trigger] rest[j]).0@ != key;
            assert(entries[i + 1] == rest[i]);
            assert forall|j: int| 0 <= j < i + 1 implies (#[trigger] entries[j]).0@ != key by {
                if j > 0 {
                    assert(entries[j] == rest[j - 1]);
                }
            }
        } else {
            assert forall|i: int| 0 <= i < entries.len() implies (#[trigger] entries[i]).0@ != key by {
                if i > 0 {
                    assert(entries[i] == rest[i - 1]);
                }
            }
        }
    }
}

} // verus!
