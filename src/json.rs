//! A JSON value as the library reads it, and the one call that parses text into it.
use vstd::prelude::*;

use crate::text::same_text;

verus! {

/// A JSON value. A number keeps its value where it is a non-negative integer
/// that fits in `u64`, the only numbers this library reads.
pub enum Json {
    Null,
    Bool(bool),
    Num(Option<u64>),
    Str(String),
    Array(Vec<Json>),
    Object(Vec<(String, Json)>),
}

/// What `serde_json::from_str::<serde_json::Value>` makes of a text, as a [`Json`].
pub uninterp spec fn parsed_json(text: Seq<char>) -> Option<Json>;

#[verifier::external_type_specification]
#[verifier::external_body]
pub struct ExValue(serde_json::Value);

/// Relies on the variants of `serde_json::Value` and on `serde_json::Number::as_u64`
/// to carry a parsed value over, entry for entry.
#[verifier::external_body]
fn from_value(v: serde_json::Value) -> Json {
    match v {
        serde_json::Value::Null => Json::Null,
        serde_json::Value::Bool(b) => Json::Bool(b),
        serde_json::Value::Number(n) => Json::Num(n.as_u64()),
        serde_json::Value::String(s) => Json::Str(s),
        serde_json::Value::Array(a) => Json::Array(a.into_iter().map(from_value).collect()),
        serde_json::Value::Object(m) => Json::Object(m.into_iter().map(|(k, x)| (k, from_value(x))).collect()),
    }
}

/// Relies on `serde_json::from_str::<serde_json::Value>`: `None` where the text is not JSON.
#[verifier::external_body]
pub(crate) fn parse_json(text: &str) -> (r: Option<Json>)
    ensures
        r == parsed_json(text@),
{
    serde_json::from_str::<serde_json::Value>(text).ok().map(from_value)
}

/// The value under `key` among object entries; `Null` where there is none.
pub open spec fn entry_value(entries: Seq<(String, Json)>, key: Seq<char>) -> Json
    decreases entries.len(),
{
    if entries.len() == 0 {
        Json::Null
    } else if entries[0].0@ == key {
        entries[0].1
    } else {
        entry_value(entries.drop_first(), key)
    }
}

/// The member `key` of an object; `Null` for a missing key or a value that is no object.
pub open spec fn member(v: Json, key: Seq<char>) -> Json {
    match v {
        Json::Object(entries) => entry_value(entries@, key),
        _ => Json::Null,
    }
}

pub open spec fn str_value(v: Json) -> Option<Seq<char>> {
    match v {
        Json::Str(s) => Some(s@),
        _ => None,
    }
}

pub open spec fn u64_value(v: Json) -> Option<u64> {
    match v {
        Json::Num(n) => n,
        _ => None,
    }
}

impl Json {
    /// The member `key` of an object; `Null` for a missing key or a value that is no object.
    pub fn get(&self, key: &str) -> (r: &Json)
        ensures
            *r == member(*self, key@),
    {
        match self {
            Json::Object(entries) => {
                let mut i: usize = 0;
                assert(entries@.subrange(0, entries@.len() as int) =~= entries@);
                while i < entries.len()
                    invariant
                        member(*self, key@) == entry_value(entries@, key@),
                        i <= entries@.len(),
                        entry_value(entries@, key@) == entry_value(entries@.subrange(i as int, entries@.len() as int), key@),
                    decreases entries@.len() - i,
                {
                    let ghost rest = entries@.subrange(i as int, entries@.len() as int);
                    if same_text(entries[i].0.as_str(), key) {
                        assert(rest[0] == entries@[i as int]);
                        assert(rest[0].0@ == key@);
                        assert(entry_value(rest, key@) == rest[0].1);
                        assert(member(*self, key@) == entries@[i as int].1);
                        return &entries[i].1;
                    }
                    assert(rest.drop_first() =~= entries@.subrange(i + 1, entries@.len() as int));
                    i = i + 1;
                }
                &Json::Null
            },
            _ => &Json::Null,
        }
    }

    pub fn as_str(&self) -> (r: Option<&String>)
        ensures
            r.is_some() == str_value(*self).is_some(),
            r.is_some() ==> r.unwrap()@ == str_value(*self).unwrap(),
    {
        match self {
            Json::Str(s) => Some(s),
            _ => None,
        }
    }

    pub fn as_u64(&self) -> (r: Option<u64>)
        ensures
            r == u64_value(*self),
    {
        match self {
            Json::Num(n) => *n,
            _ => None,
        }
    }
}

} // verus!
