//! A JSON document as the metadata parser reads it. `serde_json` does the
//! parsing; the document is handed over as a [`Json`] tree whose objects keep
//! `serde_json`'s key order (sorted, one entry per key).

use vstd::prelude::*;

use crate::text::chars_of;
use crate::text::chars_equal;

verus! {

/// A JSON value. Numbers keep only what `serde_json::Value::as_i64` reports.
#[derive(Debug)]
pub enum Json {
    Null,
    Bool(bool),
    Number(Option<i64>),
    Str(String),
    Array(Vec<Json>),
    Object(Vec<JsonEntry>),
}

/// One member of a JSON object.
#[derive(Debug)]
pub struct JsonEntry {
    pub key: String,
    pub value: Json,
}

#[verifier::external_type_specification]
#[verifier::external_body]
pub struct ExJsonValue(serde_json::Value);

/// What `serde_json::from_slice::<serde_json::Value>` makes of `bytes`: the
/// document, or the text of the error it reports.
pub uninterp spec fn json_document(bytes: Seq<u8>) -> Result<Json, Seq<char>>;

/// Parses `bytes` with `serde_json::from_slice` into a `serde_json::Value`
/// and hands it over as a [`Json`] tree; the error is the `Display` text of
/// `serde_json::Error`. The contract only names the outcome.
#[verifier::external_body]
pub(crate) fn parse_json(bytes: &[u8]) -> (r: Result<Json, String>)
    ensures
        match r {
            Ok(j) => json_document(bytes@) == Ok::<Json, Seq<char>>(j),
            Err(e) => json_document(bytes@) == Err::<Json, Seq<char>>(e@),
        },
{
    match serde_json::from_slice::<serde_json::Value>(bytes) {
        Ok(value) => Ok(json_from_value(value)),
        Err(error) => Err(error.to_string()),
    }
}

/// Moves a `serde_json::Value` into a [`Json`] tree, variant for variant.
#[verifier::external_body]
fn json_from_value(value: serde_json::Value) -> Json {
    match value {
        serde_json::Value::Null => Json::Null,
        serde_json::Value::Bool(b) => Json::Bool(b),
        serde_json::Value::Number(n) => Json::Number(n.as_i64()),
        serde_json::Value::String(s) => Json::Str(s),
        serde_json::Value::Array(items) => Json::Array(items.into_iter().map(json_from_value).collect()),
        serde_json::Value::Object(map) => Json::Object(
            map.into_iter().map(|(key, v)| JsonEntry { key, value: json_from_value(v) }).collect(),
        ),
    }
}

/// The value of the first entry named `key`.
pub open spec fn json_field(entries: Seq<JsonEntry>, key: Seq<char>) -> Option<Json>
    decreases entries.len(),
{
    if entries.len() == 0 {
        None
    } else if entries[0].key@ == key {
        Some(entries[0].value)
    } else {
        json_field(entries.drop_first(), key)
    }
}

/// `serde_json::Value::get` with a string key: only objects have fields.
pub open spec fn json_get(v: Json, key: Seq<char>) -> Option<Json> {
    match v {
        Json::Object(entries) => json_field(entries@, key),
        _ => None,
    }
}

pub open spec fn json_get_opt(v: Option<Json>, key: Seq<char>) -> Option<Json> {
    match v {
        Some(j) => json_get(j, key),
        None => None,
    }
}

pub open spec fn json_as_str(v: Option<Json>) -> Option<Seq<char>> {
    match v {
        Some(Json::Str(s)) => Some(s@),
        _ => None,
    }
}

pub open spec fn json_as_i64(v: Option<Json>) -> Option<i64> {
    match v {
        Some(Json::Number(n)) => n,
        _ => None,
    }
}

pub open spec fn json_as_bool(v: Option<Json>) -> Option<bool> {
    match v {
        Some(Json::Bool(b)) => Some(b),
        _ => None,
    }
}

impl Json {
    /// `serde_json::Value::get` with a string key.
    pub fn get(&self, key: &str) -> (r: Option<&Json>)
        ensures
            match r {
                Some(x) => json_get(*self, key@) == Some(*x),
                None => json_get(*self, key@) is None,
            },
    {
        match self {
            Json::Object(entries) => {
                let k = chars_of(key);
                let mut i: usize = 0;
                assert(entries@.skip(0) =~= entries@);
                while i < entries.len()
                    invariant
                        i <= entries@.len(),
                        k@ == key@,
                        json_get(*self, key@) == json_field(entries@, key@),
                        json_field(entries@, key@) == json_field(
                            entries@.skip(i as int),
                            key@,
                        ),
                    decreases entries@.len() - i,
                {
                    assert(entries@.skip(i as int)[0] == entries@[i as int]);
                    assert(entries@.skip(i as int).drop_first() =~= entries@.skip(i + 1));
                    let name = chars_of(entries[i].key.as_str());
                    if chars_equal(name.as_slice(), k.as_slice()) {
                        return Some(&entries[i].value);
                    }
                    i = i + 1;
                }
                None
            },
            _ => None,
        }
    }

    /// `serde_json::Value::as_str`.
    pub fn as_str(&self) -> (r: Option<&String>)
        ensures
            match r {
                Some(s) => json_as_str(Some(*self)) == Some(s@),
                None => json_as_str(Some(*self)) is None,
            },
    {
        match self {
            Json::Str(s) => Some(s),
            _ => None,
        }
    }
}

/// `value.and_then(Value::as_str)`, copied out.
pub fn opt_str(v: Option<&Json>) -> (r: Option<String>)
    ensures
        match v {
            Some(j) => match r {
                Some(s) => json_as_str(Some(*j)) == Some(s@),
                None => json_as_str(Some(*j)) is None,
            },
            None => r is None,
        },
{
    match v {
        Some(Json::Str(s)) => Some(s.clone()),
        _ => None,
    }
}

} // verus!
