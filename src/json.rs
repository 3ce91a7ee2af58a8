//! A JSON value tree held as plain data, and its construction from the
//! values that serde_json parses.
use vstd::prelude::*;
use vstd::string::StringExecFns;

use crate::text::str_eq;

verus! {

/// A JSON value. Numbers are held as `i64` where they are integers that fit;
/// any other number is `OtherNumber`. An object keeps its entries in order.
#[derive(Debug)]
pub enum JsonValue {
    Null,
    Bool(bool),
    Int(i64),
    OtherNumber,
    Str(String),
    Array(Vec<JsonValue>),
    Object(Vec<(String, JsonValue)>),
}

/// The value of the first entry named `key`, if any.
pub open spec fn obj_get(m: Seq<(String, JsonValue)>, key: Seq<char>) -> Option<JsonValue>
    decreases m.len(),
{
    if m.len() == 0 {
        None
    } else if m[0].0@ == key {
        Some(m[0].1)
    } else {
        obj_get(m.drop_first(), key)
    }
}

/// The member `key` of an object; nothing for a value of another kind.
pub open spec fn json_get(v: JsonValue, key: Seq<char>) -> Option<JsonValue> {
    match v {
        JsonValue::Object(m) => obj_get(m@, key),
        _ => None,
    }
}

impl JsonValue {
    /// The member `key` of an object; `None` for a missing key or a value
    /// that is not an object.
    pub fn get(&self, key: &str) -> (r: Option<&JsonValue>)
        ensures
            r.is_some() == json_get(*self, key@).is_some(),
            r.is_some() ==> *r.unwrap() == json_get(*self, key@).unwrap(),
    {
        match self {
            JsonValue::Object(m) => {
                let mut i: usize = 0;
                assert(m@.skip(0) =~= m@);
                while i < m.len()
                    invariant
                        i <= m@.len(),
                        json_get(*self, key@) == obj_get(m@, key@),
                        obj_get(m@, key@) == obj_get(m@.skip(i as int), key@),
                    decreases m@.len() - i,
                {
                    assert(m@.skip(i as int)[0] == m@[i as int]);
                    if str_eq(m[i].0.as_str(), key) {
                        assert(m@.skip(i as int).len() > 0);
                        assert(obj_get(m@.skip(i as int), key@) == Some(m@[i as int].1));
                        return Some(&m[i].1);
                    }
                    assert(m@.skip(i as int).drop_first() =~= m@.skip(i + 1));
                    i = i + 1;
                }
                None
            },
            _ => None,
        }
    }
}

/// How deeply arrays and objects may nest; serde_json's parser already
/// refuses documents that nest this deeply.
pub const MAX_NESTING: usize = 128;

/// serde_json's value tree, carried through unopened.
#[verifier::external_type_specification]
#[verifier::external_body]
pub struct ExValue(serde_json::Value);

/// serde_json's object map, carried through unopened.
#[verifier::external_type_specification]
#[verifier::external_body]
#[verifier::reject_recursive_types(K)]
#[verifier::reject_recursive_types(V)]
pub struct ExMap<K, V>(serde_json::Map<K, V>);

/// Relies on `serde_json::Value::is_null`: tells a null value apart.
pub assume_specification[ serde_json::Value::is_null ](v: &serde_json::Value) -> bool;

/// Relies on `serde_json::Value::as_bool`: the boolean of a boolean value.
pub assume_specification[ serde_json::Value::as_bool ](v: &serde_json::Value) -> Option<bool>;

/// Relies on `serde_json::Value::as_i64`: the integer of a number that fits an `i64`.
pub assume_specification[ serde_json::Value::as_i64 ](v: &serde_json::Value) -> Option<i64>;

/// Relies on `serde_json::Value::is_number`: tells a number apart.
pub assume_specification[ serde_json::Value::is_number ](v: &serde_json::Value) -> bool;

/// Relies on `serde_json::Value::as_str`: the text of a string value.
pub assume_specification[ serde_json::Value::as_str ](v: &serde_json::Value) -> Option<&str>;

/// Relies on `serde_json::Value::as_array`: the items of an array value.
pub assume_specification[ serde_json::Value::as_array ](v: &serde_json::Value) -> Option<
    &Vec<serde_json::Value>,
>;

/// Relies on `serde_json::Value::as_object`: the map of an object value.
pub assume_specification[ serde_json::Value::as_object ](v: &serde_json::Value) -> Option<
    &serde_json::Map<String, serde_json::Value>,
>;

/// Relies on `serde_json::Map::iter`: the entries of an object, in the map's order.
#[verifier::external_body]
fn object_entries(m: &serde_json::Map<String, serde_json::Value>) -> (r: Vec<
    (String, serde_json::Value),
>) {
    m.iter().map(|(k, v)| (k.clone(), v.clone())).collect()
}

/// Copies a serde_json value into a `JsonValue`; `None` where arrays and
/// objects are nested more than `depth` levels deep.
fn from_serde(v: &serde_json::Value, depth: usize) -> (r: Option<JsonValue>)
    decreases depth,
{
    if v.is_null() {
        return Some(JsonValue::Null);
    }
    if let Some(b) = v.as_bool() {
        return Some(JsonValue::Bool(b));
    }
    if let Some(i) = v.as_i64() {
        return Some(JsonValue::Int(i));
    }
    if v.is_number() {
        return Some(JsonValue::OtherNumber);
    }
    if let Some(s) = v.as_str() {
        return Some(JsonValue::Str(String::from_str(s)));
    }
    if depth == 0 {
        return None;
    }
    if let Some(a) = v.as_array() {
        let mut items: Vec<JsonValue> = Vec::new();
        let mut i: usize = 0;
        while i < a.len()
            invariant
                i <= a@.len(),
                depth > 0,
            decreases a@.len() - i,
        {
            match from_serde(&a[i], depth - 1) {
                Some(x) => items.push(x),
                None => return None,
            }
            i = i + 1;
        }
        return Some(JsonValue::Array(items));
    }
    if let Some(m) = v.as_object() {
        let es = object_entries(m);
        let mut entries: Vec<(String, JsonValue)> = Vec::new();
        let mut i: usize = 0;
        while i < es.len()
            invariant
                i <= es@.len(),
                depth > 0,
            decreases es@.len() - i,
        {
            match from_serde(&es[i].1, depth - 1) {
                Some(x) => entries.push((es[i].0.clone(), x)),
                None => return None,
            }
            i = i + 1;
        }
        return Some(JsonValue::Object(entries));
    }
    None
}

/// The value tree of a JSON text, or nothing where the text is not JSON or
/// nests arrays and objects too deeply (see `MAX_NESTING`).
pub uninterp spec fn json_of(text: Seq<char>) -> Option<JsonValue>;

/// Relies on `serde_json::from_str`, whose value tree `from_serde` copies:
/// the result depends on the text alone.
#[verifier::external_body]
fn parse_text(text: &str) -> (r: Option<JsonValue>)
    ensures
        r == json_of(text@),
{
    match serde_json::from_str::<serde_json::Value>(text) {
        Ok(v) => from_serde(&v, MAX_NESTING),
        Err(_) => None,
    }
}

/// Parses a JSON document into its value tree; `None` where the text is not
/// JSON or nests too deeply.
pub fn parse_json(text: &str) -> (r: Option<JsonValue>)
    ensures
        r == json_of(text@),
{
    parse_text(text)
}

} // verus!
