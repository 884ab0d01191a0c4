//! The JSON values that pass through the library (node attributes, template
//! content specs, checklist contents) are `serde_json::Value`s. Verus sees them
//! as opaque; the few questions the logic asks of them go through the trusted
//! items below.
use vstd::prelude::*;

verus! {

#[verifier::external_type_specification]
#[verifier::external_body]
pub struct ExJsonValue(serde_json::Value);

/// Whether the value is a JSON object (`serde_json::Value::is_object`).
pub uninterp spec fn json_is_object(v: serde_json::Value) -> bool;

/// The entry stored under `key` when the value is an object that has one
/// (`serde_json::Value::get` with a string key), else `None`.
pub uninterp spec fn json_get(v: serde_json::Value, key: Seq<char>) -> Option<serde_json::Value>;

/// The text of a JSON string value (`serde_json::Value::as_str`), else `None`.
pub uninterp spec fn json_as_str(v: serde_json::Value) -> Option<Seq<char>>;

/// The string stored under `key`: the entry at `key`, when there is one and
/// it is a JSON string.
pub open spec fn json_str_field(v: serde_json::Value, key: Seq<char>) -> Option<Seq<char>> {
    match json_get(v, key) {
        Some(x) => json_as_str(x),
        None => None,
    }
}

/// `<serde_json::Value as Clone>::clone` gives back an equal value.
pub assume_specification[ <serde_json::Value as Clone>::clone ](v: &serde_json::Value) -> (r:
    serde_json::Value)
    ensures
        r == *v,
;

/// Calls `serde_json::Value::is_object`; the result is named `json_is_object`.
#[verifier::external_body]
pub(crate) fn value_is_object(v: &serde_json::Value) -> (r: bool)
    ensures
        r == json_is_object(*v),
{
    v.is_object()
}

/// Calls `serde_json::Value::get` with a string key; the result is named `json_get`.
#[verifier::external_body]
fn value_get<'a>(v: &'a serde_json::Value, key: &str) -> (r: Option<&'a serde_json::Value>)
    ensures
        match r {
            Some(x) => json_get(*v, key@) == Some(*x),
            None => json_get(*v, key@) is None,
        },
{
    v.get(key)
}

/// Calls `serde_json::Value::as_str` and copies the text; the result is named
/// `json_as_str`.
#[verifier::external_body]
fn value_as_str(v: &serde_json::Value) -> (r: Option<String>)
    ensures
        match r {
            Some(s) => json_as_str(*v) == Some(s@),
            None => json_as_str(*v) is None,
        },
{
    match v.as_str() {
        Some(s) => Some(s.to_string()),
        None => None,
    }
}

/// The string stored under `key` (see `json_str_field`).
pub(crate) fn value_str_field(v: &serde_json::Value, key: &str) -> (r: Option<String>)
    ensures
        match r {
            Some(s) => json_str_field(*v, key@) == Some(s@),
            None => json_str_field(*v, key@) is None,
        },
{
    match value_get(v, key) {
        Some(x) => value_as_str(x),
        None => None,
    }
}

/// Builds `Value::Object(serde_json::Map::new())`: an object with no entries.
#[verifier::external_body]
pub(crate) fn empty_object() -> (r: serde_json::Value)
    ensures
        json_is_object(r),
        forall|k: Seq<char>| #[trigger] json_get(r, k) is None,
{
    serde_json::Value::Object(serde_json::Map::new())
}

/// `v[key] = Value::String(val)` on an object (`IndexMut<&str>`): the entry at
/// `key` is inserted or replaced by a JSON string holding `val`, the other
/// entries stay as they were.
#[verifier::external_body]
pub(crate) fn set_str_field(v: &mut serde_json::Value, key: &str, val: String)
    requires
        json_is_object(*old(v)),
    ensures
        json_is_object(*final(v)),
        json_get(*final(v), key@) is Some,
        json_as_str(json_get(*final(v), key@)->0) == Some(val@),
        forall|k: Seq<char>| k != key@ ==> #[trigger] json_get(*final(v), k) == json_get(*old(v), k),
{
    v[key] = serde_json::Value::String(val);
}

} // verus!
