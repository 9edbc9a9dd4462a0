//! JSON documents, as `serde_json` parses and holds them.
//!
//! A parsed document is an opaque `serde_json::Value`.  What it holds is
//! named by `json_model`, and the accessors below are trusted to read it as
//! that model says.

use vstd::prelude::*;

verus! {

/// Trusted: `serde_json::Value`, a parsed JSON value.  What it holds is
/// known only through `json_model`.
#[verifier::external_type_specification]
#[verifier::external_body]
pub struct ExValue(serde_json::Value);

/// Trusted: `serde_json::Error`, why a text did not parse.  Nothing is
/// known of what it holds.
#[verifier::external_type_specification]
#[verifier::external_body]
pub struct ExJsonError(serde_json::Error);

/// Trusted: `serde_json::Map`, the members of a JSON object.  What it
/// holds is known only through `json_members`.
#[verifier::external_type_specification]
#[verifier::external_body]
#[verifier::reject_recursive_types(K)]
#[verifier::reject_recursive_types(V)]
pub struct ExJsonMap<K, V>(serde_json::Map<K, V>);

/// What a JSON value holds.  A number stands for itself only: nothing here
/// reads its magnitude.
pub enum JsonModel {
    Null,
    Bool(bool),
    Number,
    Text(Seq<char>),
    Array(Seq<JsonModel>),
    Object(Map<Seq<char>, JsonModel>),
}

/// What `value` holds.
pub uninterp spec fn json_model(value: serde_json::Value) -> JsonModel;

/// The members that a JSON object holds, by key.
pub uninterp spec fn json_members(
    object: serde_json::Map<String, serde_json::Value>,
) -> Map<Seq<char>, JsonModel>;

/// What `text` parses to, or `None` where it is not one JSON value.
pub uninterp spec fn json_document(text: Seq<char>) -> Option<JsonModel>;

impl JsonModel {
    /// The member `key` of an object; `Null` for a missing key and for
    /// anything but an object.
    pub open spec fn member(self, key: Seq<char>) -> JsonModel {
        match self {
            JsonModel::Object(members) => if members.contains_key(key) {
                members[key]
            } else {
                JsonModel::Null
            },
            _ => JsonModel::Null,
        }
    }

    /// The elements of an array; none for anything but an array.
    pub open spec fn elements(self) -> Seq<JsonModel> {
        match self {
            JsonModel::Array(items) => items,
            _ => Seq::empty(),
        }
    }

    /// The characters of a string.
    pub open spec fn text(self) -> Option<Seq<char>> {
        match self {
            JsonModel::Text(chars) => Some(chars),
            _ => None,
        }
    }

    /// The number of members of an object.
    pub open spec fn member_count(self) -> Option<nat> {
        match self {
            JsonModel::Object(members) => Some(members.dom().len()),
            _ => None,
        }
    }
}

/// The models of a sequence of values.
pub open spec fn json_models(values: Seq<serde_json::Value>) -> Seq<JsonModel> {
    Seq::new(values.len(), |i: int| json_model(values[i]))
}

/// Trusted: `serde_json::from_str` for a `Value`.  It returns the value
/// that the text spells, or an error where the text is not one JSON value;
/// which of the two depends on the text alone.
#[verifier::external_body]
pub(crate) fn parse_json(text: &str) -> (r: Result<serde_json::Value, serde_json::Error>)
    ensures
        match r {
            Ok(value) => json_document(text@) == Some(json_model(value)),
            Err(_) => json_document(text@) is None,
        },
{
    serde_json::from_str::<serde_json::Value>(text)
}

/// Trusted: `Value::get` with a string key.  It returns the member stored
/// under the key when the value is an object that has it, else `None`.
#[verifier::external_body]
pub(crate) fn json_get<'a>(value: &'a serde_json::Value, key: &str) -> (r: Option<
    &'a serde_json::Value,
>)
    ensures
        match json_model(*value) {
            JsonModel::Object(members) => if members.contains_key(key@) {
                r is Some && json_model(*r->0) == members[key@]
            } else {
                r is None
            },
            _ => r is None,
        },
{
    value.get(key)
}

/// Trusted: `Value::as_array`.  It returns the elements when the value is
/// an array, else `None`.
#[verifier::external_body]
pub(crate) fn json_as_array<'a>(value: &'a serde_json::Value) -> (r: Option<
    &'a Vec<serde_json::Value>,
>)
    ensures
        match json_model(*value) {
            JsonModel::Array(items) => r is Some && json_models(r->0@) == items,
            _ => r is None,
        },
{
    value.as_array()
}

/// Trusted: `Value::as_str`.  It returns the characters when the value is a
/// string, else `None`.
#[verifier::external_body]
pub(crate) fn json_as_str<'a>(value: &'a serde_json::Value) -> (r: Option<&'a str>)
    ensures
        match json_model(*value) {
            JsonModel::Text(chars) => r is Some && r->0@ == chars,
            _ => r is None,
        },
{
    value.as_str()
}

/// Trusted: `Value::as_object`.  It returns the object's members when the
/// value is an object, else `None`.
#[verifier::external_body]
pub(crate) fn json_as_object<'a>(value: &'a serde_json::Value) -> (r: Option<
    &'a serde_json::Map<String, serde_json::Value>,
>)
    ensures
        match json_model(*value) {
            JsonModel::Object(members) => r is Some && json_members(*r->0) == members,
            _ => r is None,
        },
{
    value.as_object()
}

/// Trusted: `Map::len`, the number of members of a JSON object.
#[verifier::external_body]
pub(crate) fn json_object_len(object: &serde_json::Map<String, serde_json::Value>) -> (count: usize)
    ensures
        count == json_members(*object).dom().len(),
{
    object.len()
}

} // verus!
