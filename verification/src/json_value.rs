//! JSON values, which the `json` crate builds and writes.
//!
//! A `JsonValue` is opaque to the proofs. What it denotes has a name,
//! `json_holds`, and so has the text that the crate writes for it,
//! `json_text`. The functions of this module are the crate's constructors and
//! its writer, each with what the crate's source shows of it.

use json::JsonValue;
use vstd::prelude::*;

verus! {

#[verifier::external_type_specification]
#[verifier::external_body]
pub struct ExJsonValue(json::JsonValue);

/// What a JSON value denotes.
pub enum JsonModel {
    Null,
    Number(int),
    Text(Seq<char>),
    Array(Seq<JsonModel>),
    /// The entries in the order in which they were inserted.
    Object(Seq<(Seq<char>, JsonModel)>),
}

/// What a value of the `json` crate denotes.
pub uninterp spec fn json_holds(value: JsonValue) -> JsonModel;

/// The text that `JsonValue::dump` of the `json` crate writes for a value
/// that denotes `model`.
pub uninterp spec fn json_text(model: JsonModel) -> Seq<char>;

/// What each value of a sequence denotes.
pub open spec fn models_of(values: Seq<JsonValue>) -> Seq<JsonModel> {
    values.map_values(|value: JsonValue| json_holds(value))
}

/// Whether an object has an entry under `key`.
pub open spec fn has_key(entries: Seq<(Seq<char>, JsonModel)>, key: Seq<char>) -> bool {
    exists|i: int| 0 <= i < entries.len() && (#[trigger] entries[i]).0 == key
}

/// `JsonValue::Null`, the variant that denotes `null`.
#[verifier::external_body]
pub(crate) fn json_null() -> (r: JsonValue)
    ensures
        json_holds(r) == JsonModel::Null,
{
    JsonValue::Null
}

/// `JsonValue::from` on a `u64`: the number with that value.
#[verifier::external_body]
pub(crate) fn json_number(n: u64) -> (r: JsonValue)
    ensures
        json_holds(r) == JsonModel::Number(n as int),
{
    JsonValue::from(n)
}

/// `JsonValue::from` on a `&str`: the string with those characters.
#[verifier::external_body]
pub(crate) fn json_string(s: &str) -> (r: JsonValue)
    ensures
        json_holds(r) == JsonModel::Text(s@),
{
    JsonValue::from(s)
}

/// `JsonValue::Array`, the variant that holds the items of an array in order.
#[verifier::external_body]
pub(crate) fn json_array(items: Vec<JsonValue>) -> (r: JsonValue)
    ensures
        json_holds(r) == JsonModel::Array(models_of(items@)),
{
    JsonValue::Array(items)
}

/// `JsonValue::new_object`: an object without entries.
#[verifier::external_body]
pub(crate) fn json_object() -> (r: JsonValue)
    ensures
        json_holds(r) == JsonModel::Object(Seq::empty()),
{
    JsonValue::new_object()
}

/// `JsonValue::insert` on an object, with a key that the object does not
/// hold yet: the entry comes after those that are there. The outside
/// function fails on a value that is no object and overrides the entry of a
/// key that is there, both of which the precondition leaves out.
#[verifier::external_body]
pub(crate) fn json_insert(object: &mut JsonValue, key: &str, item: JsonValue)
    requires
        json_holds(*old(object)) is Object,
        !has_key(json_holds(*old(object))->Object_0, key@),
    ensures
        json_holds(*final(object)) == JsonModel::Object(
            json_holds(*old(object))->Object_0.push((key@, json_holds(item))),
        ),
{
    object.insert(key, item).expect("Invalid Json object")
}

/// `JsonValue::dump`: the text of a value, which depends on nothing but
/// what the value denotes.
#[verifier::external_body]
pub(crate) fn json_dump(value: &JsonValue) -> (r: String)
    ensures
        r@ == json_text(json_holds(*value)),
{
    value.dump()
}

} // verus!
