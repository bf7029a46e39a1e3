//! JSON values as `serde_json` reads and writes them, seen from contracts.
//!
//! A `serde_json::Value` is opaque here. Its model is [`Json`], and what each
//! call of `serde_json` does is stated over that model.

use crate::text;
use serde_json::{Error, Value};
use vstd::prelude::*;
use vstd::string::*;

verus! {

/// A JSON value, as the variants of `serde_json::Value` and of its numbers
/// tell it apart.
pub enum Json {
    Null,
    Bool(bool),
    /// A number that is an integer from zero to `u64::MAX`.
    Count(u64),
    /// A number that is an integer below zero.
    Negative(i64),
    /// Any other number, by the bits of the 64-bit float that holds it.
    Real(u64),
    Text(Seq<char>),
    List(Seq<Json>),
    Object(Map<Seq<char>, Json>),
}

/// `serde_json::Value`: any JSON value.
#[verifier::external_type_specification]
#[verifier::external_body]
pub struct ExValue(serde_json::Value);

/// `serde_json::Error`: why a text is not JSON.
#[verifier::external_type_specification]
#[verifier::external_body]
pub struct ExError(serde_json::Error);

/// What a `serde_json::Value` holds.
pub uninterp spec fn model(value: Value) -> Json;

/// What a `serde_json::Error` displays.
pub uninterp spec fn shown(error: Error) -> Seq<char>;

/// What `serde_json::from_str` reads in a text: a value, or what the error
/// displays.
pub uninterp spec fn read(text: Seq<char>) -> Result<Json, Seq<char>>;

/// What a value displays in compact form. Its members stand in the order of
/// their names: `serde_json` keeps them so without its feature
/// `preserve_order`.
pub uninterp spec fn written(value: Json) -> Seq<char>;

/// Whether a value is an object that holds texts and counts alone.
pub open spec fn is_flat(value: Json) -> bool {
    &&& value is Object
    &&& forall|name: Seq<char>| #[trigger]
        value->Object_0.dom().contains(name) ==> (value->Object_0[name] is Text
            || value->Object_0[name] is Count)
}

/// The member `name` of an object; null where there is none, and of a value
/// that is no object.
pub open spec fn member(value: Json, name: Seq<char>) -> Json {
    if value is Object && value->Object_0.dom().contains(name) {
        value->Object_0[name]
    } else {
        Json::Null
    }
}

/// The text that a value is, where it is one.
pub open spec fn as_text(value: Json) -> Option<Seq<char>> {
    match value {
        Json::Text(text) => Some(text),
        _ => None,
    }
}

/// The count that a value is, where it is one.
pub open spec fn as_count(value: Json) -> Option<u64> {
    match value {
        Json::Count(count) => Some(count),
        _ => None,
    }
}

/// `serde_json::from_str` for a `Value`: the whole text read as one JSON
/// value, or the error that says why it is none. The same text always gives
/// the same result.
#[verifier::external_body]
pub(crate) fn from_str(source: &str) -> (parsed: Result<Value, Error>)
    ensures
        match (parsed, read(source@)) {
            (Ok(value), Ok(found)) => model(value) == found,
            (Err(error), Err(said)) => shown(error) == said,
            _ => false,
        },
{
    serde_json::from_str(source)
}

/// The `Display` of a `serde_json::Error`: the same error always displays the
/// same text.
#[verifier::external_body]
pub(crate) fn error_text(error: &Error) -> (text: String)
    ensures
        text@ == shown(*error),
{
    error.to_string()
}

/// `Value::is_object` holds of objects alone.
pub assume_specification[ Value::is_object ](value: &Value) -> (yes: bool)
    ensures
        yes == (model(*value) is Object),
;

/// `Value::as_str` gives the text of a string, and nothing of another value.
pub assume_specification<'a>[ Value::as_str ](value: &'a Value) -> (found: Option<&'a str>)
    ensures
        text::viewed(found) == as_text(model(*value)),
;

/// `Value::as_u64` gives a number that is an integer from zero to `u64::MAX`,
/// and nothing of another value.
pub assume_specification[ Value::as_u64 ](value: &Value) -> (count: Option<u64>)
    ensures
        count == as_count(model(*value)),
;

/// Indexing a `Value` by a name gives the member of that name, and null where
/// there is none or the value is no object.
#[verifier::external_body]
pub(crate) fn index<'a>(value: &'a Value, name: &str) -> (found: &'a Value)
    ensures
        model(*found) == member(model(*value), name@),
{
    &value[name]
}

/// `serde_json::Map::new` as a `Value`: an object without members.
#[verifier::external_body]
pub(crate) fn empty_object() -> (value: Value)
    ensures
        model(value) == Json::Object(Map::empty()),
{
    Value::Object(serde_json::Map::new())
}

/// `Value::from` of a string slice: that text as a value.
#[verifier::external_body]
pub(crate) fn from_text(text: &str) -> (value: Value)
    ensures
        model(value) == Json::Text(text@),
{
    Value::from(text)
}

/// `Value::from` of a `u64`: that count as a value.
#[verifier::external_body]
pub(crate) fn from_count(count: u64) -> (value: Value)
    ensures
        model(value) == Json::Count(count),
{
    Value::from(count)
}

/// Writing to an index of a `Value` that is an object puts the member there,
/// in the place of one of the same name. Any other value but null panics.
#[verifier::external_body]
pub(crate) fn put(value: &mut Value, name: &str, member: Value)
    requires
        model(*old(value)) is Object,
    ensures
        model(*final(value)) == Json::Object(
            model(*old(value))->Object_0.insert(name@, model(member)),
        ),
{
    value[name] = member;
}

/// The `Display` of a `Value` without formatting flags: the same value always
/// gives the same text, and reading that text gives the value back. Of values
/// that nest, or hold floats, nothing is said.
#[verifier::external_body]
pub(crate) fn to_text(value: &Value) -> (text: String)
    requires
        is_flat(model(*value)),
    ensures
        text@ == written(model(*value)),
        read(text@) is Ok,
        read(text@)->Ok_0 == model(*value),
{
    value.to_string()
}

} // verus!
