//! The `BrokerProperties` header, which is where a Service Bus message's
//! properties travel.
//!
//! Not in its body: the body is the message, bytes as they are. They travel
//! in one header, a JSON object naming the message id, the lock token that a
//! peek-lock handed out, the sequence number. Both ends read it.

use crate::error::{self, protocol_error, Failure, TransportError};
use crate::json::{self, Json};
use crate::message::{self, Request, Response};
use crate::text;
use serde_json::{Error, Value};
use vstd::prelude::*;
use vstd::string::*;

verus! {

/// The one header a message's properties travel in.
pub const BROKER_PROPERTIES: &'static str = "BrokerProperties";

/// What a call that reads properties gives back, by the models of what it
/// holds.
pub open spec fn found(result: Result<Value, TransportError>) -> Result<
    Json,
    Failure,
> {
    match result {
        Ok(value) => Ok(json::model(value)),
        Err(failure) => Err(failure@),
    }
}

/// The properties in what was read of a header: an object, and nothing else.
pub open spec fn checked_spec(parsed: Result<Json, Seq<char>>) -> Result<
    Json,
    Failure,
> {
    match parsed {
        Ok(value) => if value is Object {
            Ok(value)
        } else {
            Err(error::lasting("BrokerProperties that are not an object"@))
        },
        Err(said) => Err(
            error::lasting("BrokerProperties that are not JSON: "@ + said),
        ),
    }
}

/// The properties that a header carries: those of an object without members
/// where there is no header.
pub open spec fn properties(header: Option<Seq<char>>) -> Result<
    Json,
    Failure,
> {
    match header {
        Some(header) => checked_spec(json::read(header)),
        None => Ok(Json::Object(Map::empty())),
    }
}

/// The properties among some headers.
pub open spec fn properties_among(headers: Seq<(Seq<char>, Seq<char>)>) -> Result<
    Json,
    Failure,
> {
    properties(message::header_named(headers, BROKER_PROPERTIES@))
}

/// The properties a request carries in its `BrokerProperties` header, or an
/// empty object where it carries none. A header that is present and not a
/// JSON object is a failure.
pub fn properties_of(request: &Request) -> (result: Result<Value, TransportError>)
    ensures
        found(result) == properties_among(request@.headers),
{
    parse(request.header_value(BROKER_PROPERTIES))
}

/// The properties an answer carries in its `BrokerProperties` header, or an
/// empty object where it carries none. A header that is present and not a
/// JSON object is a failure.
pub fn properties_in(response: &Response) -> (result: Result<Value, TransportError>)
    ensures
        found(result) == properties_among(response@.headers),
{
    parse(response.header_value(BROKER_PROPERTIES))
}

/// The properties that `header` carries.
pub fn parse(header: Option<&str>) -> (result: Result<Value, TransportError>)
    ensures
        found(result) == properties(text::viewed(header)),
{
    match header {
        Some(header) => checked(json::from_str(header)),
        None => Ok(json::empty_object()),
    }
}

/// The properties in what was read of a header: an object, and nothing else.
pub fn checked(parsed: Result<Value, Error>) -> (result: Result<Value, TransportError>)
    ensures
        found(result) == checked_spec(
            match parsed {
                Ok(value) => Ok(json::model(value)),
                Err(error) => Err(json::shown(error)),
            },
        ),
{
    match parsed {
        Ok(value) => if value.is_object() {
            Ok(value)
        } else {
            Err(protocol_error("BrokerProperties that are not an object".to_owned()))
        },
        Err(error) => {
            let mut message = "BrokerProperties that are not JSON: ".to_owned();
            message.append(json::error_text(&error).as_str());
            Err(protocol_error(message))
        },
    }
}

/// One string property, where `properties` has it.
#[must_use]
pub fn property<'a>(properties: &'a Value, name: &str) -> (value: Option<&'a str>)
    ensures
        text::viewed(value) == json::as_text(json::member(json::model(*properties), name@)),
{
    json::index(properties, name).as_str()
}

} // verus!
