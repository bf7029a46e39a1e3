//! What the models say of the values they stand for: every field, as it is.

use crate::client::{self, Call, Locked, LockedMessage, Placed};
use crate::error::{self, Arrived, Failure, Stream, TransportError};
use crate::json;
use crate::listing;
use crate::message::{self, Answer, Asked, Field, Request, Response};
use crate::properties;
use crate::receiving::{self, Came, Step};
use crate::session::{Event, Happened, Token};
use crate::text;
use serde_json::Value;
use vstd::prelude::*;

verus! {

/// Named values are as many as they are, in their order, each by its name and
/// its value.
pub proof fn fields_are_names_and_values(fields: Seq<Field>)
    ensures
        message::fields(fields).len() == fields.len(),
        forall|i: int|
            0 <= i < fields.len() ==> #[trigger] message::fields(fields)[i] == (
                fields[i].name@,
                fields[i].value@,
            ),
{
}

/// A request and an answer are what their fields hold.
pub proof fn requests_and_answers_are_what_they_hold(request: Request, response: Response)
    ensures
        request@ == (Asked {
            method: request.method@,
            path: request.path@,
            parameters: message::fields(request.parameters@),
            headers: message::fields(request.headers@),
            body: request.body@,
        }),
        response@ == (Answer {
            status: response.status,
            headers: message::fields(response.headers@),
            body: response.body@,
        }),
{
}

/// A call is its request and its resource, and a locked message its four fields.
pub proof fn calls_and_locked_messages_are_what_they_hold(call: Call, locked: Locked)
    ensures
        call@ == (Placed { request: call.request@, resource: call.resource@ }),
        locked@ == (LockedMessage {
            id: locked.id@,
            lock_token: locked.lock_token@,
            sequence: locked.sequence,
            body: locked.body@,
        }),
{
}

/// A failure is its message and whether it is worth repeating, a Stream its
/// origin and its bytes, and a token its resource.
pub proof fn failures_streams_and_tokens_are_what_they_hold(
    failure: TransportError,
    arrived: Arrived,
    token: Token,
)
    ensures
        failure@ == (Failure { message: failure.message@, retryable: failure.retryable }),
        arrived@ == (Stream { origin_uri: arrived.origin_uri@, bytes: arrived.bytes@ }),
        token@ == token.resource@,
{
}

/// An event is what happened, with all that it says of it.
pub proof fn events_are_what_happened(event: Event)
    ensures
        match (event, event@) {
            (Event::Sent(arrived), Happened::Sent(stream)) => stream == arrived@,
            (
                Event::Locked { queue, id, wait },
                Happened::Locked { queue: named, id: handed, wait: asked },
            ) => named == queue@ && asked == wait && match (id, handed) {
                (Some(id), Some(handed)) => handed == id@,
                (None, None) => true,
                _ => false,
            },
            (Event::Completed(origin), Happened::Completed(uri)) => uri == origin@,
            (Event::Refused(code), Happened::Refused(said)) => said == code@,
            _ => false,
        },
{
}

/// A step is a receive that goes on, or the Streams, as many as they are and in
/// their order.
pub proof fn steps_are_what_came(step: Step, arrived: Seq<Arrived>)
    ensures
        match (step, step@) {
            (Step::More(receiving), Came::More(progress)) => progress == receiving@,
            (Step::Done(arrived), Came::Done(streams)) => streams == receiving::streams(arrived@),
            _ => false,
        },
        receiving::streams(arrived).len() == arrived.len(),
        forall|i: int|
            0 <= i < arrived.len() ==> #[trigger] receiving::streams(arrived)[i] == arrived[i]@,
{
}

/// Texts that may be missing are there where they are, by their characters.
pub proof fn texts_that_may_be_missing(
    borrowed: Option<&str>,
    owned: Option<String>,
    pair: Option<(&str, &str)>,
)
    ensures
        match (borrowed, text::viewed(borrowed)) {
            (Some(text), Some(said)) => said == text@,
            (None, None) => true,
            _ => false,
        },
        match (owned, text::owned(owned)) {
            (Some(text), Some(said)) => said == text@,
            (None, None) => true,
            _ => false,
        },
        match (pair, text::viewed_pair(pair)) {
            (Some((left, right)), Some(said)) => said == (left@, right@),
            (None, None) => true,
            _ => false,
        },
{
}

/// What a call gives back is a success or a failure as it is.
pub proof fn outcomes_are_as_they_are<T: View>(
    result: Result<T, TransportError>,
    done: Result<(), TransportError>,
    locked: Result<Option<Locked>, TransportError>,
    value: Result<Value, TransportError>,
)
    ensures
        match (result, error::outcome(result)) {
            (Ok(given), Ok(said)) => said == given@,
            (Err(failure), Err(said)) => said == failure@,
            _ => false,
        },
        match (done, client::done_outcome(done)) {
            (Ok(_), Ok(_)) => true,
            (Err(failure), Err(said)) => said == failure@,
            _ => false,
        },
        match (locked, client::locked_outcome(locked)) {
            (Ok(Some(given)), Ok(Some(said))) => said == given@,
            (Ok(None), Ok(None)) => true,
            (Err(failure), Err(said)) => said == failure@,
            _ => false,
        },
        match (value, properties::found(value)) {
            (Ok(given), Ok(said)) => said == json::model(given),
            (Err(failure), Err(said)) => said == failure@,
            _ => false,
        },
{
}

/// Listed bodies are as many as they are, in their order, each under its key.
pub proof fn listed_bodies_are_under_their_keys(entries: Seq<(String, Vec<u8>)>)
    ensures
        listing::listed(entries).len() == entries.len(),
        forall|i: int|
            0 <= i < entries.len() ==> #[trigger] listing::listed(entries)[i] == (
                entries[i].0@,
                entries[i].1@,
            ),
{
}

} // verus!
