//! Xmip's side: the three calls a Location makes, each one request to be
//! signed for the queue it is about, and what is read in the answer.
//!
//! A queue is a path under the namespace, `https://ns.servicebus.windows.net/
//! orders` in the cloud and `http://127.0.0.1:port/orders` for a stand-in, and
//! its messages are three calls: `POST .../messages` sends one, `POST
//! .../messages/head` peeks the next and locks it, `DELETE .../messages/<id>/
//! <lock>` completes it. A peek-lock waits up to `timeout` seconds for a
//! message where there is none, then answers 204: long polling, as the service
//! calls it.
//!
//! Signing a request, carrying it to the namespace and bringing the answer
//! back are not done here: a [`Call`] says what is to be signed and sent.

use crate::error::{self, protocol_error, Failure, TransportError};
use crate::json::{self, Json};
use crate::message::{self, Answer, Asked, Request, Response};
use crate::number;
use crate::properties::{self, properties_in, property};
use crate::rest::{self, judge};
use crate::text;
use serde_json::Value;
use std::time::Duration;
use vstd::prelude::*;
use vstd::string::*;

verus! {

/// The most seconds one peek-lock waits for a message: what the service
/// allows a `timeout` to be.
pub const MAX_WAIT: u8 = 230;

/// One message as it came off the queue, locked to this receiver.
#[derive(Clone, Debug, PartialEq, Eq)]
pub struct Locked {
    pub id: String,
    pub lock_token: String,
    pub sequence: u64,
    pub body: Vec<u8>,
}

/// The model of a [`Locked`].
#[verifier::ext_equal]
pub struct LockedMessage {
    pub id: Seq<char>,
    pub lock_token: Seq<char>,
    pub sequence: u64,
    pub body: Seq<u8>,
}

impl View for Locked {
    type V = LockedMessage;

    open spec fn view(&self) -> LockedMessage {
        LockedMessage {
            id: self.id@,
            lock_token: self.lock_token@,
            sequence: self.sequence,
            body: self.body@,
        }
    }
}

/// One call: the request, and the resource that its token is to name.
#[derive(Clone, Debug, PartialEq, Eq)]
pub struct Call {
    pub request: Request,
    pub resource: String,
}

/// The model of a [`Call`].
#[verifier::ext_equal]
pub struct Placed {
    pub request: Asked,
    pub resource: Seq<char>,
}

impl View for Call {
    type V = Placed;

    open spec fn view(&self) -> Placed {
        Placed { request: self.request@, resource: self.resource@ }
    }
}

/// The near end of one namespace.
pub struct Client {
    endpoint: String,
    host: String,
    policy: String,
    key: String,
    timeout: Option<Duration>,
}

/// The model of a [`Client`]: the namespace's URL without a slash at its end,
/// its authority, the policy and key it signs with, and how long it waits for
/// an answer.
#[verifier::ext_equal]
pub struct Caller {
    pub endpoint: Seq<char>,
    pub host: Seq<char>,
    pub policy: Seq<char>,
    pub key: Seq<char>,
    pub timeout: Option<Duration>,
}

impl View for Client {
    type V = Caller;

    closed spec fn view(&self) -> Caller {
        Caller {
            endpoint: self.endpoint@,
            host: self.host@,
            policy: self.policy@,
            key: self.key@,
            timeout: self.timeout,
        }
    }
}

/// The queue's own URL, which is the resource that a token for it names.
pub open spec fn resource_spec(endpoint: Seq<char>, queue: Seq<char>) -> Seq<char> {
    endpoint + "/"@ + queue
}

/// The path of a queue's messages.
pub open spec fn messages_path(queue: Seq<char>) -> Seq<char> {
    "/"@ + queue + "/messages"@
}

/// The call that sends a message.
pub open spec fn send_call(caller: Caller, queue: Seq<char>, bytes: Seq<u8>) -> Placed {
    Placed {
        request: Asked {
            method: "POST"@,
            path: messages_path(queue),
            parameters: Seq::empty(),
            headers: seq![
                ("Content-Type"@, "application/octet-stream"@),
                ("Host"@, caller.host),
            ],
            body: bytes,
        },
        resource: resource_spec(caller.endpoint, queue),
    }
}

/// The seconds that a peek-lock asks to wait.
pub open spec fn asked_wait(wait: u8) -> u8 {
    if wait > MAX_WAIT {
        MAX_WAIT
    } else {
        wait
    }
}

/// The call that peeks and locks the next message.
pub open spec fn peek_lock_call(caller: Caller, queue: Seq<char>, wait: u8) -> Placed {
    Placed {
        request: Asked {
            method: "POST"@,
            path: messages_path(queue) + "/head"@,
            parameters: seq![("timeout"@, number::decimal_spec(asked_wait(wait) as nat))],
            headers: seq![("Host"@, caller.host)],
            body: Seq::empty(),
        },
        resource: resource_spec(caller.endpoint, queue),
    }
}

/// The call that completes a message.
pub open spec fn complete_call(
    caller: Caller,
    queue: Seq<char>,
    id: Seq<char>,
    lock_token: Seq<char>,
) -> Placed {
    Placed {
        request: Asked {
            method: "DELETE"@,
            path: messages_path(queue) + "/"@ + id + "/"@ + lock_token,
            parameters: Seq::empty(),
            headers: seq![("Host"@, caller.host)],
            body: Seq::empty(),
        },
        resource: resource_spec(caller.endpoint, queue),
    }
}

/// The service that answers are judged in the name of.
pub open spec fn service() -> Seq<char> {
    "Service Bus"@
}

/// The failure of an answer that hands out a message without a property it
/// cannot do without.
pub open spec fn nameless(name: Seq<char>) -> Failure {
    error::lasting("a locked message with no "@ + name)
}

/// The message that properties and a body hand out: its id and its lock token
/// are texts, and its sequence number is zero where it is no count.
pub open spec fn locked_from_spec(properties: Json, body: Seq<u8>) -> Result<
    LockedMessage,
    Failure,
> {
    match (
        json::as_text(json::member(properties, "MessageId"@)),
        json::as_text(json::member(properties, "LockToken"@)),
    ) {
        (None, _) => Err(nameless("MessageId"@)),
        (Some(_), None) => Err(nameless("LockToken"@)),
        (Some(id), Some(lock_token)) => Ok(
            LockedMessage {
                id,
                lock_token,
                sequence: match json::as_count(json::member(properties, "SequenceNumber"@)) {
                    Some(sequence) => sequence,
                    None => 0,
                },
                body,
            },
        ),
    }
}

/// What a peek-lock was answered: a message, none where the queue had none, or
/// the failure.
pub open spec fn locked_spec(answer: Answer) -> Result<Option<LockedMessage>, Failure> {
    match rest::judge_spec(service(), answer) {
        Err(failure) => Err(failure),
        Ok(answer) => if answer.status == 204 {
            Ok(None)
        } else {
            match properties::properties_among(answer.headers) {
                Err(failure) => Err(failure),
                Ok(properties) => match locked_from_spec(properties, answer.body) {
                    Err(failure) => Err(failure),
                    Ok(locked) => Ok(Some(locked)),
                },
            }
        },
    }
}

/// What a send or a complete was answered: that it is done, or the failure.
pub open spec fn done_spec(answer: Answer) -> Result<(), Failure> {
    match rest::judge_spec(service(), answer) {
        Err(failure) => Err(failure),
        Ok(_) => Ok(()),
    }
}

/// A message or none, by its model.
pub open spec fn locked_outcome(result: Result<Option<Locked>, TransportError>) -> Result<
    Option<LockedMessage>,
    Failure,
> {
    match result {
        Ok(Some(locked)) => Ok(Some(locked@)),
        Ok(None) => Ok(None),
        Err(failure) => Err(failure@),
    }
}

/// A success or a failure, by its model.
pub open spec fn done_outcome(result: Result<(), TransportError>) -> Result<(), Failure> {
    match result {
        Ok(()) => Ok(()),
        Err(failure) => Err(failure@),
    }
}

/// The near end that `host`, the authority found in `endpoint`, makes.
pub open spec fn new_spec(
    endpoint: Seq<char>,
    host: Result<String, TransportError>,
    policy: Seq<char>,
    key: Seq<char>,
) -> Result<Caller, Failure> {
    match host {
        Ok(host) => Ok(
            Caller {
                endpoint: text::trim_end_matches_spec(endpoint, '/'),
                host: host@,
                policy,
                key,
                timeout: None,
            },
        ),
        Err(failure) => Err(failure@),
    }
}

impl Client {
    /// Speak to the namespace at `endpoint`, `http://host:port` or
    /// `https://host:port`, signing as `policy` with `key`. `host` is the
    /// authority that was found in `endpoint`, or why it is not an HTTP URL.
    pub fn new(
        endpoint: &str,
        host: Result<String, TransportError>,
        policy: &str,
        key: &str,
    ) -> (result: Result<Self, TransportError>)
        ensures
            error::outcome(result) == new_spec(endpoint@, host, policy@, key@),
    {
        match host {
            Ok(host) => Ok(
                Client {
                    endpoint: text::trim_end_matches(endpoint, '/').to_owned(),
                    host,
                    policy: policy.to_owned(),
                    key: key.to_owned(),
                    timeout: None,
                },
            ),
            Err(failure) => Err(failure),
        }
    }

    /// Give up on an endpoint that stops answering after `timeout`.
    #[must_use]
    pub fn timing_out_after(self, timeout: Duration) -> (client: Self)
        ensures
            client@ == (Caller { timeout: Some(timeout), ..self@ }),
    {
        Client { timeout: Some(timeout), ..self }
    }

    /// The namespace's URL, without a slash at its end.
    pub fn endpoint(&self) -> (endpoint: &str)
        ensures
            endpoint@ == self@.endpoint,
    {
        self.endpoint.as_str()
    }

    /// The shared access policy that requests are signed as.
    pub fn policy(&self) -> (policy: &str)
        ensures
            policy@ == self@.policy,
    {
        self.policy.as_str()
    }

    /// The key of that policy.
    pub fn key(&self) -> (key: &str)
        ensures
            key@ == self@.key,
    {
        self.key.as_str()
    }

    /// How long to wait for an endpoint that stops answering.
    pub fn timeout(&self) -> (timeout: Option<Duration>)
        ensures
            timeout == self@.timeout,
    {
        self.timeout
    }

    /// The resource a token for `queue` names: the queue's own URL.
    #[must_use]
    pub fn resource(&self, queue: &str) -> (resource: String)
        ensures
            resource@ == resource_spec(self@.endpoint, queue@),
    {
        self.endpoint.clone().concat("/").concat(queue)
    }

    /// The call that sends `bytes` as one message to `queue`.
    pub fn send(&self, queue: &str, bytes: &[u8]) -> (call: Call)
        ensures
            call@ == send_call(self@, queue@, bytes@),
    {
        let path = self.path(queue);
        let request = Request::new("POST", path.as_str()).header(
            "Content-Type",
            "application/octet-stream",
        ).body(bytes);
        let call = self.call(queue, request);
        assert(call@.request.headers =~= send_call(self@, queue@, bytes@).request.headers);
        call
    }

    /// The call that locks the next message on `queue` to this receiver until
    /// it is completed, waiting up to `wait` seconds for one where none is
    /// there.
    pub fn peek_lock(&self, queue: &str, wait: u8) -> (call: Call)
        ensures
            call@ == peek_lock_call(self@, queue@, wait),
    {
        let asked: u8 = if wait > MAX_WAIT {
            MAX_WAIT
        } else {
            wait
        };
        let path = self.path(queue).concat("/head");
        let request = Request::new("POST", path.as_str()).query(
            "timeout",
            number::decimal(asked as u64).as_str(),
        );
        let call = self.call(queue, request);
        assert(call@.request.headers =~= peek_lock_call(self@, queue@, wait).request.headers);
        assert(call@.request.parameters =~= peek_lock_call(
            self@,
            queue@,
            wait,
        ).request.parameters);
        call
    }

    /// The call that completes the message `id` on `queue`, held under
    /// `lock_token`: it is a Stream now, and leaves the queue.
    pub fn complete(&self, queue: &str, id: &str, lock_token: &str) -> (call: Call)
        ensures
            call@ == complete_call(self@, queue@, id@, lock_token@),
    {
        let path = self.path(queue).concat("/").concat(id).concat("/").concat(lock_token);
        let call = self.call(queue, Request::new("DELETE", path.as_str()));
        assert(call@.request.headers =~= complete_call(
            self@,
            queue@,
            id@,
            lock_token@,
        ).request.headers);
        call
    }

    /// The path of the messages of `queue`.
    fn path(&self, queue: &str) -> (path: String)
        ensures
            path@ == messages_path(queue@),
    {
        "/".to_owned().concat(queue).concat("/messages")
    }

    /// The call about `queue` that `request` is.
    fn call(&self, queue: &str, request: Request) -> (call: Call)
        ensures
            call@ == (Placed {
                request: Asked {
                    headers: request@.headers.push(("Host"@, self@.host)),
                    ..request@
                },
                resource: resource_spec(self@.endpoint, queue@),
            }),
    {
        Call {
            request: request.header("Host", self.host.as_str()),
            resource: self.resource(queue),
        }
    }
}

/// What the answer to a send or a complete says: that it is done, or why the
/// namespace refused.
pub fn done(response: Response) -> (result: Result<(), TransportError>)
    ensures
        done_outcome(result) == done_spec(response@),
{
    match judge("Service Bus", response) {
        Ok(_) => Ok(()),
        Err(failure) => Err(failure),
    }
}

/// What the answer to a peek-lock says: the message, `None` where none came,
/// or why the namespace refused or what the message lacks.
pub fn locked(response: Response) -> (result: Result<Option<Locked>, TransportError>)
    ensures
        locked_outcome(result) == locked_spec(response@),
{
    let answer = match judge("Service Bus", response) {
        Ok(answer) => answer,
        Err(failure) => return Err(failure),
    };
    if answer.status == 204 {
        return Ok(None);
    }
    let properties = match properties_in(&answer) {
        Ok(properties) => properties,
        Err(failure) => return Err(failure),
    };
    match locked_from(&properties, answer.body) {
        Ok(locked) => Ok(Some(locked)),
        Err(failure) => Err(failure),
    }
}

/// The message that `properties` and `body` hand out.
pub fn locked_from(properties: &Value, body: Vec<u8>) -> (result: Result<Locked, TransportError>)
    ensures
        error::outcome(result) == locked_from_spec(json::model(*properties), body@),
{
    let id = match property(properties, "MessageId") {
        Some(id) => id.to_owned(),
        None => return Err(
            protocol_error("a locked message with no ".to_owned().concat("MessageId")),
        ),
    };
    let lock_token = match property(properties, "LockToken") {
        Some(lock_token) => lock_token.to_owned(),
        None => return Err(
            protocol_error("a locked message with no ".to_owned().concat("LockToken")),
        ),
    };
    let sequence: u64 = match json::index(properties, "SequenceNumber").as_u64() {
        Some(sequence) => sequence,
        None => 0,
    };
    Ok(Locked { id, lock_token, sequence, body })
}

/// The message id that properties choose.
pub open spec fn chosen_id_spec(properties: Json) -> Option<Seq<char>> {
    json::as_text(json::member(properties, "MessageId"@))
}

/// The properties a send names, as the far end reads them: the message id
/// the sender chose, where it chose one.
#[must_use]
pub fn chosen_id(properties: &Value) -> (id: Option<String>)
    ensures
        text::owned(id) == chosen_id_spec(json::model(*properties)),
{
    match property(properties, "MessageId") {
        Some(id) => Some(id.to_owned()),
        None => None,
    }
}

} // verus!
