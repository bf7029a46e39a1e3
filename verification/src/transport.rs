//! A queue as a Location: what a namespace is told about one queue, and the
//! far end that holds the same policy and key.
//!
//! A queue is not an artefact anyone claims: a locked message is the queue's
//! own claim until it is completed. The origin URI is the queue URL with the
//! message id as its fragment. A send target is a queue name under this
//! transport's namespace, or empty for its own queue.

use crate::client::{self, Call, Caller, Client, Placed, MAX_WAIT};
use crate::error::{self, protocol_error, Arrived, Failure, Stream, TransportError};
use crate::number;
use crate::receiving::{self, Progress, Receiving};
use crate::session::{self, Broker, Event, Happened, Session};
use crate::text;
use crate::{ceiling, CEILING};
use std::time::Duration;
use vstd::prelude::*;
use vstd::string::*;

verus! {

/// The queue that the loopback pair agrees on.
const LOOPBACK_QUEUE: &'static str = "orders";

/// The policy that the loopback pair agrees on.
const LOOPBACK_POLICY: &'static str = "RootManageSharedAccessKey";

/// The key that the loopback pair agrees on.
const LOOPBACK_KEY: &'static str = "probe";

/// One queue of one namespace, and how to speak about it.
#[derive(Clone)]
pub struct ServiceBusTransport {
    endpoint: String,
    queue: String,
    policy: String,
    key: String,
    wait: u8,
    timeout: Option<Duration>,
}

/// The model of a [`ServiceBusTransport`].
#[verifier::ext_equal]
pub struct Settings {
    pub endpoint: Seq<char>,
    pub queue: Seq<char>,
    pub policy: Seq<char>,
    pub key: Seq<char>,
    pub wait: u8,
    pub timeout: Option<Duration>,
}

impl View for ServiceBusTransport {
    type V = Settings;

    closed spec fn view(&self) -> Settings {
        Settings {
            endpoint: self.endpoint@,
            queue: self.queue@,
            policy: self.policy@,
            key: self.key@,
            wait: self.wait,
            timeout: self.timeout,
        }
    }
}

/// The near end of a namespace that `host`, the authority found in the
/// endpoint, makes.
pub open spec fn client_spec(settings: Settings, host: Result<String, TransportError>) -> Result<
    Caller,
    Failure,
> {
    match client::new_spec(settings.endpoint, host, settings.policy, settings.key) {
        Ok(caller) => Ok(Caller { timeout: settings.timeout, ..caller }),
        Err(failure) => Err(failure),
    }
}

/// The queue that a target names, or the transport's own where it names none.
pub open spec fn resolve_spec(settings: Settings, target: Seq<char>) -> Seq<char> {
    if target.len() == 0 {
        settings.queue
    } else {
        target
    }
}

/// The failure of a body that no message holds.
pub open spec fn over_the_ceiling(length: nat) -> Failure {
    error::lasting(
        number::decimal_spec(length) + " bytes is over the "@ + number::decimal_spec(
            CEILING as nat,
        ) + " one Service Bus message carries"@,
    )
}

/// The call that sends bytes to a target: refused where no message holds them,
/// and where the endpoint is no HTTP URL.
pub open spec fn send_spec(
    settings: Settings,
    host: Result<String, TransportError>,
    target: Seq<char>,
    bytes: Seq<u8>,
) -> Result<Placed, Failure> {
    if bytes.len() > CEILING {
        Err(over_the_ceiling(bytes.len()))
    } else {
        match client_spec(settings, host) {
            Ok(caller) => Ok(client::send_call(caller, resolve_spec(settings, target), bytes)),
            Err(failure) => Err(failure),
        }
    }
}

/// The receive that starts: none where the endpoint is no HTTP URL.
pub open spec fn receive_spec(settings: Settings, host: Result<String, TransportError>) -> Result<
    Progress,
    Failure,
> {
    match client_spec(settings, host) {
        Ok(caller) => Ok(receiving::starting(caller, settings.queue, settings.wait)),
        Err(failure) => Err(failure),
    }
}

/// The far end that holds a transport's policy and key.
pub open spec fn session_spec(settings: Settings) -> Broker {
    Broker {
        policy: settings.policy,
        key: settings.key,
        queues: Map::empty(),
        next: 1,
        timeout: settings.timeout,
    }
}

/// What a far end that waits for one send makes of an event: the Stream of a
/// send, and a failure that names anything else.
pub open spec fn take_one_spec(event: Happened, shown: Seq<char>) -> Result<Stream, Failure> {
    match event {
        Happened::Sent(stream) => Ok(stream),
        Happened::Refused(code) => Err(error::lasting("the session refused: "@ + code)),
        _ => Err(error::lasting("not a send: "@ + shown)),
    }
}

impl ServiceBusTransport {
    /// Speak to the namespace at `endpoint`, `https://<ns>.servicebus.
    /// windows.net` in the cloud and `http://host:port` for a stand-in, about
    /// `queue`.
    #[must_use]
    pub fn new(endpoint: &str, queue: &str) -> (transport: Self)
        ensures
            transport@ == (Settings {
                endpoint: endpoint@,
                queue: queue@,
                policy: Seq::empty(),
                key: Seq::empty(),
                wait: 0,
                timeout: None,
            }),
    {
        ServiceBusTransport {
            endpoint: endpoint.to_owned(),
            queue: queue.to_owned(),
            policy: String::new(),
            key: String::new(),
            wait: 0,
            timeout: None,
        }
    }

    /// Sign as this shared access policy with its key.
    #[must_use]
    pub fn with_policy(self, policy: &str, key: &str) -> (transport: Self)
        ensures
            transport@ == (Settings { policy: policy@, key: key@, ..self@ }),
    {
        ServiceBusTransport { policy: policy.to_owned(), key: key.to_owned(), ..self }
    }

    /// Long-poll: wait up to `seconds`, [`MAX_WAIT`] at most, for a message
    /// where the queue is empty, rather than answering at once.
    #[must_use]
    pub fn waiting(self, seconds: u8) -> (transport: Self)
        ensures
            transport@ == (Settings { wait: client::asked_wait(seconds), ..self@ }),
    {
        let wait: u8 = if seconds > MAX_WAIT {
            MAX_WAIT
        } else {
            seconds
        };
        ServiceBusTransport { wait, ..self }
    }

    /// Give up on an endpoint that stops answering after `timeout`.
    #[must_use]
    pub fn timing_out_after(self, timeout: Duration) -> (transport: Self)
        ensures
            transport@ == (Settings { timeout: Some(timeout), ..self@ }),
    {
        ServiceBusTransport { timeout: Some(timeout), ..self }
    }

    /// The namespace's URL.
    pub fn endpoint(&self) -> (endpoint: &str)
        ensures
            endpoint@ == self@.endpoint,
    {
        self.endpoint.as_str()
    }

    /// The most seconds that one peek-lock of a receive waits.
    pub fn wait(&self) -> (wait: u8)
        ensures
            wait == self@.wait,
    {
        self.wait
    }

    /// The client this transport speaks through. `host` is the authority that
    /// was found in the endpoint, or why the endpoint is not an HTTP URL.
    pub fn client(&self, host: Result<String, TransportError>) -> (result: Result<
        Client,
        TransportError,
    >)
        ensures
            error::outcome(result) == client_spec(self@, host),
    {
        match Client::new(self.endpoint.as_str(), host, self.policy.as_str(), self.key.as_str()) {
            Ok(client) => Ok(
                match self.timeout {
                    Some(timeout) => client.timing_out_after(timeout),
                    None => client,
                },
            ),
            Err(failure) => Err(failure),
        }
    }

    /// A far end that holds this transport's policy and key, for a test or
    /// the playground to run on loopback.
    #[must_use]
    pub fn session(&self) -> (session: Session)
        ensures
            session.wf(),
            session@ == session_spec(self@),
    {
        let session = Session::new(self.policy.as_str(), self.key.as_str());
        match self.timeout {
            Some(timeout) => session.timing_out_after(timeout),
            None => session,
        }
    }

    /// The queue a target names, or this transport's own where it names none.
    pub fn resolve<'a>(&'a self, target: &'a str) -> (queue: &'a str)
        ensures
            queue@ == resolve_spec(self@, target@),
    {
        if text::chars_of(target).len() == 0 {
            self.queue.as_str()
        } else {
            target
        }
    }

    /// The name of the technology.
    pub fn name(&self) -> (name: &'static str)
        ensures
            name@ == "azure-service-bus"@,
    {
        "azure-service-bus"
    }

    /// Up to [`crate::MAX_MESSAGES`] messages, peek-locked one at a time and
    /// each completed once it is a Stream: the receive that starts. What was
    /// completed is handed back also where a later peek-lock fails.
    pub fn receive(&self, host: Result<String, TransportError>) -> (result: Result<
        Receiving,
        TransportError,
    >)
        ensures
            error::outcome(result) == receive_spec(self@, host),
    {
        match self.client(host) {
            Ok(client) => Ok(Receiving::new(client, self.queue.as_str(), self.wait)),
            Err(failure) => Err(failure),
        }
    }

    /// The call that sends `bytes` to `target`.
    pub fn send(
        &self,
        host: Result<String, TransportError>,
        target: &str,
        bytes: &[u8],
    ) -> (result: Result<Call, TransportError>)
        ensures
            error::outcome(result) == send_spec(self@, host, target@, bytes@),
    {
        if bytes.len() > ceiling() {
            let message = number::decimal(bytes.len() as u64).concat(
                " bytes is over the ",
            ).concat(number::decimal(ceiling() as u64).as_str()).concat(
                " one Service Bus message carries",
            );
            return Err(TransportError::permanent(message));
        }
        match self.client(host) {
            Ok(client) => Ok(client.send(self.resolve(target), bytes)),
            Err(failure) => Err(failure),
        }
    }

    /// Both ends on this machine: an ephemeral local port, one policy and key
    /// the far end expects and the near end signs with, `timeout` for both.
    #[must_use]
    pub fn loopback(timeout: Duration) -> (transport: Self)
        ensures
            transport@ == (Settings {
                endpoint: "http://127.0.0.1:0"@,
                queue: "orders"@,
                policy: "RootManageSharedAccessKey"@,
                key: "probe"@,
                wait: 0,
                timeout: Some(timeout),
            }),
    {
        ServiceBusTransport::new("http://127.0.0.1:0", LOOPBACK_QUEUE).with_policy(
            LOOPBACK_POLICY,
            LOOPBACK_KEY,
        ).timing_out_after(timeout)
    }

    /// A fresh near end that signs as this transport does, at the namespace
    /// on `address`.
    pub fn near(&self, address: &str) -> (transport: Self)
        ensures
            transport@ == (Settings { endpoint: "http://"@ + address@, ..self@ }),
    {
        ServiceBusTransport {
            endpoint: "http://".to_owned().concat(address),
            queue: self.queue.clone(),
            policy: self.policy.clone(),
            key: self.key.clone(),
            wait: self.wait,
            timeout: self.timeout,
        }
    }
}

/// The Stream of the one send that a far end waits for, where `event` is one;
/// `shown` is how a failure shows an event that is neither a send nor a
/// refusal.
pub fn take_one(event: Event, shown: &str) -> (result: Result<Arrived, TransportError>)
    ensures
        error::outcome(result) == take_one_spec(event@, shown@),
{
    match event {
        Event::Sent(arrived) => Ok(arrived),
        Event::Refused(code) => Err(
            protocol_error("the session refused: ".to_owned().concat(code.as_str())),
        ),
        _ => Err(protocol_error("not a send: ".to_owned().concat(shown))),
    }
}

} // verus!
