//! The far end: enough of Service Bus to answer one Location, and what a
//! test or the playground puts on loopback.
//!
//! Not Service Bus. One session holds the messages of every queue it is
//! asked about in memory, is told what came of verifying every request's token
//! against its policy, and answers the three calls with the shapes the service
//! answers them: 201 for a send, the locked message with its
//! `BrokerProperties` for a peek-lock and 204 where the queue is empty, 200 for
//! a complete, the XML error with its subcode. A peek-lock that finds nothing
//! answers at once and records the wait it was asked for rather than holding
//! the connection; a locked message stays on the queue until it is completed,
//! as the service keeps it. A sender may choose a message's id, so a complete is
//! read by its shape and not by the first thing in its path that looks like a
//! queue's messages.

use crate::client::{self, chosen_id};
use crate::error::{self, Arrived, Failure, Stream, TransportError};
use crate::json::{self, Json};
use crate::listing;
use crate::message::{self, Answer, Asked, Request, Response};
use crate::number;
use crate::properties::{self, BROKER_PROPERTIES};
use crate::rest;
use crate::text;
use serde_json::Value;
use std::time::Duration;
use vstd::prelude::*;
use vstd::slice::slice_to_vec;
use vstd::string::*;

verus! {

/// What the client did, as a session reports it.
#[derive(Clone, Debug, PartialEq, Eq)]
pub enum Event {
    /// The client sent a message; here is the Stream, its origin the queue
    /// URL and the id it was given.
    Sent(Arrived),
    /// The client peek-locked the head of `queue`, asking to wait `wait`
    /// seconds where there was none; `id` is the message it was handed.
    Locked { queue: String, id: Option<String>, wait: u8 },
    /// The client completed this message.
    Completed(String),
    /// The client was answered with this error subcode.
    Refused(String),
}

/// The model of an [`Event`].
pub enum Happened {
    Sent(Stream),
    Locked { queue: Seq<char>, id: Option<Seq<char>>, wait: u8 },
    Completed(Seq<char>),
    Refused(Seq<char>),
}

impl View for Event {
    type V = Happened;

    open spec fn view(&self) -> Happened {
        match self {
            Event::Sent(arrived) => Happened::Sent(arrived@),
            Event::Locked { queue, id, wait } => Happened::Locked {
                queue: queue@,
                id: match id {
                    Some(id) => Some(id@),
                    None => None,
                },
                wait: *wait,
            },
            Event::Completed(origin) => Happened::Completed(origin@),
            Event::Refused(code) => Happened::Refused(code@),
        }
    }
}

/// A token that was verified: the resource it was made for.
#[derive(Clone, Debug, PartialEq, Eq)]
pub struct Token {
    pub resource: String,
}

impl View for Token {
    type V = Seq<char>;

    open spec fn view(&self) -> Seq<char> {
        self.resource@
    }
}

/// One message held, on its queue.
#[derive(Clone, Debug)]
struct Held {
    id: String,
    sequence: u64,
    body: Vec<u8>,
    lock: Option<String>,
}

/// The model of a message that a session holds.
#[verifier::ext_equal]
pub struct Message {
    pub id: Seq<char>,
    pub sequence: u64,
    pub body: Seq<u8>,
    pub lock: Option<Seq<char>>,
}

impl View for Held {
    type V = Message;

    closed spec fn view(&self) -> Message {
        Message {
            id: self.id@,
            sequence: self.sequence,
            body: self.body@,
            lock: match self.lock {
                Some(lock) => Some(lock@),
                None => None,
            },
        }
    }
}

/// The messages of one queue, in the order they were sent.
#[derive(Clone, Debug)]
struct Queue {
    name: String,
    held: Vec<Held>,
}

/// The far end of one policy and its key, with the messages it holds.
pub struct Session {
    policy: String,
    key: String,
    queues: Vec<Queue>,
    next: u64,
    timeout: Option<Duration>,
}

/// The model of a [`Session`]: the policy and key it answers to, the messages
/// of every queue it was asked about in the order they were sent, the next
/// number it hands out, and how long it waits for a client.
#[verifier::ext_equal]
pub struct Broker {
    pub policy: Seq<char>,
    pub key: Seq<char>,
    pub queues: Map<Seq<char>, Seq<Message>>,
    pub next: u64,
    pub timeout: Option<Duration>,
}

/// What a session does about a request: what it is afterwards, what happened,
/// the answer, and the properties that the answer carries.
#[verifier::ext_equal]
pub struct Reply {
    pub broker: Broker,
    pub event: Happened,
    pub answer: Answer,
    pub carried: Option<Json>,
}

/// Whether a session, once it replied, is as expected, and whether what it
/// replied is: the event, the answer, and the properties that a client reads
/// in it.
pub open spec fn is_reply(
    session: Broker,
    event: Happened,
    answer: Answer,
    expected: Reply,
) -> bool {
    &&& session == expected.broker
    &&& event == expected.event
    &&& answer == expected.answer
    &&& expected.carried matches Some(carried) ==> properties::properties_among(answer.headers)
        == Ok::<Json, Failure>(carried)
}

/// Messages by their models.
spec fn messages_of(held: Seq<Held>) -> Seq<Message> {
    Seq::new(held.len(), |i: int| held[i]@)
}

/// Whether queues stand in the order of their names, each name once.
spec fn in_order(queues: Seq<Queue>) -> bool {
    forall|i: int, j: int|
        0 <= i < j < queues.len() ==> text::before(
            #[trigger] queues[i].name@,
            #[trigger] queues[j].name@,
        )
}

/// Whether the queue at `at` has a name.
spec fn is_named(queues: Seq<Queue>, name: Seq<char>, at: int) -> bool {
    0 <= at < queues.len() && queues[at].name@ == name
}

/// Queues by their names.
spec fn queues_of(queues: Seq<Queue>) -> Map<Seq<char>, Seq<Message>> {
    Map::new(
        |name: Seq<char>| exists|at: int| is_named(queues, name, at),
        |name: Seq<char>|
            messages_of(queues[choose|at: int| is_named(queues, name, at)].held@),
    )
}

impl View for Session {
    type V = Broker;

    closed spec fn view(&self) -> Broker {
        Broker {
            policy: self.policy@,
            key: self.key@,
            queues: queues_of(self.queues@),
            next: self.next,
            timeout: self.timeout,
        }
    }
}

/// The messages of a queue: none where it was never asked about.
pub open spec fn held(broker: Broker, queue: Seq<char>) -> Seq<Message> {
    if broker.queues.dom().contains(queue) {
        broker.queues[queue]
    } else {
        Seq::empty()
    }
}

/// A session whose queue holds `messages`.
pub open spec fn holding(broker: Broker, queue: Seq<char>, messages: Seq<Message>) -> Broker {
    Broker { queues: broker.queues.insert(queue, messages), ..broker }
}

/// Where messages are not locked.
pub open spec fn unlocked(messages: Seq<Message>) -> spec_fn(int) -> bool {
    |at: int| messages[at].lock is None
}

/// Where the first message stands that is not locked.
pub open spec fn first_unlocked(messages: Seq<Message>) -> Option<int> {
    text::least(messages.len(), unlocked(messages))
}

/// Where messages of an id are held under a lock.
pub open spec fn under_lock(messages: Seq<Message>, id: Seq<char>, lock: Seq<char>) -> spec_fn(
    int,
) -> bool {
    |at: int| messages[at].id == id && messages[at].lock == Some(lock)
}

/// Where the first message of an id stands that is held under a lock.
pub open spec fn first_under_lock(
    messages: Seq<Message>,
    id: Seq<char>,
    lock: Seq<char>,
) -> Option<int> {
    text::least(messages.len(), under_lock(messages, id, lock))
}

/// The id that a message gets whose sender chose none.
pub open spec fn given_id(number: u64) -> Seq<char> {
    number::hex_spec(number as nat) + "-xmip"@
}

/// The lock token with a number.
pub open spec fn lock_token(number: u64) -> Seq<char> {
    "lock-"@ + number::hex_spec(number as nat)
}

/// The URI of a message: that of its queue, and its id as the fragment.
pub open spec fn uri_of(origin: Seq<char>, id: Seq<char>) -> Seq<char> {
    origin + "#"@ + id
}

/// The queue as an origin names it: the token's scheme and authority, then
/// the queue's path.
pub open spec fn origin_spec(resource: Seq<char>, queue: Seq<char>) -> Seq<char> {
    let base = match text::split_once_spec(resource, "://"@) {
        Some((scheme, rest)) => scheme + "://"@ + match text::split_once_spec(rest, "/"@) {
            Some((authority, _)) => authority,
            None => rest,
        },
        None => resource,
    };
    base + "/"@ + queue
}

/// A request refused: nothing changes, and the answer is an error.
pub open spec fn refusal(broker: Broker, status: u16, detail: Seq<char>) -> Reply {
    Reply {
        broker,
        event: Happened::Refused(rest::subcode_spec(detail)),
        answer: rest::error_answer(status, detail),
        carried: None,
    }
}

/// An answer of a status, with nothing else.
pub open spec fn bare(status: u16) -> Answer {
    Answer { status, headers: Seq::empty(), body: Seq::empty() }
}

/// The answer to a send: the message is the last of its queue, under the id
/// its sender chose or one made of its number. A body over the ceiling, and
/// properties that are no JSON object, are refused.
pub open spec fn sending(
    broker: Broker,
    queue: Seq<char>,
    origin: Seq<char>,
    asked: Asked,
) -> Reply {
    if asked.body.len() > crate::CEILING {
        refusal(
            broker,
            413,
            "40000: A message is at most "@ + number::decimal_spec(crate::CEILING as nat)
                + " bytes"@,
        )
    } else {
        match properties::properties_among(asked.headers) {
            Err(failure) => refusal(broker, 400, "40000: "@ + failure.message),
            Ok(properties) => {
                let id = match client::chosen_id_spec(properties) {
                    Some(id) => id,
                    None => given_id(broker.next),
                };
                let message = Message {
                    id,
                    sequence: broker.next,
                    body: asked.body,
                    lock: None,
                };
                Reply {
                    broker: Broker {
                        next: (broker.next + 1) as u64,
                        ..holding(broker, queue, held(broker, queue).push(message))
                    },
                    event: Happened::Sent(
                        Stream { origin_uri: uri_of(origin, id), bytes: asked.body },
                    ),
                    answer: bare(201),
                    carried: None,
                }
            },
        }
    }
}

/// The seconds that a request asks to wait: none where it says none, or
/// something that is no number below 256.
pub open spec fn wait_asked(asked: Asked) -> u8 {
    match message::parameter_named(asked.parameters, "timeout"@) {
        Some(seconds) => match number::parse_u8_spec(seconds) {
            Some(seconds) => seconds,
            None => 0,
        },
        None => 0,
    }
}

/// The properties of a message that was just locked.
pub open spec fn locked_properties(id: Seq<char>, lock: Seq<char>, sequence: u64) -> Json {
    Json::Object(
        Map::empty().insert("MessageId"@, Json::Text(id)).insert(
            "LockToken"@,
            Json::Text(lock),
        ).insert("SequenceNumber"@, Json::Count(sequence)).insert(
            "DeliveryCount"@,
            Json::Count(1),
        ),
    )
}

/// The properties of a message that is taken without a lock.
pub open spec fn taken_properties(id: Seq<char>, sequence: u64) -> Json {
    Json::Object(
        Map::empty().insert("MessageId"@, Json::Text(id)).insert(
            "SequenceNumber"@,
            Json::Count(sequence),
        ),
    )
}

/// A message with a lock.
pub open spec fn with_lock(message: Message, lock: Seq<char>) -> Message {
    Message { lock: Some(lock), ..message }
}

/// The answer that hands out a message under a lock.
pub open spec fn handed_out(message: Message, origin: Seq<char>, lock: Seq<char>) -> Answer {
    Answer {
        status: 201,
        headers: seq![
            (
                BROKER_PROPERTIES@,
                json::written(locked_properties(message.id, lock, message.sequence)),
            ),
            ("Content-Type"@, "application/octet-stream"@),
            ("Location"@, origin + "/messages/"@ + message.id + "/"@ + lock),
        ],
        body: message.body,
    }
}

/// The answer to a peek-lock: the first message that is not locked is, and is
/// handed out; where there is none, nothing is.
pub open spec fn peeking(
    broker: Broker,
    queue: Seq<char>,
    origin: Seq<char>,
    asked: Asked,
) -> Reply {
    let messages = held(broker, queue);
    let wait = wait_asked(asked);
    match first_unlocked(messages) {
        Some(at) => {
            let lock = lock_token(broker.next);
            Reply {
                broker: Broker {
                    next: (broker.next + 1) as u64,
                    ..holding(broker, queue, messages.update(at, with_lock(messages[at], lock)))
                },
                event: Happened::Locked { queue, id: Some(messages[at].id), wait },
                answer: handed_out(messages[at], origin, lock),
                carried: Some(locked_properties(messages[at].id, lock, messages[at].sequence)),
            }
        },
        None => Reply {
            broker: holding(broker, queue, messages),
            event: Happened::Locked { queue, id: None, wait },
            answer: bare(204),
            carried: None,
        },
    }
}

/// The answer to a receive-and-delete: the first message that is not locked
/// is handed out and leaves the queue; where there is none, nothing is.
pub open spec fn taking(broker: Broker, queue: Seq<char>, origin: Seq<char>) -> Reply {
    let messages = held(broker, queue);
    match first_unlocked(messages) {
        Some(at) => Reply {
            broker: holding(broker, queue, messages.remove(at)),
            event: Happened::Completed(uri_of(origin, messages[at].id)),
            answer: Answer {
                status: 200,
                headers: seq![
                    (
                        BROKER_PROPERTIES@,
                        json::written(taken_properties(messages[at].id, messages[at].sequence)),
                    ),
                ],
                body: messages[at].body,
            },
            carried: Some(taken_properties(messages[at].id, messages[at].sequence)),
        },
        None => Reply {
            broker: holding(broker, queue, messages),
            event: Happened::Locked { queue, id: None, wait: 0 },
            answer: bare(204),
            carried: None,
        },
    }
}

/// The id and the lock token that the rest of a path names: the lock token
/// follows the last slash.
pub open spec fn id_and_lock(rest: Seq<char>) -> Option<(Seq<char>, Seq<char>)> {
    match text::strip_prefix_spec(rest, "/"@) {
        Some(named) => text::rsplit_once_spec(named, "/"@),
        None => None,
    }
}

/// The answer to a complete: the message of that id leaves the queue where it
/// is held under that lock, and otherwise the call is refused.
pub open spec fn completing(
    broker: Broker,
    queue: Seq<char>,
    origin: Seq<char>,
    rest: Seq<char>,
) -> Reply {
    let messages = held(broker, queue);
    let at = match id_and_lock(rest) {
        Some((id, lock)) => first_under_lock(messages, id, lock),
        None => None,
    };
    match at {
        Some(at) => Reply {
            broker: holding(broker, queue, messages.remove(at)),
            event: Happened::Completed(uri_of(origin, messages[at].id)),
            answer: bare(200),
            carried: None,
        },
        None => refusal(
            holding(broker, queue, messages),
            404,
            "40400: No such message under that lock"@,
        ),
    }
}

/// A path without the slash that it starts with.
pub open spec fn unrooted(path: Seq<char>) -> Seq<char> {
    match text::strip_prefix_spec(path, "/"@) {
        Some(rest) => rest,
        None => path,
    }
}

/// The queue that a path names, and what follows its messages.
pub open spec fn routed(path: Seq<char>) -> Option<(Seq<char>, Seq<char>)> {
    text::rsplit_once_spec(unrooted(path), "/messages"@)
}

/// The queue, the id and the lock token that a path has in the shape of a
/// complete: the lock token follows the last slash, and the id what stands
/// last before that as `/messages/`.
pub open spec fn shaped_as_complete(path: Seq<char>) -> Option<(
    Seq<char>,
    Seq<char>,
    Seq<char>,
)> {
    match text::rsplit_once_spec(unrooted(path), "/"@) {
        Some((before, lock)) => match text::rsplit_once_spec(before, "/messages/"@) {
            Some((queue, id)) => Some((queue, id, lock)),
            None => None,
        },
        None => None,
    }
}

/// The queue that a request names, and what follows its messages. An id may
/// hold what a path names messages by, so a DELETE other than of the head is
/// read by the shape of a complete where it has that shape.
pub open spec fn called(asked: Asked) -> Option<(Seq<char>, Seq<char>)> {
    match routed(asked.path) {
        Some((queue, rest)) => if asked.method == "DELETE"@ && rest != "/head"@ {
            match shaped_as_complete(asked.path) {
                Some((queue, id, lock)) => Some((queue, "/"@ + id + "/"@ + lock)),
                None => Some((queue, rest)),
            }
        } else {
            Some((queue, rest))
        },
        None => None,
    }
}

/// What a session does about a request with what came of verifying its token.
pub open spec fn answering(
    broker: Broker,
    asked: Asked,
    verified: Result<Seq<char>, Failure>,
) -> Reply {
    match verified {
        Err(failure) => refusal(broker, 401, failure.message),
        Ok(resource) => match called(asked) {
            None => refusal(broker, 404, "40400: Not a queue's messages"@),
            Some((queue, rest)) => {
                let origin = origin_spec(resource, queue);
                if asked.method == "POST"@ && rest == ""@ {
                    sending(broker, queue, origin, asked)
                } else if asked.method == "POST"@ && rest == "/head"@ {
                    peeking(broker, queue, origin, asked)
                } else if asked.method == "DELETE"@ && rest == "/head"@ {
                    taking(broker, queue, origin)
                } else if asked.method == "DELETE"@ {
                    completing(broker, queue, origin, rest)
                } else {
                    refusal(broker, 405, "40500: Not one of the three calls"@)
                }
            },
        },
    }
}

/// The two methods differ, and what a complete names is not the head.
pub proof fn lemma_calls_differ(id: Seq<char>, lock: Seq<char>)
    ensures
        "POST"@ != "DELETE"@,
        "/"@ + id + "/"@ + lock != "/head"@,
{
    reveal_strlit("POST");
    reveal_strlit("DELETE");
    reveal_strlit("/");
    reveal_strlit("/head");
    assert("POST"@.len() != "DELETE"@.len());
    let rest = "/"@ + id + "/"@ + lock;
    let at = id.len() as int + 1;
    assert(rest[at] == '/');
    assert(rest.len() == id.len() + 2 + lock.len());
    assert("/head"@.len() == 5);
    if rest == "/head"@ {
        assert("/head"@[at] == '/');
        assert(1 <= at < 5);
        assert("/head"@[1] == 'h' && "/head"@[2] == 'e' && "/head"@[3] == 'a' && "/head"@[4]
            == 'd');
    }
}

/// Whether a request may take a number: it is a send that is not over the
/// ceiling, or a peek-lock where a message is not locked, and its token was
/// verified.
pub open spec fn may_take_a_number(
    broker: Broker,
    asked: Asked,
    verified: Result<Seq<char>, Failure>,
) -> bool {
    &&& verified is Ok
    &&& asked.method == "POST"@
    &&& routed(asked.path) matches Some((queue, rest)) && ((rest == ""@ && asked.body.len()
        <= crate::CEILING) || (rest == "/head"@ && first_unlocked(held(broker, queue)) is Some))
}

/// Whether a key is that of the message at `at` on a queue: the queue's name,
/// and the message's id.
pub open spec fn is_keyed(broker: Broker, queue: Seq<char>, at: int, key: Seq<char>) -> bool {
    &&& broker.queues.dom().contains(queue)
    &&& 0 <= at < broker.queues[queue].len()
    &&& key == uri_of(queue, broker.queues[queue][at].id)
}

/// Whether the message at `at` on a queue is the last with its key, in the
/// order of the queues' names and then of the messages on a queue.
pub open spec fn is_last_keyed(broker: Broker, queue: Seq<char>, at: int, key: Seq<char>) -> bool {
    &&& is_keyed(broker, queue, at, key)
    &&& forall|other: Seq<char>, i: int| #[trigger]
        is_keyed(broker, other, i, key) ==> text::before(other, queue) || (other == queue && i
            <= at)
}

/// Whether an entry is that of a message a session holds, the last of its
/// key.
pub open spec fn is_listed(broker: Broker, entry: (Seq<char>, Seq<u8>)) -> bool {
    exists|queue: Seq<char>, at: int| #[trigger]
        is_last_keyed(broker, queue, at, entry.0) && broker.queues[queue][at].body == entry.1
}

/// Whether entries list what a session holds: every key once and in order,
/// with the body of the last message of that key.
pub open spec fn lists(broker: Broker, entries: Seq<(Seq<char>, Seq<u8>)>) -> bool {
    &&& listing::ascending(entries)
    &&& forall|i: int| 0 <= i < entries.len() ==> is_listed(broker, #[trigger] entries[i])
    &&& forall|queue: Seq<char>, at: int, key: Seq<char>| #[trigger]
        is_keyed(broker, queue, at, key) ==> listing::has_key(entries, key)
}

/// Queues as pairs of a name and messages.
spec fn named(queues: Seq<Queue>) -> Seq<(Seq<char>, Seq<Message>)> {
    Seq::new(queues.len(), |i: int| (queues[i].name@, messages_of(queues[i].held@)))
}

/// A message with a key stands on the queue of its name.
proof fn lemma_keyed_stands(session: Session, queue: Seq<char>, at: int, key: Seq<char>) -> (a: int)
    requires
        session.is_ordered(),
        is_keyed(session@, queue, at, key),
    ensures
        0 <= a < session.queues@.len(),
        session.queues@[a].name@ == queue,
        listing::is_done(named(session.queues@), a, at, session.queues@.len() as int, 0),
        listing::key_at(named(session.queues@), a, at) == key,
{
    let a = choose|a: int| is_named(session.queues@, queue, a);
    lemma_queue_by_name(session.queues@, a);
    a
}

/// All queues listed are what a session holds.
proof fn lemma_gathered_all(session: Session, entries: Seq<(Seq<char>, Seq<u8>)>)
    requires
        session.is_ordered(),
        listing::gathered(named(session.queues@), entries, session.queues@.len() as int, 0),
    ensures
        lists(session@, entries),
{
    let queues = session.queues@;
    let pairs = named(queues);
    let end = queues.len() as int;
    let broker = session@;
    assert forall|queue: Seq<char>, at: int, key: Seq<char>| #[trigger]
        is_keyed(broker, queue, at, key) implies listing::has_key(entries, key) by {
        let a = lemma_keyed_stands(session, queue, at, key);
        assert(listing::is_done(pairs, a, at, end, 0));
    }
    assert forall|i: int| 0 <= i < entries.len() implies is_listed(
        broker,
        #[trigger] entries[i],
    ) by {
        let entry = entries[i];
        assert(listing::has_source(pairs, entry, end, 0));
        let (a, m) = choose|a: int, m: int| listing::is_source(pairs, entry, a, m, end, 0);
        let queue = queues[a].name@;
        lemma_queue_by_name(queues, a);
        assert(is_keyed(broker, queue, m, entry.0));
        assert forall|other: Seq<char>, n: int| #[trigger]
            is_keyed(broker, other, n, entry.0) implies text::before(other, queue) || (other
            == queue && n <= m) by {
            let b = lemma_keyed_stands(session, other, n, entry.0);
            assert(listing::is_done(pairs, b, n, end, 0));
        }
        assert(is_last_keyed(broker, queue, m, entry.0));
    }
}

/// Whether a session holds a message at `at` on a queue.
pub open spec fn stands(broker: Broker, queue: Seq<char>, at: int) -> bool {
    broker.queues.dom().contains(queue) && 0 <= at < broker.queues[queue].len()
}

/// Whether a lock token was handed out before a number was.
pub open spec fn was_handed_out(lock: Seq<char>, next: u64) -> bool {
    exists|number: u64| number < next && lock == #[trigger] lock_token(number)
}

/// Whether what a session holds is sound: the messages of a queue stand in
/// the order they were sent, no two messages have one sequence number, every
/// lock token was handed out, and no two messages are held under one lock.
pub open spec fn is_sound(broker: Broker) -> bool {
    &&& forall|queue: Seq<char>, at: int| #[trigger]
        stands(broker, queue, at) ==> broker.queues[queue][at].sequence < broker.next
    &&& forall|queue: Seq<char>, i: int, j: int|
        #[trigger] stands(broker, queue, i) && #[trigger] stands(broker, queue, j) && i < j
            ==> broker.queues[queue][i].sequence < broker.queues[queue][j].sequence
    &&& forall|queue: Seq<char>, at: int| #[trigger]
        stands(broker, queue, at) ==> (broker.queues[queue][at].lock matches Some(lock)
            ==> was_handed_out(lock, broker.next))
    &&& forall|queue: Seq<char>, i: int, other: Seq<char>, j: int|
        #[trigger] stands(broker, queue, i) && #[trigger] stands(broker, other, j) && (queue
            != other || i != j) ==> broker.queues[queue][i].sequence
            != broker.queues[other][j].sequence && (broker.queues[queue][i].lock is None
            || broker.queues[queue][i].lock != broker.queues[other][j].lock)
}

/// Two lock tokens are the same only where their numbers are.
pub proof fn lock_tokens_differ(left: u64, right: u64)
    requires
        left != right,
    ensures
        lock_token(left) != lock_token(right),
{
    let tail = "lock-"@.len() as int;
    assert(lock_token(left).skip(tail) =~= number::hex_spec(left as nat));
    assert(lock_token(right).skip(tail) =~= number::hex_spec(right as nat));
    if lock_token(left) == lock_token(right) {
        number::lemma_hex_is_injective(left as nat, right as nat);
    }
}

/// One more message keeps a session sound.
proof fn lemma_sound_with_one_more(broker: Broker, queue: Seq<char>, message: Message)
    requires
        is_sound(broker),
        broker.next < u64::MAX,
        message.sequence == broker.next,
        message.lock is None,
    ensures
        is_sound(
            Broker {
                next: (broker.next + 1) as u64,
                ..holding(broker, queue, held(broker, queue).push(message))
            },
        ),
{
    let after = Broker {
        next: (broker.next + 1) as u64,
        ..holding(broker, queue, held(broker, queue).push(message))
    };
    let last = held(broker, queue).len() as int;
    assert forall|other: Seq<char>, at: int| #[trigger] stands(after, other, at) implies (if other
        == queue && at == last {
        after.queues[other][at] == message
    } else {
        stands(broker, other, at) && after.queues[other][at] == broker.queues[other][at]
    }) by {}
    lemma_handed_out_stays(broker, after);
}

/// What was handed out stays so.
proof fn lemma_handed_out_stays(broker: Broker, after: Broker)
    requires
        broker.next <= after.next,
    ensures
        forall|lock: Seq<char>| #[trigger]
            was_handed_out(lock, broker.next) ==> was_handed_out(lock, after.next),
{
    assert forall|lock: Seq<char>| #[trigger]
        was_handed_out(lock, broker.next) implies was_handed_out(lock, after.next) by {
        let number = choose|number: u64|
            number < broker.next && lock == #[trigger] lock_token(number);
        assert(lock == lock_token(number));
    }
}

/// A message locked under the next token keeps a session sound.
proof fn lemma_sound_with_a_lock(broker: Broker, queue: Seq<char>, at: int)
    requires
        is_sound(broker),
        broker.next < u64::MAX,
        stands(broker, queue, at),
    ensures
        is_sound(
            Broker {
                next: (broker.next + 1) as u64,
                ..holding(
                    broker,
                    queue,
                    broker.queues[queue].update(
                        at,
                        with_lock(broker.queues[queue][at], lock_token(broker.next)),
                    ),
                )
            },
        ),
{
    let lock = lock_token(broker.next);
    let after = Broker {
        next: (broker.next + 1) as u64,
        ..holding(
            broker,
            queue,
            broker.queues[queue].update(at, with_lock(broker.queues[queue][at], lock)),
        )
    };
    assert forall|other: Seq<char>, i: int| #[trigger] stands(after, other, i) implies stands(
        broker,
        other,
        i,
    ) && after.queues[other][i].sequence == broker.queues[other][i].sequence && (if other == queue
        && i == at {
        after.queues[other][i].lock == Some(lock)
    } else {
        after.queues[other][i] == broker.queues[other][i]
    }) && (stands(broker, other, i) ==> broker.queues[other][i].lock != Some(lock)) by {
        assert(stands(broker, other, i));
        if broker.queues[other][i].lock == Some(lock) {
            assert(was_handed_out(lock, broker.next));
            let number = choose|number: u64|
                number < broker.next && lock == #[trigger] lock_token(number);
            lock_tokens_differ(number, broker.next);
        }
    }
    lemma_handed_out_stays(broker, after);
    assert(was_handed_out(lock, after.next)) by {
        assert(lock == lock_token(broker.next));
    }
}

/// One message less keeps a session sound.
proof fn lemma_sound_with_one_less(broker: Broker, queue: Seq<char>, at: int)
    requires
        is_sound(broker),
        stands(broker, queue, at),
    ensures
        is_sound(holding(broker, queue, broker.queues[queue].remove(at))),
{
    let after = holding(broker, queue, broker.queues[queue].remove(at));
    assert forall|other: Seq<char>, i: int| #[trigger] stands(after, other, i) implies ({
        let from = if other == queue && i >= at {
            i + 1
        } else {
            i
        };
        stands(broker, other, from) && after.queues[other][i] == broker.queues[other][from]
    }) by {}
}

/// A queue asked about keeps a session sound.
pub proof fn lemma_sound_when_asked(broker: Broker, queue: Seq<char>)
    requires
        is_sound(broker),
    ensures
        is_sound(holding(broker, queue, held(broker, queue))),
{
    let after = holding(broker, queue, held(broker, queue));
    assert forall|other: Seq<char>, i: int| #[trigger] stands(after, other, i) implies stands(
        broker,
        other,
        i,
    ) && after.queues[other][i] == broker.queues[other][i] by {}
}

/// The first message that is not locked stands on its queue.
pub proof fn lemma_first_unlocked_stands(messages: Seq<Message>)
    ensures
        first_unlocked(messages) matches Some(at) ==> 0 <= at < messages.len()
            && messages[at].lock is None,
{
    let holds = unlocked(messages);
    text::lemma_least_holds(messages.len(), holds);
    if let Some(at) = first_unlocked(messages) {
        assert(holds(at));
    }
}

/// The first message of an id under a lock stands on its queue.
pub proof fn lemma_first_under_lock_stands(messages: Seq<Message>, id: Seq<char>, lock: Seq<char>)
    ensures
        first_under_lock(messages, id, lock) matches Some(at) ==> 0 <= at < messages.len()
            && messages[at].id == id && messages[at].lock == Some(lock),
{
    let holds = under_lock(messages, id, lock);
    text::lemma_least_holds(messages.len(), holds);
    if let Some(at) = first_under_lock(messages, id, lock) {
        assert(holds(at));
    }
}

/// A session that began empty is sound.
pub proof fn an_empty_session_is_sound(broker: Broker)
    requires
        broker.queues == Map::<Seq<char>, Seq<Message>>::empty(),
    ensures
        is_sound(broker),
{
}

/// Whatever a sound session is asked, it stays sound: messages stay in the
/// order they were sent, and no lock token is handed out twice.
pub proof fn answering_keeps_a_session_sound(
    broker: Broker,
    asked: Asked,
    verified: Result<Seq<char>, Failure>,
)
    requires
        is_sound(broker),
        may_take_a_number(broker, asked, verified) ==> broker.next < u64::MAX,
    ensures
        is_sound(answering(broker, asked, verified).broker),
{
    lemma_calls_differ(Seq::empty(), Seq::empty());
    if let Ok(resource) = verified {
        if let Some((queue, rest)) = called(asked) {
            let messages = held(broker, queue);
            lemma_sound_when_asked(broker, queue);
            lemma_first_unlocked_stands(messages);
            if let Some(at) = first_unlocked(messages) {
                assert(stands(broker, queue, at));
                if broker.next < u64::MAX {
                    lemma_sound_with_a_lock(broker, queue, at);
                }
                lemma_sound_with_one_less(broker, queue, at);
            }
            if let Some((id, lock)) = id_and_lock(rest) {
                lemma_first_under_lock_stands(messages, id, lock);
                if let Some(at) = first_under_lock(messages, id, lock) {
                    assert(stands(broker, queue, at));
                    lemma_sound_with_one_less(broker, queue, at);
                }
            }
            if let Ok(properties) = properties::properties_among(asked.headers) {
                let id = match client::chosen_id_spec(properties) {
                    Some(id) => id,
                    None => given_id(broker.next),
                };
                let message = Message {
                    id,
                    sequence: broker.next,
                    body: asked.body,
                    lock: None,
                };
                if broker.next < u64::MAX {
                    lemma_sound_with_one_more(broker, queue, message);
                }
            }
        }
    }
}

/// No two queues in order share a name.
proof fn lemma_names_are_distinct(queues: Seq<Queue>, i: int, j: int)
    requires
        in_order(queues),
        0 <= i < queues.len(),
        0 <= j < queues.len(),
        queues[i].name@ == queues[j].name@,
    ensures
        i == j,
{
    text::lemma_before_is_total(queues[i].name@, queues[j].name@);
    if i < j {
        assert(text::before(queues[i].name@, queues[j].name@));
    } else if j < i {
        assert(text::before(queues[j].name@, queues[i].name@));
    }
}

/// A queue by its name is that queue.
proof fn lemma_queue_by_name(queues: Seq<Queue>, at: int)
    requires
        in_order(queues),
        0 <= at < queues.len(),
    ensures
        queues_of(queues).dom().contains(queues[at].name@),
        queues_of(queues)[queues[at].name@] == messages_of(queues[at].held@),
{
    let name = queues[at].name@;
    assert(is_named(queues, name, at));
    let chosen = choose|i: int| is_named(queues, name, i);
    lemma_names_are_distinct(queues, at, chosen);
}

/// A queue that holds other messages is the one whose name stands for them.
proof fn lemma_queue_replaced(before: Seq<Queue>, after: Seq<Queue>, at: int)
    requires
        in_order(before),
        0 <= at < before.len(),
        after.len() == before.len(),
        after[at].name@ == before[at].name@,
        forall|i: int| 0 <= i < before.len() && i != at ==> #[trigger] after[i] == before[i],
    ensures
        in_order(after),
        queues_of(after) == queues_of(before).insert(
            before[at].name@,
            messages_of(after[at].held@),
        ),
{
    assert forall|i: int, j: int| 0 <= i < j < after.len() implies text::before(
        #[trigger] after[i].name@,
        #[trigger] after[j].name@,
    ) by {
        assert(after[i].name@ == before[i].name@);
        assert(after[j].name@ == before[j].name@);
    }
    let expected = queues_of(before).insert(before[at].name@, messages_of(after[at].held@));
    assert forall|name: Seq<char>|
        (#[trigger] queues_of(after).dom().contains(name)) == expected.dom().contains(name) && (
        queues_of(after).dom().contains(name) ==> queues_of(after)[name] == expected[name]) by {
        if queues_of(after).dom().contains(name) {
            let i = choose|i: int| is_named(after, name, i);
            assert(after[i].name@ == before[i].name@);
            assert(is_named(before, name, i));
            lemma_queue_by_name(after, i);
            lemma_queue_by_name(before, i);
        }
        if queues_of(before).dom().contains(name) {
            let i = choose|i: int| is_named(before, name, i);
            assert(after[i].name@ == before[i].name@);
            assert(is_named(after, name, i));
        }
        if name == before[at].name@ {
            assert(is_named(after, name, at));
            lemma_queue_by_name(after, at);
        }
    }
    assert(queues_of(after).dom() =~= expected.dom());
    assert(queues_of(after) =~= expected);
}

/// A queue put in its place by name is one more name, and the others stand
/// for what they stood for.
proof fn lemma_queue_inserted(before: Seq<Queue>, queue: Queue, at: int)
    requires
        in_order(before),
        0 <= at <= before.len(),
        forall|i: int| 0 <= i < at ==> text::before(#[trigger] before[i].name@, queue.name@),
        forall|i: int|
            at <= i < before.len() ==> text::before(queue.name@, #[trigger] before[i].name@),
    ensures
        in_order(before.insert(at, queue)),
        !queues_of(before).dom().contains(queue.name@),
        queues_of(before.insert(at, queue)) == queues_of(before).insert(
            queue.name@,
            messages_of(queue.held@),
        ),
{
    let after = before.insert(at, queue);
    assert forall|i: int, j: int| 0 <= i < j < after.len() implies text::before(
        #[trigger] after[i].name@,
        #[trigger] after[j].name@,
    ) by {
        if i < at && j < at {
            assert(after[i] == before[i] && after[j] == before[j]);
        } else if i < at && j > at {
            assert(after[i] == before[i] && after[j] == before[j - 1]);
        } else if i > at {
            assert(after[i] == before[i - 1] && after[j] == before[j - 1]);
        } else if i == at {
            assert(after[j] == before[j - 1]);
        } else {
            assert(after[i] == before[i]);
        }
    }
    assert forall|i: int| 0 <= i < before.len() implies #[trigger] before[i].name@
        != queue.name@ by {
        text::lemma_before_is_total(before[i].name@, queue.name@);
        text::lemma_before_is_total(queue.name@, before[i].name@);
    }
    let expected = queues_of(before).insert(queue.name@, messages_of(queue.held@));
    assert forall|name: Seq<char>|
        (#[trigger] queues_of(after).dom().contains(name)) == expected.dom().contains(name) && (
        queues_of(after).dom().contains(name) ==> queues_of(after)[name] == expected[name]) by {
        if queues_of(after).dom().contains(name) {
            let i = choose|i: int| is_named(after, name, i);
            lemma_queue_by_name(after, i);
            if i < at {
                assert(after[i] == before[i]);
                assert(is_named(before, name, i));
                lemma_queue_by_name(before, i);
            } else if i > at {
                assert(after[i] == before[i - 1]);
                assert(is_named(before, name, i - 1));
                lemma_queue_by_name(before, i - 1);
            }
        }
        if queues_of(before).dom().contains(name) {
            let i = choose|i: int| is_named(before, name, i);
            if i < at {
                assert(after[i] == before[i]);
                assert(is_named(after, name, i));
            } else {
                assert(after[i + 1] == before[i]);
                assert(is_named(after, name, i + 1));
            }
        }
        if name == queue.name@ {
            assert(is_named(after, name, at));
            lemma_queue_by_name(after, at);
        }
    }
    assert(queues_of(after).dom() =~= expected.dom());
    assert(queues_of(after) =~= expected);
}

/// Where the first of `held` stands that is not locked.
fn unlocked_in(held: &Vec<Held>) -> (at: Option<usize>)
    ensures
        match at {
            Some(at) => first_unlocked(messages_of(held@)) == Some(at as int) && at < held.len(),
            None => first_unlocked(messages_of(held@)) is None,
        },
{
    let ghost messages = messages_of(held@);
    let ghost holds = unlocked(messages);
    for at in 0..held.len()
        invariant
            messages == messages_of(held@),
            holds == unlocked(messages),
            forall|j: int| 0 <= j < at ==> !(#[trigger] holds(j)),
    {
        if held[at].lock.is_none() {
            proof {
                text::lemma_least_is(messages.len(), holds, at as int);
            }
            return Some(at);
        }
    }
    proof {
        text::lemma_least_is_none(messages.len(), holds);
    }
    None
}

/// Where the first of `held` stands that has `id` and is held under `lock`.
fn locked_in(held: &Vec<Held>, id: &str, lock: &str) -> (at: Option<usize>)
    ensures
        match at {
            Some(at) => first_under_lock(messages_of(held@), id@, lock@) == Some(at as int) && at
                < held.len(),
            None => first_under_lock(messages_of(held@), id@, lock@) is None,
        },
{
    let ghost messages = messages_of(held@);
    let ghost holds = under_lock(messages, id@, lock@);
    for at in 0..held.len()
        invariant
            messages == messages_of(held@),
            holds == under_lock(messages, id@, lock@),
            forall|j: int| 0 <= j < at ==> !(#[trigger] holds(j)),
    {
        let matches = match &held[at].lock {
            Some(token) => text::same(held[at].id.as_str(), id) && text::same(
                token.as_str(),
                lock,
            ),
            None => false,
        };
        if matches {
            proof {
                text::lemma_least_is(messages.len(), holds, at as int);
            }
            return Some(at);
        }
    }
    proof {
        text::lemma_least_is_none(messages.len(), holds);
    }
    None
}

impl Session {
    /// Whether the queues stand as the session keeps them.
    closed spec fn is_ordered(&self) -> bool {
        in_order(self.queues@)
    }

    /// Whether the session is one that began empty and answered requests: its
    /// queues stand as it keeps them, and what it holds is sound.
    pub closed spec fn wf(&self) -> bool {
        self.is_ordered() && is_sound(self@)
    }

    /// What a session holds is sound.
    pub proof fn holds_what_is_sound(self)
        requires
            self.wf(),
        ensures
            is_sound(self@),
    {
    }

    /// Answer requests whose token `policy` made with `key`.
    #[must_use]
    pub fn new(policy: &str, key: &str) -> (session: Self)
        ensures
            session.wf(),
            session@ == (Broker {
                policy: policy@,
                key: key@,
                queues: Map::empty(),
                next: 1,
                timeout: None,
            }),
    {
        let session = Session {
            policy: policy.to_owned(),
            key: key.to_owned(),
            queues: Vec::new(),
            next: 1,
            timeout: None,
        };
        assert(session@.queues =~= Map::empty());
        session
    }

    /// Give up on a client that stops mid-request after `timeout`.
    #[must_use]
    pub fn timing_out_after(self, timeout: Duration) -> (session: Self)
        ensures
            session@ == (Broker { timeout: Some(timeout), ..self@ }),
            self.wf() ==> session.wf(),
    {
        let session = Session { timeout: Some(timeout), ..self };
        assert(forall|queue: Seq<char>, at: int| #[trigger]
            stands(session@, queue, at) ==> stands(self@, queue, at));
        session
    }

    /// The shared access policy that tokens are made with.
    pub fn policy(&self) -> (policy: &str)
        ensures
            policy@ == self@.policy,
    {
        self.policy.as_str()
    }

    /// The key of that policy.
    pub fn key(&self) -> (key: &str)
        ensures
            key@ == self@.key,
    {
        self.key.as_str()
    }

    /// How long the session waits for a client that stops mid-request.
    pub fn timeout(&self) -> (timeout: Option<Duration>)
        ensures
            timeout == self@.timeout,
    {
        self.timeout
    }

    /// Whether there is a number left for `request`, where it may take one.
    pub fn can_answer(&self, request: &Request, verified: &Result<Token, TransportError>) -> (yes:
        bool)
        requires
            self.wf(),
        ensures
            yes == (may_take_a_number(self@, request@, error::outcome(*verified)) ==> self@.next
                < u64::MAX),
    {
        if self.next < u64::MAX || verified.is_err() || !text::same(
            request.method.as_str(),
            "POST",
        ) {
            return true;
        }
        match text::rsplit_once(relative(request.path.as_str()), "/messages") {
            Some((queue, rest)) => {
                let sends = text::same(rest, "") && request.body.len() <= crate::ceiling();
                let locks = text::same(rest, "/head") && self.has_unlocked(queue);
                !sends && !locks
            },
            None => true,
        }
    }

    /// Whether a message on `queue` is not locked.
    fn has_unlocked(&self, queue: &str) -> (yes: bool)
        requires
            self.is_ordered(),
        ensures
            yes == (first_unlocked(held(self@, queue@)) is Some),
    {
        for at in 0..self.queues.len()
            invariant
                self.is_ordered(),
                forall|i: int| 0 <= i < at ==> (#[trigger] self.queues@[i]).name@ != queue@,
        {
            if text::same(self.queues[at].name.as_str(), queue) {
                proof {
                    lemma_queue_by_name(self.queues@, at as int);
                }
                return unlocked_in(&self.queues[at].held).is_some();
            }
        }
        proof {
            assert(!self@.queues.dom().contains(queue@)) by {
                if self@.queues.dom().contains(queue@) {
                    let at = choose|at: int| is_named(self.queues@, queue@, at);
                    assert(is_named(self.queues@, queue@, at));
                }
            }
            text::lemma_least_is_none(0, unlocked(held(self@, queue@)));
        }
        false
    }

    /// Every message held now, keyed `queue#id`, locked or not: each key once,
    /// in order, with the last message of that key.
    #[must_use]
    pub fn messages(&self) -> (entries: Vec<(String, Vec<u8>)>)
        requires
            self.wf(),
        ensures
            lists(self@, listing::listed(entries@)),
    {
        let mut entries: Vec<(String, Vec<u8>)> = Vec::new();
        for queue in 0..self.queues.len()
            invariant
                listing::gathered(named(self.queues@), listing::listed(entries@), queue as int, 0),
        {
            let name = &self.queues[queue].name;
            let held = &self.queues[queue].held;
            for message in 0..held.len()
                invariant
                    queue < self.queues.len(),
                    *name == self.queues@[queue as int].name,
                    *held == self.queues@[queue as int].held,
                    listing::gathered(
                        named(self.queues@),
                        listing::listed(entries@),
                        queue as int,
                        message as int,
                    ),
            {
                let key = name.clone().concat("#").concat(held[message].id.as_str());
                let body = slice_to_vec(held[message].body.as_slice());
                let ghost before = listing::listed(entries@);
                listing::put(&mut entries, key, body);
                proof {
                    listing::lemma_gathered_one_more(
                        named(self.queues@),
                        before,
                        listing::listed(entries@),
                        queue as int,
                        message as int,
                    );
                }
            }
            proof {
                listing::lemma_gathered_queue(
                    named(self.queues@),
                    listing::listed(entries@),
                    queue as int,
                );
            }
        }
        proof {
            lemma_gathered_all(*self, listing::listed(entries@));
        }
        entries
    }

    /// Where the queue `queue` stands, once there is one.
    fn slot(&mut self, queue: &str) -> (at: usize)
        requires
            old(self).is_ordered(),
        ensures
            final(self).is_ordered(),
            at < final(self).queues.len(),
            final(self).queues[at as int].name@ == queue@,
            messages_of(final(self).queues[at as int].held@) == held(old(self)@, queue@),
            final(self)@ == holding(old(self)@, queue@, held(old(self)@, queue@)),
    {
        let mut at: usize = 0;
        while at < self.queues.len() && text::comes_before(self.queues[at].name.as_str(), queue)
            invariant
                at <= self.queues.len(),
                self.is_ordered(),
                *self == *old(self),
                forall|i: int|
                    0 <= i < at ==> text::before(#[trigger] self.queues[i].name@, queue@),
            decreases self.queues.len() - at,
        {
            at += 1;
        }
        if at < self.queues.len() && text::same(self.queues[at].name.as_str(), queue) {
            proof {
                lemma_queue_by_name(self.queues@, at as int);
                assert(self@.queues =~= old(self)@.queues.insert(
                    queue@,
                    held(old(self)@, queue@),
                ));
            }
            return at;
        }
        let added = Queue { name: queue.to_owned(), held: Vec::new() };
        proof {
            assert forall|i: int| at <= i < self.queues.len() implies text::before(
                queue@,
                #[trigger] self.queues@[i].name@,
            ) by {
                text::lemma_before_is_total(queue@, self.queues@[at as int].name@);
                if at < i {
                    text::lemma_before_is_transitive(
                        queue@,
                        self.queues@[at as int].name@,
                        self.queues@[i].name@,
                    );
                }
            }
            lemma_queue_inserted(self.queues@, added, at as int);
            assert(messages_of(added.held@) =~= Seq::empty());
        }
        self.queues.insert(at, added);
        at
    }

    /// Hold a message that was sent to `queue`, and say so.
    fn send(&mut self, queue: &str, origin: &str, request: &Request) -> (reply: (
        Event,
        Response,
    ))
        requires
            old(self).is_ordered(),
            request@.body.len() <= crate::CEILING ==> old(self)@.next < u64::MAX,
        ensures
            final(self).is_ordered(),
            is_reply(
                final(self)@,
                reply.0@,
                reply.1@,
                sending(old(self)@, queue@, origin@, request@),
            ),
    {
        if request.body.len() > crate::ceiling() {
            let mut detail = "40000: A message is at most ".to_owned();
            detail.append(number::decimal(crate::ceiling() as u64).as_str());
            detail.append(" bytes");
            return refused(413, detail.as_str());
        }
        let properties = match properties::properties_of(request) {
            Ok(properties) => properties,
            Err(failure) => {
                let mut detail = "40000: ".to_owned();
                detail.append(failure.message.as_str());
                return refused(400, detail.as_str());
            },
        };
        let sequence: u64 = self.next;
        self.next = self.next + 1;
        let id = match chosen_id(&properties) {
            Some(id) => id,
            None => number::hex(sequence).concat("-xmip"),
        };
        let body = slice_to_vec(request.body.as_slice());
        let message = Held { id: id.clone(), sequence, body, lock: None };
        let at: usize = self.slot(queue);
        let ghost before = self.queues@;
        self.queues[at].held.push(message);
        proof {
            lemma_queue_replaced(before, self.queues@, at as int);
            assert(messages_of(self.queues@[at as int].held@) =~= held(old(self)@, queue@).push(
                message@,
            ));
            assert(self@.queues =~= old(self)@.queues.insert(
                queue@,
                held(old(self)@, queue@).push(message@),
            ));
        }
        let uri = origin.to_owned().concat("#").concat(id.as_str());
        let bytes = slice_to_vec(request.body.as_slice());
        (Event::Sent(Arrived::new(uri, bytes)), Response::new(201))
    }

    /// Lock the first message on `queue` that is not locked, and hand it out.
    fn peek_lock(&mut self, queue: &str, origin: &str, request: &Request) -> (reply: (
        Event,
        Response,
    ))
        requires
            old(self).is_ordered(),
            first_unlocked(held(old(self)@, queue@)) is Some ==> old(self)@.next < u64::MAX,
        ensures
            final(self).is_ordered(),
            is_reply(
                final(self)@,
                reply.0@,
                reply.1@,
                peeking(old(self)@, queue@, origin@, request@),
            ),
    {
        let wait: u8 = match request.query_value("timeout") {
            Some(seconds) => match number::parse_u8(seconds) {
                Some(seconds) => seconds,
                None => 0,
            },
            None => 0,
        };
        let at: usize = self.slot(queue);
        let first: usize = match unlocked_in(&self.queues[at].held) {
            Some(first) => first,
            None => return (locked(queue, None, wait), Response::new(204)),
        };
        let lock = "lock-".to_owned().concat(number::hex(self.next).as_str());
        self.next = self.next + 1;
        let ghost before = self.queues@;
        let ghost messages = held(old(self)@, queue@);
        self.queues[at].held[first].lock = Some(lock.clone());
        proof {
            lemma_queue_replaced(before, self.queues@, at as int);
            assert(messages_of(self.queues@[at as int].held@) =~= messages.update(
                first as int,
                with_lock(messages[first as int], lock@),
            ));
            assert(self@.queues =~= old(self)@.queues.insert(
                queue@,
                messages.update(first as int, with_lock(messages[first as int], lock@)),
            ));
        }
        let message = &self.queues[at].held[first];
        let properties = json::to_text(
            &properties_locked(message.id.as_str(), lock.as_str(), message.sequence),
        );
        let location = origin.to_owned().concat("/messages/").concat(message.id.as_str()).concat(
            "/",
        ).concat(lock.as_str());
        let response = Response::new(201).header(BROKER_PROPERTIES, properties.as_str()).header(
            "Content-Type",
            "application/octet-stream",
        ).header("Location", location.as_str()).body(message.body.as_slice());
        assert(response@.headers =~= handed_out(messages[first as int], origin@, lock@).headers);
        (locked(queue, Some(message.id.clone()), wait), response)
    }

    /// Hand out the first message on `queue` that is not locked, and forget it.
    fn receive_and_delete(&mut self, queue: &str, origin: &str) -> (reply: (Event, Response))
        requires
            old(self).is_ordered(),
        ensures
            final(self).is_ordered(),
            is_reply(final(self)@, reply.0@, reply.1@, taking(old(self)@, queue@, origin@)),
    {
        let at: usize = self.slot(queue);
        let first: usize = match unlocked_in(&self.queues[at].held) {
            Some(first) => first,
            None => return (locked(queue, None, 0), Response::new(204)),
        };
        let ghost before = self.queues@;
        let ghost messages = held(old(self)@, queue@);
        let message = self.queues[at].held.remove(first);
        proof {
            lemma_queue_replaced(before, self.queues@, at as int);
            assert(messages_of(self.queues@[at as int].held@) =~= messages.remove(first as int));
            assert(self@.queues =~= old(self)@.queues.insert(
                queue@,
                messages.remove(first as int),
            ));
        }
        let properties = json::to_text(
            &properties_taken(message.id.as_str(), message.sequence),
        );
        let response = Response::new(200).header(BROKER_PROPERTIES, properties.as_str()).body(
            message.body.as_slice(),
        );
        let uri = origin.to_owned().concat("#").concat(message.id.as_str());
        assert(response@.headers =~= taking(old(self)@, queue@, origin@).answer.headers);
        (Event::Completed(uri), response)
    }

    /// Forget the message on `queue` that `named` says, id and lock token.
    fn complete(&mut self, queue: &str, origin: &str, named: &str) -> (reply: (Event, Response))
        requires
            old(self).is_ordered(),
        ensures
            final(self).is_ordered(),
            is_reply(
                final(self)@,
                reply.0@,
                reply.1@,
                completing(old(self)@, queue@, origin@, named@),
            ),
    {
        let at: usize = self.slot(queue);
        let found: Option<usize> = match text::strip_prefix(named, "/") {
            Some(rest) => match text::rsplit_once(rest, "/") {
                Some((id, lock)) => locked_in(&self.queues[at].held, id, lock),
                None => None,
            },
            None => None,
        };
        match found {
            Some(found) => {
                let ghost before = self.queues@;
                let ghost messages = held(old(self)@, queue@);
                let message = self.queues[at].held.remove(found);
                proof {
                    lemma_queue_replaced(before, self.queues@, at as int);
                    assert(messages_of(self.queues@[at as int].held@) =~= messages.remove(
                        found as int,
                    ));
                    assert(self@.queues =~= old(self)@.queues.insert(
                        queue@,
                        messages.remove(found as int),
                    ));
                }
                let uri = origin.to_owned().concat("#").concat(message.id.as_str());
                (Event::Completed(uri), Response::new(200))
            },
            None => refused(404, "40400: No such message under that lock"),
        }
    }

    /// Answer one request, given what came of verifying its token, and say
    /// what it was.
    pub fn answer(&mut self, request: &Request, verified: Result<Token, TransportError>) -> (reply:
        (Event, Response))
        requires
            old(self).wf(),
            may_take_a_number(old(self)@, request@, error::outcome(verified)) ==> old(self)@.next
                < u64::MAX,
        ensures
            final(self).wf(),
            final(self)@ == answering(old(self)@, request@, error::outcome(verified)).broker,
            reply.0@ == answering(old(self)@, request@, error::outcome(verified)).event,
            reply.1@ == answering(old(self)@, request@, error::outcome(verified)).answer,
            is_reply(
                final(self)@,
                reply.0@,
                reply.1@,
                answering(old(self)@, request@, error::outcome(verified)),
            ),
    {
        let ghost outcome = error::outcome(verified);
        let reply = self.respond(request, verified);
        proof {
            answering_keeps_a_session_sound(old(self)@, request@, outcome);
        }
        reply
    }

    /// Answer one request by the call that it makes.
    fn respond(&mut self, request: &Request, verified: Result<Token, TransportError>) -> (reply: (
        Event,
        Response,
    ))
        requires
            old(self).is_ordered(),
            may_take_a_number(old(self)@, request@, error::outcome(verified)) ==> old(self)@.next
                < u64::MAX,
        ensures
            final(self).is_ordered(),
            is_reply(
                final(self)@,
                reply.0@,
                reply.1@,
                answering(old(self)@, request@, error::outcome(verified)),
            ),
    {
        let token = match verified {
            Ok(token) => token,
            Err(failure) => return refused(401, failure.message.as_str()),
        };
        let (queue, rest) = match text::rsplit_once(relative(request.path.as_str()), "/messages") {
            Some(parts) => parts,
            None => return refused(404, "40400: Not a queue's messages"),
        };
        let origin = origin(&token, queue);
        let method = request.method.as_str();
        proof {
            lemma_calls_differ(Seq::empty(), Seq::empty());
        }
        if text::same(method, "POST") && text::same(rest, "") {
            self.send(queue, origin.as_str(), request)
        } else if text::same(method, "POST") && text::same(rest, "/head") {
            self.peek_lock(queue, origin.as_str(), request)
        } else if text::same(method, "DELETE") && text::same(rest, "/head") {
            self.receive_and_delete(queue, origin.as_str())
        } else if text::same(method, "DELETE") {
            match complete_in(request.path.as_str()) {
                Some((queue, id, lock)) => {
                    let origin = self::origin(&token, queue);
                    let named = "/".to_owned().concat(id).concat("/").concat(lock);
                    proof {
                        lemma_calls_differ(id@, lock@);
                    }
                    self.complete(queue, origin.as_str(), named.as_str())
                },
                None => self.complete(queue, origin.as_str(), rest),
            }
        } else {
            refused(405, "40500: Not one of the three calls")
        }
    }
}

/// `path` without the slash that it starts with.
fn relative(path: &str) -> (rest: &str)
    ensures
        rest@ == unrooted(path@),
{
    match text::strip_prefix(path, "/") {
        Some(rest) => rest,
        None => path,
    }
}

/// The queue, the id and the lock token that `path` has in the shape of a
/// complete.
fn complete_in<'a>(path: &'a str) -> (named: Option<(&'a str, &'a str, &'a str)>)
    ensures
        match named {
            Some((queue, id, lock)) => shaped_as_complete(path@) == Some((queue@, id@, lock@)),
            None => shaped_as_complete(path@) is None,
        },
{
    match text::rsplit_once(relative(path), "/") {
        Some((before, lock)) => match text::rsplit_once(before, "/messages/") {
            Some((queue, id)) => Some((queue, id, lock)),
            None => None,
        },
        None => None,
    }
}

/// The properties of a message that was just locked.
fn properties_locked(id: &str, lock: &str, sequence: u64) -> (properties: Value)
    ensures
        json::model(properties) == locked_properties(id@, lock@, sequence),
        json::is_flat(json::model(properties)),
{
    let mut properties = json::empty_object();
    json::put(&mut properties, "MessageId", json::from_text(id));
    json::put(&mut properties, "LockToken", json::from_text(lock));
    json::put(&mut properties, "SequenceNumber", json::from_count(sequence));
    json::put(&mut properties, "DeliveryCount", json::from_count(1));
    properties
}

/// The properties of a message that is taken without a lock.
fn properties_taken(id: &str, sequence: u64) -> (properties: Value)
    ensures
        json::model(properties) == taken_properties(id@, sequence),
        json::is_flat(json::model(properties)),
{
    let mut properties = json::empty_object();
    json::put(&mut properties, "MessageId", json::from_text(id));
    json::put(&mut properties, "SequenceNumber", json::from_count(sequence));
    properties
}

/// The queue `queue` as an origin names it: the token's scheme and authority,
/// then the queue's path.
pub fn origin(token: &Token, queue: &str) -> (origin: String)
    ensures
        origin@ == origin_spec(token@, queue@),
{
    let resource = token.resource.as_str();
    let base = match text::split_once(resource, "://") {
        Some((scheme, rest)) => {
            let authority = match text::split_once(rest, "/") {
                Some((authority, _)) => authority,
                None => rest,
            };
            scheme.to_owned().concat("://").concat(authority)
        },
        None => resource.to_owned(),
    };
    base.concat("/").concat(queue)
}

/// The event of a peek-lock on `queue`.
fn locked(queue: &str, id: Option<String>, wait: u8) -> (event: Event)
    ensures
        event@ == (Happened::Locked { queue: queue@, id: text::owned(id), wait }),
{
    Event::Locked { queue: queue.to_owned(), id, wait }
}

/// The reply that refuses a request.
fn refused(status: u16, detail: &str) -> (reply: (Event, Response))
    ensures
        reply.0@ == Happened::Refused(rest::subcode_spec(detail@)),
        reply.1@ == rest::error_answer(status, detail@),
{
    (Event::Refused(rest::subcode(detail)), rest::error(status, detail))
}

} // verus!
