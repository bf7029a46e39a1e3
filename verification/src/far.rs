//! What the far end does: what a session holds, hands out and answers for every
//! request, by what the request says and what the session holds.

use crate::client;
use crate::error::{Failure, Stream};
use crate::json::{self, Json};
use crate::laws;
use crate::listing;
use crate::message::{self, Answer, Asked};
use crate::number;
use crate::properties;
use crate::rest;
use crate::session::{self, Broker, Happened, Message, Reply};
use crate::text;
use crate::wording;
use crate::{near, CEILING};
use vstd::prelude::*;

verus! {

/// What a session holds on a queue, nothing where it was never asked about it.
pub open spec fn on(broker: Broker, queue: Seq<char>) -> Seq<Message> {
    if broker.queues.dom().contains(queue) {
        broker.queues[queue]
    } else {
        Seq::empty()
    }
}

/// Whether a path is that of a queue's messages and a tail, with a slash before
/// it or, where the queue does not start with one, without.
pub open spec fn is_path(path: Seq<char>, queue: Seq<char>, tail: Seq<char>) -> bool {
    ||| path == "/"@ + queue + "/messages"@ + tail
    ||| queue.len() > 0 && queue[0] != '/' && path == queue + "/messages"@ + tail
}

/// A path of a queue's messages is routed to that queue.
proof fn lemma_path_is_routed(path: Seq<char>, queue: Seq<char>, tail: Seq<char>)
    requires
        is_path(path, queue, tail),
        forall|k: int| !text::occurs_at(tail, "/messages"@, k),
    ensures
        session::routed(path) == Some((queue, tail)),
{
    laws::lemma_routed(queue, tail);
    let whole = client::messages_path(queue) + tail;
    let relative = queue + "/messages"@ + tail;
    assert(whole =~= "/"@ + relative);
    laws::lemma_unrooted(relative);
    if path != "/"@ + queue + "/messages"@ + tail {
        reveal_strlit("/");
        assert(relative[0] == queue[0]);
        text::lemma_no_occurrence(relative, "/"@, 0, 0);
        assert(session::unrooted(relative) == relative);
    } else {
        assert(path =~= whole);
    }
}

/// Neither tail that a call ends with names messages.
proof fn lemma_tails()
    ensures
        forall|k: int| !text::occurs_at(""@, "/messages"@, k),
        forall|k: int| !text::occurs_at("/head"@, "/messages"@, k),
        ""@ != "/head"@,
        "POST"@ != "DELETE"@,
{
    reveal_strlit("");
    reveal_strlit("/head");
    reveal_strlit("/messages");
    session::lemma_calls_differ(Seq::empty(), Seq::empty());
    assert(""@.len() != "/head"@.len());
}

/// Whether a reply refuses a request: nothing that is held changes, no number is
/// taken, and the answer is the error of that status and detail, reported by its
/// code.
pub open spec fn refuses(
    reply: Reply,
    broker: Broker,
    status: u16,
    detail: Seq<char>,
    code: Seq<char>,
) -> bool {
    &&& forall|queue: Seq<char>| #[trigger] on(reply.broker, queue) == on(broker, queue)
    &&& reply.broker.next == broker.next
    &&& reply.broker.policy == broker.policy
    &&& reply.broker.key == broker.key
    &&& reply.broker.timeout == broker.timeout
    &&& reply.event == Happened::Refused(code)
    &&& reply.answer == rest::error_answer(status, detail)
}

/// Whether a session is another whose one queue holds other messages, and whose
/// next number is some more.
pub open spec fn differs_in(
    after: Broker,
    broker: Broker,
    queue: Seq<char>,
    messages: Seq<Message>,
    numbers: int,
) -> bool {
    &&& on(after, queue) == messages
    &&& forall|other: Seq<char>| other != queue ==> #[trigger] on(after, other) == on(broker, other)
    &&& after.next == (broker.next + numbers) as u64
    &&& after.policy == broker.policy
    &&& after.key == broker.key
    &&& after.timeout == broker.timeout
}

/// A send is held: where a verified POST to a queue's messages has a body of
/// 262144 bytes or fewer, and its properties are an object, the message is the
/// last of the queue, with the body as it was sent, no lock, and the session's
/// next number. Its id is the text of the property `MessageId`, whatever its
/// length, or the number in hexadecimal and `-xmip` where that is no text. It is
/// answered 201 and nothing else, and reported under the queue's origin and that
/// id.
pub proof fn a_send_is_held(
    broker: Broker,
    asked: Asked,
    resource: Seq<char>,
    queue: Seq<char>,
)
    requires
        asked.method == "POST"@,
        is_path(asked.path, queue, ""@),
        asked.body.len() <= 262144,
    ensures
        properties::properties_among(asked.headers) matches Ok(found) ==> ({
            let reply = session::answering(broker, asked, Ok(resource));
            let id = match json::member(found, "MessageId"@) {
                Json::Text(chosen) => chosen,
                _ => number::hex_spec(broker.next as nat) + "-xmip"@,
            };
            let message = Message { id, sequence: broker.next, body: asked.body, lock: None };
            &&& differs_in(reply.broker, broker, queue, on(broker, queue).push(message), 1)
            &&& reply.event == Happened::Sent(
                Stream {
                    origin_uri: session::origin_spec(resource, queue) + "#"@ + id,
                    bytes: asked.body,
                },
            )
            &&& reply.answer == (Answer {
                status: 201,
                headers: Seq::empty(),
                body: Seq::empty(),
            })
        }),
{
    lemma_tails();
    lemma_path_is_routed(asked.path, queue, ""@);
}

/// A send is refused for its size with status 413, and for properties that are
/// no object with status 400 and the reason.
pub proof fn a_send_is_refused_for_its_size_or_its_properties(
    broker: Broker,
    asked: Asked,
    resource: Seq<char>,
    queue: Seq<char>,
)
    requires
        asked.method == "POST"@,
        is_path(asked.path, queue, ""@),
    ensures
        asked.body.len() > 262144 ==> refuses(
            session::answering(broker, asked, Ok(resource)),
            broker,
            413,
            "40000: A message is at most 262144 bytes"@,
            "40000"@,
        ),
        asked.body.len() <= 262144 ==> (properties::properties_among(asked.headers) matches Err(
            failure,
        ) ==> refuses(
            session::answering(broker, asked, Ok(resource)),
            broker,
            400,
            "40000: "@ + failure.message,
            "40000"@,
        )),
{
    lemma_tails();
    lemma_path_is_routed(asked.path, queue, ""@);
    reveal_strlit("40000: A message is at most ");
    reveal_strlit(" bytes");
    reveal_strlit("40000: A message is at most 262144 bytes");
    near::lemma_ceiling_in_decimal();
    let size = "40000: A message is at most 262144 bytes"@;
    assert("40000: A message is at most "@ + number::decimal_spec(CEILING as nat) + " bytes"@
        =~= size);
    lemma_code_of_size();
    if let Err(failure) = properties::properties_among(asked.headers) {
        lemma_code_of_properties(failure.message);
    }
}

/// The code of a body that is too large.
proof fn lemma_code_of_size()
    ensures
        rest::subcode_spec("40000: A message is at most 262144 bytes"@) == "40000"@,
{
    reveal_strlit("40000");
    reveal_strlit(":");
    reveal_strlit(" A message is at most 262144 bytes");
    reveal_strlit("40000: A message is at most 262144 bytes");
    assert("40000: A message is at most 262144 bytes"@ =~= "40000"@ + ":"@
        + " A message is at most 262144 bytes"@);
    rest::a_detail_opens_with_its_subcode("40000"@, " A message is at most 262144 bytes"@);
}

/// The code of properties that are refused.
proof fn lemma_code_of_properties(message: Seq<char>)
    ensures
        rest::subcode_spec("40000: "@ + message) == "40000"@,
{
    reveal_strlit("40000");
    reveal_strlit(":");
    reveal_strlit(" ");
    reveal_strlit("40000: ");
    assert("40000: "@ + message =~= "40000"@ + ":"@ + (" "@ + message));
    rest::a_detail_opens_with_its_subcode("40000"@, " "@ + message);
}

/// The seconds that a request asks to wait: what its first `timeout` reads as,
/// and none where it has none that reads as a number below 256.
pub open spec fn seconds_in(asked: Asked) -> u8 {
    match message::parameter_named(asked.parameters, "timeout"@) {
        Some(said) => match number::parse_u8_spec(said) {
            Some(seconds) => seconds,
            None => 0,
        },
        None => 0,
    }
}

/// Whether properties are an object of these four members and no other.
pub open spec fn are_of_locked(
    properties: Json,
    id: Seq<char>,
    lock: Seq<char>,
    sequence: u64,
) -> bool {
    &&& properties is Object
    &&& properties->Object_0.dom() == set![
        "MessageId"@,
        "LockToken"@,
        "SequenceNumber"@,
        "DeliveryCount"@,
    ]
    &&& json::member(properties, "MessageId"@) == Json::Text(id)
    &&& json::member(properties, "LockToken"@) == Json::Text(lock)
    &&& json::member(properties, "SequenceNumber"@) == Json::Count(sequence)
    &&& json::member(properties, "DeliveryCount"@) == Json::Count(1)
}

/// Whether properties are an object of these two members and no other.
pub open spec fn are_of_taken(properties: Json, id: Seq<char>, sequence: u64) -> bool {
    &&& properties is Object
    &&& properties->Object_0.dom() == set!["MessageId"@, "SequenceNumber"@]
    &&& json::member(properties, "MessageId"@) == Json::Text(id)
    &&& json::member(properties, "SequenceNumber"@) == Json::Count(sequence)
}

/// The names of properties differ.
proof fn lemma_names_differ()
    ensures
        "MessageId"@ != "LockToken"@,
        "MessageId"@ != "SequenceNumber"@,
        "MessageId"@ != "DeliveryCount"@,
        "LockToken"@ != "SequenceNumber"@,
        "LockToken"@ != "DeliveryCount"@,
        "SequenceNumber"@ != "DeliveryCount"@,
{
    reveal_strlit("MessageId");
    reveal_strlit("LockToken");
    reveal_strlit("SequenceNumber");
    reveal_strlit("DeliveryCount");
    assert("MessageId"@[0] == 'M' && "LockToken"@[0] == 'L' && "SequenceNumber"@[0] == 'S'
        && "DeliveryCount"@[0] == 'D');
}

/// Properties as they are written hold these members.
proof fn lemma_properties_hold(id: Seq<char>, lock: Seq<char>, sequence: u64)
    ensures
        are_of_locked(session::locked_properties(id, lock, sequence), id, lock, sequence),
        are_of_taken(session::taken_properties(id, sequence), id, sequence),
{
    lemma_names_differ();
    let locked = session::locked_properties(id, lock, sequence);
    let taken = session::taken_properties(id, sequence);
    assert(locked->Object_0.dom() =~= set![
        "MessageId"@,
        "LockToken"@,
        "SequenceNumber"@,
        "DeliveryCount"@,
    ]);
    assert(taken->Object_0.dom() =~= set!["MessageId"@, "SequenceNumber"@]);
}

/// Whether a reply hands out the message at `at` under a new lock: that message
/// alone is locked, under `lock-` and the session's next number, and the answer
/// carries its properties, where it can be completed, and its body.
pub open spec fn locks(
    reply: Reply,
    broker: Broker,
    asked: Asked,
    queue: Seq<char>,
    origin: Seq<char>,
    at: int,
) -> bool {
    let message = on(broker, queue)[at];
    let lock = "lock-"@ + number::hex_spec(broker.next as nat);
    &&& differs_in(
        reply.broker,
        broker,
        queue,
        on(broker, queue).update(at, Message { lock: Some(lock), ..message }),
        1,
    )
    &&& reply.event == (Happened::Locked {
        queue,
        id: Some(message.id),
        wait: seconds_in(asked),
    })
    &&& reply.carried matches Some(carried) && are_of_locked(
        carried,
        message.id,
        lock,
        message.sequence,
    ) && reply.answer == (Answer {
        status: 201,
        headers: seq![
            ("BrokerProperties"@, json::written(carried)),
            ("Content-Type"@, "application/octet-stream"@),
            ("Location"@, origin + "/messages/"@ + message.id + "/"@ + lock),
        ],
        body: message.body,
    })
}

/// Whether a reply says that there is nothing to hand out, and changes nothing.
pub open spec fn finds_nothing(
    reply: Reply,
    broker: Broker,
    queue: Seq<char>,
    wait: u8,
) -> bool {
    &&& differs_in(reply.broker, broker, queue, on(broker, queue), 0)
    &&& reply.event == (Happened::Locked { queue, id: None, wait })
    &&& reply.answer == (Answer { status: 204, headers: Seq::empty(), body: Seq::empty() })
}

/// Whether some message is not locked.
pub open spec fn has_unlocked(messages: Seq<Message>) -> bool {
    exists|i: int| 0 <= i < messages.len() && (#[trigger] messages[i]).lock is None
}

/// In a sound session the first message that is not locked is the oldest of
/// those, and there is one exactly where some message is not locked.
proof fn lemma_oldest(broker: Broker, queue: Seq<char>)
    requires
        session::is_sound(broker),
    ensures
        session::held(broker, queue) == on(broker, queue),
        match session::first_unlocked(on(broker, queue)) {
            Some(at) => laws::is_oldest_unlocked(on(broker, queue), at) && has_unlocked(
                on(broker, queue),
            ),
            None => !has_unlocked(on(broker, queue)),
        },
{
    let none = Asked {
        method: Seq::empty(),
        path: Seq::empty(),
        parameters: Seq::empty(),
        headers: Seq::empty(),
        body: Seq::empty(),
    };
    laws::a_peek_lock_locks_the_oldest_alone(broker, queue, Seq::empty(), none);
}

/// A verified POST to the head of a queue's messages locks the oldest message
/// there that is not locked, and hands that out; where every message is locked,
/// and only there, it is answered 204.
pub proof fn a_peek_lock_hands_out_the_oldest(
    broker: Broker,
    asked: Asked,
    resource: Seq<char>,
    queue: Seq<char>,
)
    requires
        session::is_sound(broker),
        asked.method == "POST"@,
        is_path(asked.path, queue, "/head"@),
    ensures
        ({
            let reply = session::answering(broker, asked, Ok(resource));
            let origin = session::origin_spec(resource, queue);
            if has_unlocked(on(broker, queue)) {
                exists|at: int|
                    laws::is_oldest_unlocked(on(broker, queue), at) && #[trigger] locks(
                        reply,
                        broker,
                        asked,
                        queue,
                        origin,
                        at,
                    )
            } else {
                finds_nothing(reply, broker, queue, seconds_in(asked))
            }
        }),
{
    lemma_tails();
    lemma_path_is_routed(asked.path, queue, "/head"@);
    lemma_oldest(broker, queue);
    let messages = on(broker, queue);
    let reply = session::answering(broker, asked, Ok(resource));
    let origin = session::origin_spec(resource, queue);
    if let Some(at) = session::first_unlocked(messages) {
        let lock = "lock-"@ + number::hex_spec(broker.next as nat);
        lemma_properties_hold(messages[at].id, lock, messages[at].sequence);
        assert(locks(reply, broker, asked, queue, origin, at));
    }
}

/// Whether a reply hands out the message at `at` and forgets it: the queue is
/// what it was without that message, and the answer carries its properties and
/// its body.
pub open spec fn takes(
    reply: Reply,
    broker: Broker,
    queue: Seq<char>,
    origin: Seq<char>,
    at: int,
) -> bool {
    let message = on(broker, queue)[at];
    &&& differs_in(reply.broker, broker, queue, on(broker, queue).remove(at), 0)
    &&& reply.event == Happened::Completed(origin + "#"@ + message.id)
    &&& reply.carried matches Some(carried) && are_of_taken(carried, message.id, message.sequence)
        && reply.answer == (Answer {
        status: 200,
        headers: seq![("BrokerProperties"@, json::written(carried))],
        body: message.body,
    })
}

/// A verified DELETE of the head of a queue's messages hands out the oldest
/// message there that is not locked, with its id, its sequence number and its
/// body, and that one leaves the queue; where every message is locked, and only
/// there, it is answered 204.
pub proof fn a_receive_and_delete_hands_out_the_oldest(
    broker: Broker,
    asked: Asked,
    resource: Seq<char>,
    queue: Seq<char>,
)
    requires
        session::is_sound(broker),
        asked.method == "DELETE"@,
        is_path(asked.path, queue, "/head"@),
    ensures
        ({
            let reply = session::answering(broker, asked, Ok(resource));
            let origin = session::origin_spec(resource, queue);
            if has_unlocked(on(broker, queue)) {
                exists|at: int|
                    laws::is_oldest_unlocked(on(broker, queue), at) && #[trigger] takes(
                        reply,
                        broker,
                        queue,
                        origin,
                        at,
                    )
            } else {
                finds_nothing(reply, broker, queue, 0)
            }
        }),
{
    lemma_tails();
    lemma_path_is_routed(asked.path, queue, "/head"@);
    lemma_oldest(broker, queue);
    let messages = on(broker, queue);
    let reply = session::answering(broker, asked, Ok(resource));
    let origin = session::origin_spec(resource, queue);
    if let Some(at) = session::first_unlocked(messages) {
        lemma_properties_hold(messages[at].id, Seq::empty(), messages[at].sequence);
        assert(takes(reply, broker, queue, origin, at));
    }
}

/// A lock completes its message, whatever was answered since it was handed out:
/// in every sound session, where the message at `at` of a queue has an id and is
/// held under a lock, the verified DELETE that names both is answered 200 and
/// nothing else, reports that message by its URI, and the queue is what it was
/// without that message. An id is left out that holds `/messages/`, or starts as
/// that does: its path names another queue's message.
pub proof fn a_held_lock_completes_its_message(
    broker: Broker,
    asked: Asked,
    resource: Seq<char>,
    queue: Seq<char>,
    at: int,
)
    requires
        session::is_sound(broker),
        0 <= at < on(broker, queue).len(),
        on(broker, queue)[at].lock is Some,
        forall|k: int|
            !text::occurs_at("/"@ + on(broker, queue)[at].id, "/messages/"@, k),
        asked.method == "DELETE"@,
        is_path(
            asked.path,
            queue,
            "/"@ + on(broker, queue)[at].id + "/"@ + on(broker, queue)[at].lock->0,
        ),
    ensures
        ({
            let reply = session::answering(broker, asked, Ok(resource));
            let origin = session::origin_spec(resource, queue);
            &&& differs_in(reply.broker, broker, queue, on(broker, queue).remove(at), 0)
            &&& reply.event == Happened::Completed(origin + "#"@ + on(broker, queue)[at].id)
            &&& reply.answer == (Answer {
                status: 200,
                headers: Seq::empty(),
                body: Seq::empty(),
            })
        }),
{
    let messages = on(broker, queue);
    let id = messages[at].id;
    let lock = messages[at].lock->0;
    assert(session::stands(broker, queue, at));
    assert(session::was_handed_out(lock, broker.next));
    let number = choose|number: u64|
        number < broker.next && lock == #[trigger] session::lock_token(number);
    laws::a_lock_token_names_no_path(id, number);
    lemma_complete_is_called(asked, queue, id, lock);
    let holds = session::under_lock(messages, id, lock);
    assert(holds(at));
    assert forall|j: int| 0 <= j < at implies !(#[trigger] holds(j)) by {
        assert(session::stands(broker, queue, j));
    }
    text::lemma_least_is(messages.len(), holds, at);
}

/// A DELETE of an id and a lock token under a queue's messages is read as those.
proof fn lemma_complete_is_called(
    asked: Asked,
    queue: Seq<char>,
    id: Seq<char>,
    lock: Seq<char>,
)
    requires
        laws::is_deliverable(id),
        forall|i: int| 0 <= i < lock.len() ==> #[trigger] lock[i] != '/',
        !laws::reads_as_head(id, lock),
        asked.method == "DELETE"@,
        is_path(asked.path, queue, "/"@ + id + "/"@ + lock),
    ensures
        session::called(asked) == Some((queue, "/"@ + id + "/"@ + lock)),
        session::id_and_lock("/"@ + id + "/"@ + lock) == Some((id, lock)),
        "/"@ + id + "/"@ + lock != "/head"@,
        "POST"@ != "DELETE"@,
{
    let tail = "/"@ + id + "/"@ + lock;
    let rooted = client::messages_path(queue) + "/"@ + id + "/"@ + lock;
    lemma_path_is_unrooted(asked.path, queue, tail);
    lemma_path_is_unrooted(rooted, queue, tail);
    laws::lemma_shaped_as_complete(queue, id, lock);
    laws::lemma_not_the_head(queue, id, lock);
    session::lemma_calls_differ(id, lock);
}

/// A path of a queue's messages, without the slash that it starts with.
proof fn lemma_path_is_unrooted(path: Seq<char>, queue: Seq<char>, tail: Seq<char>)
    requires
        is_path(path, queue, tail) || path =~= "/"@ + queue + "/messages"@ + tail,
    ensures
        session::unrooted(path) == queue + "/messages"@ + tail,
{
    let relative = queue + "/messages"@ + tail;
    laws::lemma_unrooted(relative);
    if path =~= "/"@ + queue + "/messages"@ + tail {
        assert(path =~= "/"@ + relative);
    } else {
        reveal_strlit("/");
        assert(relative[0] == queue[0]);
        text::lemma_no_occurrence(relative, "/"@, 0, 0);
    }
}

/// A complete of what is not held is refused: where no message on the queue has
/// the id and is held under the lock token that a verified DELETE names, it is
/// answered 404 and nothing changes.
pub proof fn a_complete_of_what_is_not_held_is_refused(
    broker: Broker,
    asked: Asked,
    resource: Seq<char>,
    queue: Seq<char>,
    id: Seq<char>,
    lock: Seq<char>,
)
    requires
        laws::is_deliverable(id),
        forall|i: int| 0 <= i < lock.len() ==> #[trigger] lock[i] != '/',
        !laws::reads_as_head(id, lock),
        asked.method == "DELETE"@,
        is_path(asked.path, queue, "/"@ + id + "/"@ + lock),
        forall|i: int|
            0 <= i < on(broker, queue).len() ==> (#[trigger] on(broker, queue)[i]).id != id || on(
                broker,
                queue,
            )[i].lock != Some(lock),
    ensures
        refuses(
            session::answering(broker, asked, Ok(resource)),
            broker,
            404,
            "40400: No such message under that lock"@,
            "40400"@,
        ),
{
    lemma_complete_is_called(asked, queue, id, lock);
    let messages = on(broker, queue);
    let holds = session::under_lock(messages, id, lock);
    assert forall|j: int| 0 <= j < messages.len() implies !(#[trigger] holds(j)) by {
        assert(messages[j].id != id || messages[j].lock != Some(lock));
    }
    text::lemma_least_is_none(messages.len(), holds);
    lemma_codes();
}

/// The codes of the refusals that do not depend on what was sent.
proof fn lemma_codes()
    ensures
        rest::subcode_spec("40400: No such message under that lock"@) == "40400"@,
        rest::subcode_spec("40400: Not a queue's messages"@) == "40400"@,
        rest::subcode_spec("40500: Not one of the three calls"@) == "40500"@,
{
    reveal_strlit(":");
    reveal_strlit("40400");
    reveal_strlit("40500");
    reveal_strlit(" No such message under that lock");
    reveal_strlit("40400: No such message under that lock");
    reveal_strlit(" Not a queue's messages");
    reveal_strlit("40400: Not a queue's messages");
    reveal_strlit(" Not one of the three calls");
    reveal_strlit("40500: Not one of the three calls");
    assert("40400: No such message under that lock"@ =~= "40400"@ + ":"@
        + " No such message under that lock"@);
    assert("40400: Not a queue's messages"@ =~= "40400"@ + ":"@ + " Not a queue's messages"@);
    assert("40500: Not one of the three calls"@ =~= "40500"@ + ":"@
        + " Not one of the three calls"@);
    rest::a_detail_opens_with_its_subcode("40400"@, " No such message under that lock"@);
    rest::a_detail_opens_with_its_subcode("40400"@, " Not a queue's messages"@);
    rest::a_detail_opens_with_its_subcode("40500"@, " Not one of the three calls"@);
}

/// Whether a path is another one, with a slash before it or without.
pub open spec fn is_rooted(path: Seq<char>, relative: Seq<char>) -> bool {
    path == relative || path == "/"@ + relative
}

/// A path is what is left of it without its slash, rooted.
proof fn lemma_rooted(path: Seq<char>)
    ensures
        is_rooted(path, session::unrooted(path)),
{
    wording::a_prefix_is_taken_off(path, "/"@, Seq::empty());
}

/// What stands behind the last slash of a text holds none.
proof fn lemma_no_slash_behind_the_last(text: Seq<char>)
    ensures
        text::rsplit_once_spec(text, "/"@) matches Some((_, tail)) ==> forall|i: int|
            0 <= i < tail.len() ==> #[trigger] tail[i] != '/',
{
    wording::a_text_is_split_at_the_last(text, "/"@);
    if let Some((head, tail)) = text::rsplit_once_spec(text, "/"@) {
        reveal_strlit("/");
        assert forall|i: int| 0 <= i < tail.len() implies #[trigger] tail[i] != '/' by {
            let j = head.len() as int + 1 + i;
            assert(text[j] == tail[i]);
            if tail[i] == '/' {
                assert(text.subrange(j, j + 1) =~= "/"@);
            }
        }
    }
}

/// What a path is routed to is what it is made of.
#[verifier::spinoff_prover]
#[verifier::rlimit(40)]
proof fn lemma_routed_is_made_of(path: Seq<char>)
    ensures
        session::routed(path) matches Some((queue, rest)) ==> session::unrooted(path) == queue
            + "/messages"@ + rest,
        session::shaped_as_complete(path) matches Some((queue, id, lock)) ==> session::unrooted(
            path,
        ) == queue + "/messages/"@ + id + "/"@ + lock && forall|i: int|
            0 <= i < lock.len() ==> #[trigger] lock[i] != '/',
        session::routed(path) is None ==> !wording::holds_text(
            session::unrooted(path),
            "/messages"@,
        ),
{
    let relative = session::unrooted(path);
    wording::a_text_is_split_at_the_last(relative, "/messages"@);
    wording::a_text_is_split_at_the_last(relative, "/"@);
    if let Some((before, lock)) = text::rsplit_once_spec(relative, "/"@) {
        wording::a_text_is_split_at_the_last(before, "/messages/"@);
        lemma_no_slash_behind_the_last(relative);
        if let Some((queue, id)) = text::rsplit_once_spec(before, "/messages/"@) {
            assert(relative =~= queue + "/messages/"@ + id + "/"@ + lock);
        }
    }
}

/// A DELETE takes what it names and nothing else: where it reports a message as
/// completed, its path names the queue, the id and the lock token of a message
/// that is held under that lock, or the head of a queue and the message is not
/// locked, and that message alone is gone.
pub proof fn what_a_delete_takes_is_what_it_names(
    broker: Broker,
    asked: Asked,
    verified: Result<Seq<char>, Failure>,
)
    ensures
        session::answering(broker, asked, verified).event matches Happened::Completed(uri) ==> {
            &&& asked.method == "DELETE"@
            &&& verified matches Ok(resource) && exists|queue: Seq<char>, at: int| #[trigger]
                is_named_and_gone(
                    session::answering(broker, asked, verified).broker,
                    broker,
                    asked.path,
                    queue,
                    at,
                ) && uri == session::origin_spec(resource, queue) + "#"@ + on(broker, queue)[at].id
        },
{
    let reply = session::answering(broker, asked, verified);
    session::lemma_calls_differ(Seq::empty(), Seq::empty());
    if reply.event is Completed {
        let (queue, rest) = session::called(asked)->0;
        let messages = on(broker, queue);
        lemma_rooted(asked.path);
        lemma_routed_is_made_of(asked.path);
        let (first, tail) = session::routed(asked.path)->0;
        if rest == "/head"@ {
            session::lemma_first_unlocked_stands(messages);
            let at = session::first_unlocked(messages)->0;
            if tail != "/head"@ {
                if let Some((_, id, lock)) = session::shaped_as_complete(asked.path) {
                    session::lemma_calls_differ(id, lock);
                }
            }
            lemma_joined(queue, Seq::empty(), Seq::empty());
            assert(is_named_and_gone(reply.broker, broker, asked.path, queue, at));
        } else {
            let (id, lock) = session::id_and_lock(rest)->0;
            session::lemma_first_under_lock_stands(messages, id, lock);
            let at = session::first_under_lock(messages, id, lock)->0;
            match session::shaped_as_complete(asked.path) {
                Some((_, named, token)) => {
                    laws::lemma_id_and_lock(named, token);
                },
                None => {
                    wording::a_prefix_is_taken_off(rest, "/"@, Seq::empty());
                    let inner = text::strip_prefix_spec(rest, "/"@)->0;
                    wording::a_text_is_split_at_the_last(inner, "/"@);
                    assert(rest =~= "/"@ + id + "/"@ + lock);
                    lemma_joined(queue, id, lock);
                },
            }
            assert(is_named_and_gone(reply.broker, broker, asked.path, queue, at));
        }
    }
}

/// The paths of a head and of a complete, joined from their parts.
proof fn lemma_joined(queue: Seq<char>, id: Seq<char>, lock: Seq<char>)
    ensures
        queue + "/messages"@ + "/head"@ == queue + "/messages/head"@,
        queue + "/messages"@ + ("/"@ + id + "/"@ + lock) == queue + "/messages/"@ + id + "/"@
            + lock,
{
    reveal_strlit("/");
    reveal_strlit("/head");
    reveal_strlit("/messages");
    reveal_strlit("/messages/");
    reveal_strlit("/messages/head");
    assert("/messages"@ + "/head"@ =~= "/messages/head"@);
    assert("/messages"@ + "/"@ =~= "/messages/"@);
    assert(queue + "/messages"@ + "/head"@ =~= queue + "/messages/head"@);
    assert(queue + "/messages"@ + ("/"@ + id + "/"@ + lock) =~= queue + "/messages/"@ + id + "/"@
        + lock);
}

/// Whether a path names the message at `at` of a queue, by its id and its lock
/// or as the head where it has none, and that message alone is gone.
pub open spec fn is_named_and_gone(
    after: Broker,
    broker: Broker,
    path: Seq<char>,
    queue: Seq<char>,
    at: int,
) -> bool {
    &&& 0 <= at < on(broker, queue).len()
    &&& differs_in(after, broker, queue, on(broker, queue).remove(at), 0)
    &&& match on(broker, queue)[at].lock {
        Some(lock) => is_rooted(
            path,
            queue + "/messages/"@ + on(broker, queue)[at].id + "/"@ + lock,
        ),
        None => is_rooted(path, queue + "/messages/head"@),
    }
}

/// An event says what was asked: a send comes of a verified POST to a queue's
/// messages alone, and a lock of a verified POST to the head of the queue that it
/// names; a DELETE of that head reports one only where it found nothing.
pub proof fn an_event_says_what_was_asked(
    broker: Broker,
    asked: Asked,
    verified: Result<Seq<char>, Failure>,
)
    ensures
        match session::answering(broker, asked, verified).event {
            Happened::Sent(_) => verified is Ok && asked.method == "POST"@ && exists|
                queue: Seq<char>,
            | #[trigger]
                is_rooted(asked.path, queue + "/messages"@),
            Happened::Locked { queue, id, wait } => verified is Ok && is_rooted(
                asked.path,
                queue + "/messages/head"@,
            ) && (asked.method == "POST"@ || (asked.method == "DELETE"@ && id is None && wait
                == 0)),
            Happened::Completed(_) => verified is Ok && asked.method == "DELETE"@,
            Happened::Refused(_) => true,
        },
{
    let reply = session::answering(broker, asked, verified);
    session::lemma_calls_differ(Seq::empty(), Seq::empty());
    lemma_rooted(asked.path);
    lemma_routed_is_made_of(asked.path);
    if let Some((queue, rest)) = session::called(asked) {
        if let Some((_, id, lock)) = session::shaped_as_complete(asked.path) {
            session::lemma_calls_differ(id, lock);
        }
        lemma_joined(queue, Seq::empty(), Seq::empty());
        reveal_strlit("");
        if rest == ""@ {
            assert(queue + "/messages"@ + ""@ =~= queue + "/messages"@);
        }
    }
}

/// A request whose token was not verified is refused with status 401 and what
/// the verification said, whatever it asks for.
pub proof fn an_unverified_request_is_refused(broker: Broker, asked: Asked, failure: Failure)
    ensures
        refuses(
            session::answering(broker, asked, Err(failure)),
            broker,
            401,
            failure.message,
            rest::subcode_spec(failure.message),
        ),
{
}

/// A path that names no queue's messages is refused with status 404, whatever
/// the method.
pub proof fn a_path_without_messages_is_refused(
    broker: Broker,
    asked: Asked,
    resource: Seq<char>,
    relative: Seq<char>,
)
    requires
        asked.path == "/"@ + relative || (asked.path == relative && (relative.len() == 0
            || relative[0] != '/')),
        !wording::holds_text(relative, "/messages"@),
    ensures
        refuses(
            session::answering(broker, asked, Ok(resource)),
            broker,
            404,
            "40400: Not a queue's messages"@,
            "40400"@,
        ),
{
    lemma_relative(asked.path, relative);
    lemma_routed_is_made_of(asked.path);
    lemma_codes();
    if let Some((queue, rest)) = session::routed(asked.path) {
        let at = queue.len() as int;
        assert(relative.subrange(at, at + "/messages"@.len()) =~= "/messages"@);
    }
}

/// A path without the slash that it starts with.
proof fn lemma_relative(path: Seq<char>, relative: Seq<char>)
    requires
        path == "/"@ + relative || (path == relative && (relative.len() == 0 || relative[0]
            != '/')),
    ensures
        session::unrooted(path) == relative,
{
    laws::lemma_unrooted(relative);
    if path != "/"@ + relative {
        reveal_strlit("/");
        if relative.len() > 0 {
            text::lemma_no_occurrence(relative, "/"@, 0, 0);
        }
    }
}

/// Anything but the calls on a queue's messages is refused with status 405: a
/// method other than POST and DELETE, and a POST to anything there but the
/// messages themselves and their head.
pub proof fn another_call_is_refused(
    broker: Broker,
    asked: Asked,
    resource: Seq<char>,
    queue: Seq<char>,
    tail: Seq<char>,
)
    requires
        is_path(asked.path, queue, tail),
        asked.method != "POST"@ && asked.method != "DELETE"@ || (asked.method == "POST"@ && tail
            != ""@ && tail != "/head"@ && !wording::holds_text(tail, "/messages"@)),
    ensures
        refuses(
            session::answering(broker, asked, Ok(resource)),
            broker,
            405,
            "40500: Not one of the three calls"@,
            "40500"@,
        ),
{
    lemma_codes();
    lemma_path_is_unrooted(asked.path, queue, tail);
    lemma_routed_is_made_of(asked.path);
    session::lemma_calls_differ(Seq::empty(), Seq::empty());
    let relative = queue + "/messages"@ + tail;
    let at = queue.len() as int;
    assert(relative.subrange(at, at + "/messages"@.len()) =~= "/messages"@);
    if asked.method == "POST"@ {
        assert forall|k: int| !text::occurs_at(tail, "/messages"@, k) by {
            if text::occurs_at(tail, "/messages"@, k) {
                assert(tail.subrange(k, k + "/messages"@.len()) == "/messages"@);
            }
        }
        lemma_path_is_routed(asked.path, queue, tail);
    }
}

/// A DELETE on a queue's messages that is not of the head completes a message or
/// is refused with status 404.
pub proof fn a_delete_completes_or_is_refused(
    broker: Broker,
    asked: Asked,
    resource: Seq<char>,
    queue: Seq<char>,
    tail: Seq<char>,
)
    requires
        asked.method == "DELETE"@,
        is_path(asked.path, queue, tail),
        forall|other: Seq<char>| !(#[trigger] is_rooted(asked.path, other + "/messages/head"@)),
    ensures
        ({
            let reply = session::answering(broker, asked, Ok(resource));
            reply.event is Completed || refuses(
                reply,
                broker,
                404,
                "40400: No such message under that lock"@,
                "40400"@,
            )
        }),
{
    lemma_codes();
    lemma_rooted(asked.path);
    lemma_path_is_unrooted(asked.path, queue, tail);
    lemma_routed_is_made_of(asked.path);
    session::lemma_calls_differ(Seq::empty(), Seq::empty());
    let relative = queue + "/messages"@ + tail;
    let at = queue.len() as int;
    assert(relative.subrange(at, at + "/messages"@.len()) =~= "/messages"@);
    let (first, rest) = session::routed(asked.path)->0;
    if rest == "/head"@ {
        lemma_joined(first, Seq::empty(), Seq::empty());
        assert(is_rooted(asked.path, first + "/messages/head"@));
    }
    if let Some((_, id, lock)) = session::shaped_as_complete(asked.path) {
        session::lemma_calls_differ(id, lock);
    }
}

/// A request takes a number only where it is a verified POST, of a body that a
/// message holds or to the head of a queue where some message is not locked; any
/// other leaves the next number as it was.
pub proof fn a_number_is_taken_for_a_message_or_a_lock(
    broker: Broker,
    asked: Asked,
    verified: Result<Seq<char>, Failure>,
    queue: Seq<char>,
)
    ensures
        !session::may_take_a_number(broker, asked, verified) ==> session::answering(
            broker,
            asked,
            verified,
        ).broker.next == broker.next,
        verified is Err || asked.method != "POST"@ ==> !session::may_take_a_number(
            broker,
            asked,
            verified,
        ),
        is_path(asked.path, queue, ""@) && asked.body.len() > 262144
            ==> !session::may_take_a_number(broker, asked, verified),
        is_path(asked.path, queue, "/head"@) && !has_unlocked(on(broker, queue))
            ==> !session::may_take_a_number(broker, asked, verified),
{
    lemma_tails();
    if is_path(asked.path, queue, ""@) {
        lemma_path_is_routed(asked.path, queue, ""@);
    }
    if is_path(asked.path, queue, "/head"@) {
        lemma_path_is_routed(asked.path, queue, "/head"@);
        session::lemma_first_unlocked_stands(on(broker, queue));
        if let Some(at) = session::first_unlocked(on(broker, queue)) {
            assert(on(broker, queue)[at].lock is None);
        }
    }
}

/// The origin of a queue is the scheme and the authority of the resource that
/// the token names, whatever follows them, and the queue's name; where the
/// resource has no scheme, it is the resource and the queue's name.
pub proof fn an_origin_is_scheme_authority_and_queue(
    scheme: Seq<char>,
    authority: Seq<char>,
    path: Seq<char>,
    queue: Seq<char>,
    bare: Seq<char>,
)
    requires
        forall|j: int|
            0 <= j < scheme.len() ==> !text::occurs_at(
                scheme + "://"@ + authority + path,
                "://"@,
                j,
            ),
        forall|i: int| 0 <= i < authority.len() ==> #[trigger] authority[i] != '/',
        path.len() > 0 ==> path[0] == '/',
        !wording::holds_text(bare, "://"@),
    ensures
        session::origin_spec(scheme + "://"@ + authority + path, queue) == scheme + "://"@
            + authority + "/"@ + queue,
        session::origin_spec(bare, queue) == bare + "/"@ + queue,
{
    reveal_strlit("/");
    reveal_strlit("://");
    let resource = scheme + "://"@ + authority + path;
    let at = scheme.len() as int;
    let holds = text::occurrences(resource, "://"@);
    assert(resource.subrange(at, at + 3) =~= "://"@);
    assert forall|j: int| 0 <= j < at implies !(#[trigger] holds(j)) by {
        assert(!text::occurs_at(resource, "://"@, j));
    }
    text::lemma_least_is(resource.len() + 1, holds, at);
    let rest = authority + path;
    assert(resource.take(at) =~= scheme);
    assert(resource.skip(at + 3) =~= rest);
    let end = authority.len() as int;
    let slashes = text::occurrences(rest, "/"@);
    assert forall|j: int| 0 <= j < end implies !(#[trigger] slashes(j)) by {
        assert(rest[j] == authority[j]);
        text::lemma_no_occurrence(rest, "/"@, j, 0);
    }
    if path.len() > 0 {
        assert(rest.subrange(end, end + 1) =~= "/"@);
        text::lemma_least_is(rest.len() + 1, slashes, end);
        assert(rest.take(end) =~= authority);
    } else {
        text::lemma_least_is_none(rest.len() + 1, slashes);
        assert(rest =~= authority);
    }
    let none = text::occurrences(bare, "://"@);
    assert forall|j: int| 0 <= j < bare.len() + 1 implies !(#[trigger] none(j)) by {
        if none(j) {
            assert(bare.subrange(j, j + "://"@.len()) == "://"@);
        }
    }
    text::lemma_least_is_none(bare.len() + 1, none);
}

/// Whether the message at `at` of a queue has a key: the queue's name, a number
/// sign and the id.
pub open spec fn has_key(
    broker: Broker,
    queue: Seq<char>,
    at: int,
    key: Seq<char>,
) -> bool {
    0 <= at < on(broker, queue).len() && key == queue + "#"@ + on(broker, queue)[at].id
}

/// Whether an entry is the body of a message under its key, the last of that key
/// in the order of the queues' names and then of the messages.
pub open spec fn is_entry_of(
    broker: Broker,
    queue: Seq<char>,
    at: int,
    entry: (Seq<char>, Seq<u8>),
) -> bool {
    &&& has_key(broker, queue, at, entry.0)
    &&& entry.1 == on(broker, queue)[at].body
    &&& forall|other: Seq<char>, i: int| #[trigger]
        has_key(broker, other, i, entry.0) ==> text::before(other, queue) || (other == queue && i
            <= at)
}

/// Whether an entry is that of some message.
pub open spec fn is_entry(broker: Broker, entry: (Seq<char>, Seq<u8>)) -> bool {
    exists|queue: Seq<char>, at: int| is_entry_of(broker, queue, at, entry)
}

/// A listing says what a session holds: its keys ascend, every message, locked
/// or not, has its key there, and every entry is the body of the last message of
/// its key.
pub proof fn a_listing_says_what_is_held(broker: Broker, entries: Seq<(Seq<char>, Seq<u8>)>)
    requires
        session::lists(broker, entries),
    ensures
        forall|i: int, j: int|
            0 <= i < j < entries.len() ==> text::before(
                #[trigger] entries[i].0,
                #[trigger] entries[j].0,
            ),
        forall|queue: Seq<char>, at: int, key: Seq<char>| #[trigger]
            has_key(broker, queue, at, key) ==> exists|i: int|
                0 <= i < entries.len() && (#[trigger] entries[i]).0 == key,
        forall|i: int| 0 <= i < entries.len() ==> is_entry(broker, #[trigger] entries[i]),
{
    assert forall|queue: Seq<char>, at: int, key: Seq<char>| #[trigger]
        has_key(broker, queue, at, key) == session::is_keyed(broker, queue, at, key) by {}
    assert forall|queue: Seq<char>, at: int, key: Seq<char>| #[trigger]
        has_key(broker, queue, at, key) implies exists|i: int|
        0 <= i < entries.len() && (#[trigger] entries[i]).0 == key by {
        assert(session::is_keyed(broker, queue, at, key));
        assert(listing::has_key(entries, key));
    }
    assert forall|i: int| 0 <= i < entries.len() implies is_entry(
        broker,
        #[trigger] entries[i],
    ) by {
        let entry = entries[i];
        assert(session::is_listed(broker, entry));
        let (queue, at) = choose|queue: Seq<char>, at: int| #[trigger]
            session::is_last_keyed(broker, queue, at, entry.0) && broker.queues[queue][at].body
                == entry.1;
        assert(session::is_keyed(broker, queue, at, entry.0));
        assert forall|other: Seq<char>, k: int| #[trigger]
            has_key(broker, other, k, entry.0) implies text::before(other, queue) || (other
            == queue && k <= at) by {
            assert(session::is_keyed(broker, other, k, entry.0));
        }
        assert(is_entry_of(broker, queue, at, entry));
    }
}

/// What a session is told to be is what it is: a reply has the event and the
/// answer that were expected, leaves the session that was, and the near end reads
/// in it the properties that it carries.
pub proof fn a_reply_is_what_was_expected(
    after: Broker,
    event: Happened,
    answer: Answer,
    expected: Reply,
)
    ensures
        session::is_reply(after, event, answer, expected) ==> {
            &&& after == expected.broker
            &&& event == expected.event
            &&& answer == expected.answer
            &&& expected.carried matches Some(carried) ==> properties::properties_among(
                answer.headers,
            ) == Ok::<Json, Failure>(carried)
        },
{
}

} // verus!
