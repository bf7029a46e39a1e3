//! What the near end does: the requests that its calls are, what it reads in
//! the answers, how a receive goes from one answer to the next, and what a
//! transport makes of its settings.

use crate::client::{self, Caller, LockedMessage};
use crate::error::{Failure, Stream, TransportError};
use crate::json::{self, Json};
use crate::message::Answer;
use crate::number;
use crate::properties;
use crate::receiving::{self, Came, Progress};
use crate::rest;
use crate::session::{Broker, Happened, Message};
use crate::transport::{self, Settings};
use crate::wording;
use crate::CEILING;
use vstd::prelude::*;

verus! {

/// Each of the three calls about a queue carries, as the resource that its token
/// is to name, the endpoint, a slash and that queue's name.
pub proof fn each_call_is_signed_for_its_queue(
    caller: Caller,
    queue: Seq<char>,
    bytes: Seq<u8>,
    wait: u8,
    id: Seq<char>,
    lock: Seq<char>,
)
    ensures
        client::resource_spec(caller.endpoint, queue) == caller.endpoint + "/"@ + queue,
        client::send_call(caller, queue, bytes).resource == caller.endpoint + "/"@ + queue,
        client::peek_lock_call(caller, queue, wait).resource == caller.endpoint + "/"@ + queue,
        client::complete_call(caller, queue, id, lock).resource == caller.endpoint + "/"@ + queue,
{
}

/// A send is a POST to the queue's messages that says it is bytes, to the host,
/// and whose body is the bytes as they are.
pub proof fn a_send_posts_the_bytes(caller: Caller, queue: Seq<char>, bytes: Seq<u8>)
    ensures
        ({
            let asked = client::send_call(caller, queue, bytes).request;
            &&& asked.method == "POST"@
            &&& asked.path == "/"@ + queue + "/messages"@
            &&& asked.parameters.len() == 0
            &&& asked.headers == seq![
                ("Content-Type"@, "application/octet-stream"@),
                ("Host"@, caller.host),
            ]
            &&& asked.body == bytes
        }),
{
}

/// A peek-lock is a POST without a body to the head of the queue's messages, to
/// the host, and its one parameter is the seconds to wait, 230 at most, in
/// decimal.
pub proof fn a_peek_lock_posts_to_the_head(caller: Caller, queue: Seq<char>, wait: u8)
    ensures
        ({
            let asked = client::peek_lock_call(caller, queue, wait).request;
            &&& asked.method == "POST"@
            &&& asked.path == "/"@ + queue + "/messages/head"@
            &&& asked.headers == seq![("Host"@, caller.host)]
            &&& asked.body.len() == 0
            &&& asked.parameters.len() == 1
            &&& asked.parameters[0].0 == "timeout"@
            &&& asked.parameters[0].1 == number::decimal_spec(
                if wait <= 230 {
                    wait as nat
                } else {
                    230
                },
            )
        }),
{
    reveal_strlit("/messages");
    reveal_strlit("/head");
    reveal_strlit("/messages/head");
    assert("/messages"@ + "/head"@ =~= "/messages/head"@);
    let asked = client::peek_lock_call(caller, queue, wait).request;
    assert(asked.path =~= "/"@ + queue + "/messages/head"@);
}

/// A complete is a DELETE without a body, to the host, of the id and then the
/// lock token under the queue's messages.
pub proof fn a_complete_deletes_by_id_and_lock(
    caller: Caller,
    queue: Seq<char>,
    id: Seq<char>,
    lock: Seq<char>,
)
    ensures
        ({
            let asked = client::complete_call(caller, queue, id, lock).request;
            &&& asked.method == "DELETE"@
            &&& asked.path == "/"@ + queue + "/messages/"@ + id + "/"@ + lock
            &&& asked.parameters.len() == 0
            &&& asked.headers == seq![("Host"@, caller.host)]
            &&& asked.body.len() == 0
        }),
{
    reveal_strlit("/");
    reveal_strlit("/messages");
    reveal_strlit("/messages/");
    let asked = client::complete_call(caller, queue, id, lock).request;
    assert("/messages"@ + "/"@ =~= "/messages/"@);
    assert(asked.path =~= "/"@ + queue + "/messages/"@ + id + "/"@ + lock);
}

/// A near end has the endpoint without the slashes at its end, the authority
/// that was found in it, the policy and the key as they are, and no timeout;
/// where the endpoint has no authority, there is none and the reason is handed
/// on.
pub proof fn a_near_end_is_made_of_its_endpoint(
    endpoint: Seq<char>,
    host: Result<String, TransportError>,
    policy: Seq<char>,
    key: Seq<char>,
)
    ensures
        match (host, client::new_spec(endpoint, host, policy, key)) {
            (Ok(host), Ok(caller)) => {
                let kept = caller.endpoint;
                &&& kept.len() <= endpoint.len()
                &&& kept == endpoint.take(kept.len() as int)
                &&& forall|i: int|
                    kept.len() <= i < endpoint.len() ==> #[trigger] endpoint[i] == '/'
                &&& kept.len() > 0 ==> kept.last() != '/'
                &&& caller.host == host@
                &&& caller.policy == policy
                &&& caller.key == key
                &&& caller.timeout is None
            },
            (Err(reason), Err(failure)) => failure == reason@,
            _ => false,
        },
{
    wording::an_end_is_taken_off(endpoint, '/');
}

/// What a peek-lock is answered is read by its status: nothing where it is 204;
/// a failure of that status where it is no success; and otherwise the message
/// that the properties and the body hand out, its id and its lock token the
/// texts of those names and its sequence number the count of that name, or zero.
/// Properties that are none, and a message without an id or without a lock
/// token, are each refused for that.
pub proof fn a_locked_message_is_read(answer: Answer)
    ensures
        answer.status == 204 ==> client::locked_spec(answer) == Ok::<
            Option<LockedMessage>,
            Failure,
        >(None),
        !(200 <= answer.status <= 299) ==> client::locked_spec(answer) == Err::<
            Option<LockedMessage>,
            Failure,
        >(refused(answer)),
        200 <= answer.status <= 299 && answer.status != 204 ==> match (
            properties::properties_among(answer.headers),
            client::locked_spec(answer),
        ) {
            (Err(failure), Err(said)) => said == failure,
            (Ok(found), Ok(Some(locked))) => {
                &&& json::member(found, "MessageId"@) == Json::Text(locked.id)
                &&& json::member(found, "LockToken"@) == Json::Text(locked.lock_token)
                &&& match json::member(found, "SequenceNumber"@) {
                    Json::Count(count) => locked.sequence == count,
                    _ => locked.sequence == 0,
                }
                &&& locked.body == answer.body
            },
            (Ok(found), Err(failure)) => !failure.retryable && if json::member(
                found,
                "MessageId"@,
            ) is Text {
                !(json::member(found, "LockToken"@) is Text) && failure.message
                    == "a locked message with no LockToken"@
            } else {
                failure.message == "a locked message with no MessageId"@
            },
            _ => false,
        },
{
    lemma_refused(answer);
    reveal_strlit("a locked message with no ");
    reveal_strlit("MessageId");
    reveal_strlit("LockToken");
    reveal_strlit("a locked message with no MessageId");
    reveal_strlit("a locked message with no LockToken");
    assert("a locked message with no "@ + "MessageId"@ =~= "a locked message with no MessageId"@);
    assert("a locked message with no "@ + "LockToken"@ =~= "a locked message with no LockToken"@);
}

/// The failure of an answer that is no success: it names Service Bus, the status
/// and the detail, and is worth repeating where the status or the detail says
/// so.
pub open spec fn refused(answer: Answer) -> Failure {
    let detail = wording::detail_of(answer);
    Failure {
        message: "Service Bus answered "@ + number::decimal_spec(answer.status as nat) + " "@
            + detail,
        retryable: answer.status >= 500 || answer.status == 408 || answer.status == 429 || (
        detail.len() >= 5 && detail.take(5) == "50002"@),
    }
}

/// A send and a complete are done exactly where the answer has a status from 200
/// to 299, and otherwise fail as that status and detail say.
pub proof fn a_call_is_done_by_its_status(answer: Answer)
    ensures
        client::done_spec(answer) == if 200 <= answer.status <= 299 {
            Ok::<(), Failure>(())
        } else {
            Err::<(), Failure>(refused(answer))
        },
{
    lemma_refused(answer);
}

/// Any answer but a success is judged as that failure.
proof fn lemma_refused(answer: Answer)
    ensures
        !(200 <= answer.status <= 299) ==> rest::judge_spec(client::service(), answer)
            == Err::<Answer, Failure>(refused(answer)),
{
    wording::an_answer_is_judged_by_its_status(client::service(), answer);
    reveal_strlit("Service Bus");
    reveal_strlit(" answered ");
    reveal_strlit("Service Bus answered ");
    assert("Service Bus"@ + " answered "@ =~= "Service Bus answered "@);
    let detail = wording::detail_of(answer);
    assert(client::service() + " answered "@ + number::decimal_spec(answer.status as nat) + " "@
        + detail =~= "Service Bus answered "@ + number::decimal_spec(answer.status as nat) + " "@
        + detail);
}

/// The id that a sender chose is the text of the property `MessageId`, whole and
/// as it is; it chose none where there is no such property, or it is no text.
pub proof fn a_chosen_id_is_the_text_of_its_property(properties: Json, id: Seq<char>)
    ensures
        json::member(properties, "MessageId"@) == Json::Text(id) ==> client::chosen_id_spec(
            properties,
        ) == Some(id),
        !(json::member(properties, "MessageId"@) is Text) ==> client::chosen_id_spec(properties)
            is None,
{
}

/// A receive begins with nothing, and the call that comes next is a peek-lock on
/// its queue where no message is locked, and otherwise the complete of the one
/// that is.
pub proof fn a_receive_locks_and_then_completes(
    caller: Caller,
    queue: Seq<char>,
    wait: u8,
    progress: Progress,
)
    ensures
        ({
            let begun = receiving::starting(caller, queue, wait);
            &&& begun.caller == caller && begun.queue == queue && begun.wait == wait
            &&& begun.arrived.len() == 0 && begun.pending is None
        }),
        match progress.pending {
            None => receiving::next_call(progress) == client::peek_lock_call(
                progress.caller,
                progress.queue,
                progress.wait,
            ),
            Some(locked) => receiving::next_call(progress) == client::complete_call(
                progress.caller,
                progress.queue,
                locked.id,
                locked.lock_token,
            ),
        },
{
}

/// Where a message is locked, the answer to its complete decides. A status from
/// 200 to 299, and no other, adds it to the Streams: its body, under the
/// endpoint, the queue and its id as the fragment. The receive then goes on
/// where there are fewer than ten, and is over otherwise. Any other status,
/// worth repeating or not, is the receive's failure.
pub proof fn a_stream_is_a_message_that_was_completed(progress: Progress, answer: Answer)
    ensures
        progress.pending matches Some(locked) ==> match receiving::step(progress, answer) {
            Err(failure) => !(200 <= answer.status <= 299) && failure == refused(answer),
            Ok(came) => {
                let stream = Stream {
                    origin_uri: progress.caller.endpoint + "/"@ + progress.queue + "#"@ + locked.id,
                    bytes: locked.body,
                };
                &&& 200 <= answer.status <= 299
                &&& match came {
                    Came::More(further) => {
                        &&& progress.arrived.len() + 1 < 10
                        &&& further.arrived == progress.arrived.push(stream)
                        &&& further.pending is None
                        &&& further.caller == progress.caller
                        &&& further.queue == progress.queue
                        &&& further.wait == progress.wait
                    },
                    Came::Done(streams) => progress.arrived.len() + 1 >= 10 && streams
                        == progress.arrived.push(stream),
                }
            },
        },
{
    a_call_is_done_by_its_status(answer);
}

/// Where no message is locked, the answer to the peek-lock decides. A message
/// that it hands out is the one that is locked next, and no Stream yet; none
/// ends the receive with what arrived; and a failure is the receive's where
/// nothing arrived, and otherwise ends it with what did.
pub proof fn a_message_is_locked_before_it_is_a_stream(progress: Progress, answer: Answer)
    ensures
        progress.pending is None ==> match (
            client::locked_spec(answer),
            receiving::step(progress, answer),
        ) {
            (Ok(Some(locked)), Ok(Came::More(further))) => {
                &&& further.pending == Some(locked)
                &&& further.arrived == progress.arrived
                &&& further.caller == progress.caller
                &&& further.queue == progress.queue
                &&& further.wait == progress.wait
            },
            (Ok(None), Ok(Came::Done(streams))) => streams == progress.arrived,
            (Err(_), Ok(Came::Done(streams))) => streams == progress.arrived
                && progress.arrived.len() > 0,
            (Err(failure), Err(said)) => said == failure && progress.arrived.len() == 0,
            _ => false,
        },
{
}

/// A call that came to no answer ends a receive with what arrived, where
/// something did and no message is locked, and otherwise with that failure.
pub proof fn a_broken_call_ends_a_receive(progress: Progress, failure: Failure)
    ensures
        match receiving::ended(progress, failure) {
            Ok(streams) => streams == progress.arrived && progress.arrived.len() > 0
                && progress.pending is None,
            Err(said) => said == failure && (progress.arrived.len() == 0 || progress.pending
                is Some),
        },
{
}

/// A transport's near end is made of its own endpoint, policy and key, and has
/// its timeout.
pub proof fn a_transport_speaks_as_it_is_set(
    settings: Settings,
    host: Result<String, TransportError>,
)
    ensures
        match (host, transport::client_spec(settings, host)) {
            (Ok(host), Ok(caller)) => {
                let kept = caller.endpoint;
                &&& kept.len() <= settings.endpoint.len()
                &&& kept == settings.endpoint.take(kept.len() as int)
                &&& forall|i: int|
                    kept.len() <= i < settings.endpoint.len() ==> #[trigger] settings.endpoint[i]
                        == '/'
                &&& kept.len() > 0 ==> kept.last() != '/'
                &&& caller.host == host@
                &&& caller.policy == settings.policy
                &&& caller.key == settings.key
                &&& caller.timeout == settings.timeout
            },
            (Err(reason), Err(failure)) => failure == reason@,
            _ => false,
        },
{
    a_near_end_is_made_of_its_endpoint(settings.endpoint, host, settings.policy, settings.key);
}

/// A transport refuses to send more than 262144 bytes, for good and with the
/// reason, before it looks at its endpoint. It sends anything else, whatever the
/// bytes, to the queue that the target names or to its own where it names none,
/// unless the endpoint is no HTTP URL.
pub proof fn a_transport_sends_what_a_message_holds(
    settings: Settings,
    host: Result<String, TransportError>,
    target: Seq<char>,
    bytes: Seq<u8>,
)
    ensures
        match transport::send_spec(settings, host, target, bytes) {
            Ok(placed) => {
                let queue = if target.len() == 0 {
                    settings.queue
                } else {
                    target
                };
                &&& bytes.len() <= 262144
                &&& transport::client_spec(settings, host) is Ok
                &&& placed == client::send_call(
                    transport::client_spec(settings, host)->Ok_0,
                    queue,
                    bytes,
                )
            },
            Err(failure) => if bytes.len() > 262144 {
                &&& !failure.retryable
                &&& failure.message == number::decimal_spec(bytes.len())
                    + " bytes is over the 262144 one Service Bus message carries"@
            } else {
                transport::client_spec(settings, host) == Err::<Caller, Failure>(failure)
            },
        },
{
    reveal_strlit(" bytes is over the ");
    reveal_strlit(" one Service Bus message carries");
    reveal_strlit(" bytes is over the 262144 one Service Bus message carries");
    lemma_ceiling_in_decimal();
    let length = number::decimal_spec(bytes.len());
    assert(length + " bytes is over the "@ + number::decimal_spec(CEILING as nat)
        + " one Service Bus message carries"@ =~= length
        + " bytes is over the 262144 one Service Bus message carries"@);
}

/// The ceiling in decimal.
pub proof fn lemma_ceiling_in_decimal()
    ensures
        number::decimal_spec(262144) == seq!['2', '6', '2', '1', '4', '4'],
{
    reveal_with_fuel(number::digits, 6);
    assert(number::digits(2, 10) =~= seq!['2']);
    assert(number::digits(26, 10) =~= seq!['2', '6']);
    assert(number::digits(262, 10) =~= seq!['2', '6', '2']);
    assert(number::digits(2621, 10) =~= seq!['2', '6', '2', '1']);
    assert(number::digits(26214, 10) =~= seq!['2', '6', '2', '1', '4']);
    assert(number::digits(262144, 10) =~= seq!['2', '6', '2', '1', '4', '4']);
}

/// A transport receives from its own queue, waits as long as it was told, and
/// begins with nothing; it receives exactly where it has a near end.
pub proof fn a_transport_receives_from_its_own_queue(
    settings: Settings,
    host: Result<String, TransportError>,
)
    ensures
        match (transport::client_spec(settings, host), transport::receive_spec(settings, host)) {
            (Ok(caller), Ok(progress)) => {
                &&& progress.caller == caller
                &&& progress.queue == settings.queue
                &&& progress.wait == settings.wait
                &&& progress.arrived.len() == 0
                &&& progress.pending is None
            },
            (Err(reason), Err(failure)) => failure == reason,
            _ => false,
        },
{
}

/// A transport waits the seconds that it was told, and never more than 230.
pub proof fn a_wait_is_capped(seconds: u8)
    ensures
        client::asked_wait(seconds) <= 230,
        client::asked_wait(seconds) <= seconds,
        client::asked_wait(seconds) == seconds || client::asked_wait(seconds) == 230,
        seconds <= 230 ==> client::asked_wait(seconds) == seconds,
{
}

/// The far end of a transport holds its policy, its key and its timeout, has no
/// queue, and gives its first message the number one.
pub proof fn a_far_end_holds_what_its_transport_does(settings: Settings)
    ensures
        transport::session_spec(settings) == (Broker {
            policy: settings.policy,
            key: settings.key,
            queues: Map::<Seq<char>, Seq<Message>>::empty(),
            next: 1,
            timeout: settings.timeout,
        }),
{
}

/// A target names itself, and an empty one the transport's own queue.
pub proof fn a_target_names_a_queue(settings: Settings, target: Seq<char>)
    ensures
        target.len() > 0 ==> transport::resolve_spec(settings, target) == target,
        target.len() == 0 ==> transport::resolve_spec(settings, target) == settings.queue,
{
}

/// A far end that waits for one send takes the Stream of a send as it is. A
/// refusal and anything else fail for good, the one with its code, the other
/// with how it is shown.
pub proof fn a_far_end_takes_a_send_alone(event: Happened, shown: Seq<char>)
    ensures
        match (event, transport::take_one_spec(event, shown)) {
            (Happened::Sent(stream), Ok(taken)) => taken == stream,
            (Happened::Refused(code), Err(failure)) => !failure.retryable && failure.message
                == "the session refused: "@ + code,
            (Happened::Completed(_), Err(failure)) => !failure.retryable && failure.message
                == "not a send: "@ + shown,
            (Happened::Locked { .. }, Err(failure)) => !failure.retryable && failure.message
                == "not a send: "@ + shown,
            _ => false,
        },
{
}

} // verus!
