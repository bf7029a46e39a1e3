//! What holds of the two ends together.
//!
//! A near end makes calls, a session answers them, and the near end reads the
//! answers. The laws here say how those meet: a call reaches the queue it is
//! about, an answer is read as it was meant, what is sent is held whole, and a
//! message that was locked leaves by its lock and by nothing else.

use crate::client::{self, Caller};
use crate::error::{Failure, Stream, TransportError};
use crate::json::Json;
use crate::listing;
use crate::message::{self, Answer, Asked};
use crate::number;
use crate::properties::{self, BROKER_PROPERTIES};
use crate::receiving::{self, Came, Progress};
use crate::rest;
use crate::session::{self, Broker, Happened, Message};
use crate::text;
use crate::transport::{self, Settings};
use crate::{CEILING, MAX_MESSAGES};
use vstd::prelude::*;

verus! {

/// Whether an id can be told in the path of a complete: `/messages/` does not
/// stand in it, with the slash before it.
pub open spec fn is_deliverable(id: Seq<char>) -> bool {
    forall|k: int| !text::occurs_at("/"@ + id, "/messages/"@, k)
}

/// Whether a complete of an id under a lock token has the path of the head of
/// another queue, and is read as that.
pub open spec fn reads_as_head(id: Seq<char>, lock: Seq<char>) -> bool {
    lock == "head"@ && text::occurs_at("/"@ + id, "/messages"@, id.len() - 8)
}

/// What stands in a text stands in it with something before it, and only
/// there where it starts behind that.
pub proof fn lemma_occurs_behind(head: Seq<char>, text: Seq<char>, pattern: Seq<char>, at: int)
    requires
        head.len() <= at,
    ensures
        text::occurs_at(head + text, pattern, at) == text::occurs_at(
            text,
            pattern,
            at - head.len(),
        ),
{
    let k = at - head.len();
    if k <= text.len() - pattern.len() {
        assert((head + text).subrange(at, at + pattern.len()) =~= text.subrange(
            k,
            k + pattern.len(),
        ));
    }
}

/// Where a pattern stands before a tail and not again behind its start, it
/// stands there last, and a text is cut there.
pub proof fn lemma_cut_last(head: Seq<char>, pattern: Seq<char>, tail: Seq<char>)
    requires
        forall|k: int| 0 < k ==> !text::occurs_at(pattern + tail, pattern, k),
    ensures
        text::rsplit_once_spec(head + (pattern + tail), pattern) == Some((head, tail)),
{
    let rest = pattern + tail;
    let whole = head + rest;
    let at = head.len() as int;
    assert(rest.subrange(0, pattern.len() as int) =~= pattern);
    lemma_occurs_behind(head, rest, pattern, at);
    assert forall|j: int| at < j implies !text::occurs_at(whole, pattern, j) by {
        lemma_occurs_behind(head, rest, pattern, j);
    }
    assert(text::is_last(whole, pattern, at));
    text::lemma_rfind_is(whole, pattern, at);
    assert(whole.take(at) =~= head);
    assert(whole.skip(at + pattern.len()) =~= tail);
}

/// A queue's path with a tail that does not name messages again is routed to
/// the queue.
pub proof fn lemma_routed(queue: Seq<char>, tail: Seq<char>)
    requires
        forall|k: int| !text::occurs_at(tail, "/messages"@, k),
    ensures
        session::routed(client::messages_path(queue) + tail) == Some((queue, tail)),
{
    let pattern = "/messages"@;
    let rest = pattern + tail;
    assert forall|k: int| 0 < k implies !text::occurs_at(rest, pattern, k) by {
        reveal_strlit("/messages");
        if k < 9 {
            assert(rest[k] == pattern[k]);
            text::lemma_no_occurrence(rest, pattern, k, 0);
        } else {
            lemma_occurs_behind(pattern, tail, pattern, k);
        }
    }
    lemma_cut_last(queue, pattern, tail);
    lemma_unrooted(queue + rest);
    assert(client::messages_path(queue) + tail =~= "/"@ + (queue + rest));
}

/// A path with a slash before it is that path without it.
pub proof fn lemma_unrooted(path: Seq<char>)
    ensures
        session::unrooted("/"@ + path) == path,
{
    reveal_strlit("/");
    let whole = "/"@ + path;
    assert(whole.subrange(0, 1) =~= "/"@);
    assert(whole.skip(1) =~= path);
}

/// The last slash of a text stands before what holds none.
pub proof fn lemma_last_slash(head: Seq<char>, tail: Seq<char>)
    requires
        forall|i: int| 0 <= i < tail.len() ==> #[trigger] tail[i] != '/',
    ensures
        text::rsplit_once_spec(head + ("/"@ + tail), "/"@) == Some((head, tail)),
{
    reveal_strlit("/");
    let rest = "/"@ + tail;
    assert forall|k: int| 0 < k implies !text::occurs_at(rest, "/"@, k) by {
        if k <= tail.len() {
            assert(rest[k] == tail[k - 1]);
            text::lemma_no_occurrence(rest, "/"@, k, 0);
        }
    }
    lemma_cut_last(head, "/"@, tail);
}

/// The path of a complete is read as the queue, the id and the lock token that
/// it was made of.
pub proof fn lemma_shaped_as_complete(queue: Seq<char>, id: Seq<char>, lock: Seq<char>)
    requires
        is_deliverable(id),
        forall|i: int| 0 <= i < lock.len() ==> #[trigger] lock[i] != '/',
    ensures
        session::shaped_as_complete(
            client::messages_path(queue) + "/"@ + id + "/"@ + lock,
        ) == Some((queue, id, lock)),
        session::id_and_lock("/"@ + id + "/"@ + lock) == Some((id, lock)),
{
    let pattern = "/messages/"@;
    let named = pattern + id;
    let before = queue + named;
    assert(pattern =~= "/messages"@ + "/"@) by {
        reveal_strlit("/messages/");
        reveal_strlit("/messages");
        reveal_strlit("/");
    }
    assert forall|k: int| 0 < k implies !text::occurs_at(named, pattern, k) by {
        if k < 9 {
            reveal_strlit("/messages/");
            assert(named[k] == pattern[k]);
            text::lemma_no_occurrence(named, pattern, k, 0);
        } else {
            assert(named =~= "/messages"@ + ("/"@ + id));
            assert("/messages"@.len() == 9) by {
                reveal_strlit("/messages");
            }
            lemma_occurs_behind("/messages"@, "/"@ + id, pattern, k);
        }
    }
    lemma_cut_last(queue, pattern, id);
    lemma_last_slash(before, lock);
    let path = before + ("/"@ + lock);
    lemma_unrooted(path);
    assert(client::messages_path(queue) + "/"@ + id + "/"@ + lock =~= "/"@ + path);
    lemma_id_and_lock(id, lock);
}

/// What follows the messages in the path of a complete is read as the id and
/// the lock token that it was made of.
pub proof fn lemma_id_and_lock(id: Seq<char>, lock: Seq<char>)
    requires
        forall|i: int| 0 <= i < lock.len() ==> #[trigger] lock[i] != '/',
    ensures
        session::id_and_lock("/"@ + id + "/"@ + lock) == Some((id, lock)),
{
    let rest = id + ("/"@ + lock);
    lemma_last_slash(id, lock);
    reveal_strlit("/");
    assert("/"@ + id + "/"@ + lock =~= "/"@ + rest);
    assert(("/"@ + rest).subrange(0, 1) =~= "/"@);
    assert(("/"@ + rest).skip(1) =~= rest);
}

/// What ends as a queue's messages do, and is an id with a slash before it
/// behind those, is an id that ends so.
proof fn lemma_ends_in_messages(queue: Seq<char>, id: Seq<char>, other: Seq<char>)
    requires
        queue + "/messages"@ + ("/"@ + id) == other + "/messages"@,
    ensures
        text::occurs_at("/"@ + id, "/messages"@, id.len() - 8),
{
    reveal_strlit("/");
    reveal_strlit("/messages");
    let pattern = "/messages"@;
    let front = queue + pattern;
    let named = "/"@ + id;
    let whole = front + named;
    let at = other.len() as int;
    assert((other + pattern).subrange(at, at + 9) =~= pattern);
    assert(text::occurs_at(whole, pattern, at));
    if at < front.len() {
        assert(whole[at] == pattern[at - queue.len()]);
        text::lemma_no_occurrence(whole, pattern, at, 0);
    }
    lemma_occurs_behind(front, named, pattern, at);
}

/// The path of a complete names messages, and its last are not followed by the
/// head alone.
pub proof fn lemma_not_the_head(queue: Seq<char>, id: Seq<char>, lock: Seq<char>)
    requires
        forall|i: int| 0 <= i < lock.len() ==> #[trigger] lock[i] != '/',
        !reads_as_head(id, lock),
    ensures
        session::routed(client::messages_path(queue) + "/"@ + id + "/"@ + lock) matches Some(
            (_, rest),
        ) && rest != "/head"@,
{
    let pattern = "/messages"@;
    let before = queue + pattern + ("/"@ + id);
    let path = before + ("/"@ + lock);
    let at = queue.len() as int;
    lemma_unrooted(path);
    assert(client::messages_path(queue) + "/"@ + id + "/"@ + lock =~= "/"@ + path);
    assert(path.subrange(at, at + pattern.len()) =~= pattern);
    text::lemma_rfind_exists(path, pattern, at);
    let last = text::rfind(path, pattern)->0;
    let rest = path.skip(last + pattern.len());
    if rest == "/head"@ {
        let other = path.take(last);
        assert("/head"@ =~= "/"@ + "head"@) by {
            reveal_strlit("/");
            reveal_strlit("head");
            reveal_strlit("/head");
        }
        assert(path =~= (other + pattern) + ("/"@ + "head"@)) by {
            assert(path =~= other + path.subrange(last, last + pattern.len()) + rest);
        }
        assert forall|i: int| 0 <= i < "head"@.len() implies #[trigger] "head"@[i] != '/' by {
            reveal_strlit("head");
        }
        lemma_last_slash(before, lock);
        lemma_last_slash(other + pattern, "head"@);
        lemma_ends_in_messages(queue, id, other);
    }
}

/// A lock token that a session hands out holds no slash, and no complete under
/// it reads as the head of a queue.
pub proof fn a_lock_token_names_no_path(id: Seq<char>, number: u64)
    ensures
        forall|i: int|
            0 <= i < session::lock_token(number).len() ==> #[trigger] session::lock_token(
                number,
            )[i] != '/',
        !reads_as_head(id, session::lock_token(number)),
{
    reveal_strlit("lock-");
    reveal_strlit("head");
    number::lemma_hex_holds_digits(number as nat);
    let hex = number::hex_spec(number as nat);
    let lock = session::lock_token(number);
    assert forall|i: int| 0 <= i < lock.len() implies #[trigger] lock[i] != '/' by {
        if i >= 5 {
            assert(lock[i] == hex[i - 5]);
        }
    }
    assert(lock.len() > "head"@.len());
}

/// A send and a peek-lock reach the queue they are about, whatever its name:
/// the one is answered as a send to that queue, the other as a peek-lock on it.
pub proof fn a_send_and_a_peek_lock_reach_their_queue(
    broker: Broker,
    caller: Caller,
    queue: Seq<char>,
    bytes: Seq<u8>,
    wait: u8,
    resource: Seq<char>,
)
    ensures
        ({
            let asked = client::send_call(caller, queue, bytes).request;
            session::answering(broker, asked, Ok(resource)) == session::sending(
                broker,
                queue,
                session::origin_spec(resource, queue),
                asked,
            )
        }),
        ({
            let asked = client::peek_lock_call(caller, queue, wait).request;
            session::answering(broker, asked, Ok(resource)) == session::peeking(
                broker,
                queue,
                session::origin_spec(resource, queue),
                asked,
            )
        }),
{
    reveal_strlit("");
    reveal_strlit("/head");
    reveal_strlit("/messages");
    session::lemma_calls_differ(Seq::empty(), Seq::empty());
    assert forall|k: int| !text::occurs_at(""@, "/messages"@, k) by {}
    assert forall|k: int| !text::occurs_at("/head"@, "/messages"@, k) by {}
    lemma_routed(queue, ""@);
    lemma_routed(queue, "/head"@);
    assert(client::messages_path(queue) + ""@ =~= client::messages_path(queue));
}

/// A complete reaches the message that it names: it is answered as a complete
/// of that id under that lock token, whatever the queue's name. Left out are an
/// id that holds `/messages/`, or starts as that does, and so names another
/// queue's message; a lock token with a slash, which no session hands out; and
/// the path that is the head of a queue.
pub proof fn a_complete_reaches_its_message(
    broker: Broker,
    caller: Caller,
    queue: Seq<char>,
    id: Seq<char>,
    lock: Seq<char>,
    resource: Seq<char>,
)
    requires
        is_deliverable(id),
        forall|i: int| 0 <= i < lock.len() ==> #[trigger] lock[i] != '/',
        !reads_as_head(id, lock),
    ensures
        session::answering(
            broker,
            client::complete_call(caller, queue, id, lock).request,
            Ok(resource),
        ) == session::completing(
            broker,
            queue,
            session::origin_spec(resource, queue),
            "/"@ + id + "/"@ + lock,
        ),
        session::id_and_lock("/"@ + id + "/"@ + lock) == Some((id, lock)),
{
    lemma_shaped_as_complete(queue, id, lock);
    lemma_not_the_head(queue, id, lock);
    session::lemma_calls_differ(id, lock);
}

/// An id without a slash can be told in the path of a complete, whatever else
/// it holds.
pub proof fn an_id_without_a_slash_is_deliverable(id: Seq<char>)
    requires
        forall|i: int| 0 <= i < id.len() ==> #[trigger] id[i] != '/',
    ensures
        is_deliverable(id),
{
    reveal_strlit("/");
    reveal_strlit("/messages/");
    let named = "/"@ + id;
    assert forall|k: int| !text::occurs_at(named, "/messages/"@, k) by {
        if text::occurs_at(named, "/messages/"@, k) {
            let found = named.subrange(k, k + 10);
            assert(found[9] == named[k + 9]);
            assert(named[k + 9] == id[k + 8]);
        }
    }
}

/// Of ids without a slash, one alone reads as the head under one lock token.
proof fn lemma_head_without_slashes(id: Seq<char>, lock: Seq<char>)
    requires
        forall|i: int| 0 <= i < id.len() ==> #[trigger] id[i] != '/',
        reads_as_head(id, lock),
    ensures
        id == "messages"@,
        lock == "head"@,
{
    reveal_strlit("/");
    reveal_strlit("messages");
    reveal_strlit("/messages");
    let named = "/"@ + id;
    let k = id.len() - 8;
    let found = named.subrange(k, k + 9);
    assert(found[0] == named[k]);
    if k > 0 {
        assert(named[k] == id[k - 1]);
    }
    assert forall|i: int| 0 <= i < 8 implies #[trigger] id[i] == "messages"@[i] by {
        assert(found[i + 1] == named[i + 1]);
    }
    assert(id =~= "messages"@);
}

/// A complete whose id and lock token hold no slash reaches its message,
/// whatever they hold: an id may start with `messages`, or be that. One pair is
/// left out, the id `messages` under the lock token `head`, whose path is the
/// head of another queue.
pub proof fn a_complete_without_slashes_reaches_its_message(
    broker: Broker,
    caller: Caller,
    queue: Seq<char>,
    id: Seq<char>,
    lock: Seq<char>,
    resource: Seq<char>,
)
    requires
        forall|i: int| 0 <= i < id.len() ==> #[trigger] id[i] != '/',
        forall|i: int| 0 <= i < lock.len() ==> #[trigger] lock[i] != '/',
        id != "messages"@ || lock != "head"@,
    ensures
        session::answering(
            broker,
            client::complete_call(caller, queue, id, lock).request,
            Ok(resource),
        ) == session::completing(
            broker,
            queue,
            session::origin_spec(resource, queue),
            "/"@ + id + "/"@ + lock,
        ),
{
    an_id_without_a_slash_is_deliverable(id);
    if reads_as_head(id, lock) {
        lemma_head_without_slashes(id, lock);
    }
    a_complete_reaches_its_message(broker, caller, queue, id, lock, resource);
}

/// A session reads the wait that a peek-lock asked for: what it was told, or
/// the most that the service allows.
pub proof fn a_peek_lock_waits_as_long_as_it_asked(caller: Caller, queue: Seq<char>, wait: u8)
    ensures
        session::wait_asked(client::peek_lock_call(caller, queue, wait).request)
            == client::asked_wait(wait),
{
    number::lemma_decimal_reads_back(client::asked_wait(wait) as nat);
}

/// The origin that a session names is the resource that the token names,
/// where the endpoint is a scheme and an authority and nothing more.
pub proof fn an_origin_is_the_resource(endpoint: Seq<char>, queue: Seq<char>)
    requires
        is_origin(endpoint),
    ensures
        session::origin_spec(client::resource_spec(endpoint, queue), queue)
            == client::resource_spec(endpoint, queue),
{
    reveal_strlit("/");
    reveal_strlit("://");
    let resource = client::resource_spec(endpoint, queue);
    let at = text::find(endpoint, "://"@)->0;
    let (scheme, authority) = text::split_once_spec(endpoint, "://"@)->0;
    let holds = text::occurrences(endpoint, "://"@);
    text::lemma_least_holds(endpoint.len() + 1, holds);
    assert(holds(at));
    assert(endpoint.subrange(at, at + 3) == "://"@);
    let rest = authority + "/"@ + queue;
    let after = text::occurrences(resource, "://"@);
    assert(resource.subrange(at, at + 3) =~= "://"@);
    assert forall|j: int| 0 <= j < at implies !(#[trigger] after(j)) by {
        assert(!holds(j));
        if after(j) {
            assert(endpoint.subrange(j, j + 3) =~= resource.subrange(j, j + 3));
        }
    }
    text::lemma_least_is(resource.len() + 1, after, at);
    assert(resource.take(at) =~= scheme);
    assert(resource.skip(at + 3) =~= rest);
    let end = authority.len() as int;
    let slashes = text::occurrences(rest, "/"@);
    assert(rest.subrange(end, end + 1) =~= "/"@);
    assert forall|j: int| 0 <= j < end implies !(#[trigger] slashes(j)) by {
        assert(rest[j] == authority[j]);
        text::lemma_no_occurrence(rest, "/"@, j, 0);
    }
    text::lemma_least_is(rest.len() + 1, slashes, end);
    assert(rest.take(end) =~= authority);
    assert(endpoint =~= scheme + "://"@ + authority);
}

/// Whether an endpoint is a scheme and an authority, without a path.
pub open spec fn is_origin(endpoint: Seq<char>) -> bool {
    match text::split_once_spec(endpoint, "://"@) {
        Some((_, authority)) => forall|i: int|
            0 <= i < authority.len() ==> #[trigger] authority[i] != '/',
        None => false,
    }
}

/// One more header of another name hides no header.
proof fn lemma_header_named_beside(
    headers: Seq<(Seq<char>, Seq<char>)>,
    added: (Seq<char>, Seq<char>),
    name: Seq<char>,
)
    requires
        !text::same_but_case_spec(added.0, name),
    ensures
        message::header_named(headers.push(added), name) == message::header_named(headers, name),
    decreases headers.len(),
{
    if headers.len() == 0 {
        assert(headers.push(added).skip(1) =~= Seq::empty());
        assert(message::header_named(headers.push(added).skip(1), name) is None);
    } else {
        assert(headers.push(added).skip(1) =~= headers.skip(1).push(added));
        lemma_header_named_beside(headers.skip(1), added, name);
    }
}

/// A signature changes no answer: a request with one more header is answered
/// as it was without, unless that header is the one that properties travel in.
pub proof fn a_signature_changes_no_answer(
    broker: Broker,
    asked: Asked,
    added: (Seq<char>, Seq<char>),
    verified: Result<Seq<char>, Failure>,
)
    requires
        !text::same_but_case_spec(added.0, BROKER_PROPERTIES@),
    ensures
        session::answering(
            broker,
            Asked { headers: asked.headers.push(added), ..asked },
            verified,
        ) == session::answering(broker, asked, verified),
{
    lemma_header_named_beside(asked.headers, added, BROKER_PROPERTIES@);
}

/// A send of the near end names no properties.
pub proof fn lemma_send_call_names_no_properties(caller: Caller, queue: Seq<char>, bytes: Seq<u8>)
    ensures
        properties::properties_among(client::send_call(caller, queue, bytes).request.headers)
            == Ok::<Json, Failure>(Json::Object(Map::empty())),
{
    reveal_strlit("BrokerProperties");
    reveal_strlit("Content-Type");
    reveal_strlit("Host");
    let first = ("Content-Type"@, "application/octet-stream"@);
    let second = ("Host"@, caller.host);
    let headers = client::send_call(caller, queue, bytes).request.headers;
    let none = Seq::<(Seq<char>, Seq<char>)>::empty();
    assert(headers =~= none.push(first).push(second));
    lemma_header_named_beside(none, first, BROKER_PROPERTIES@);
    lemma_header_named_beside(none.push(first), second, BROKER_PROPERTIES@);
}

/// What a transport sends is held: whatever the bytes are, a message that the
/// transport does not refuse for its size is accepted, and is the last of the
/// queue that the target names, with those bytes.
pub proof fn what_is_sent_is_held(
    settings: Settings,
    host: Result<String, TransportError>,
    target: Seq<char>,
    bytes: Seq<u8>,
    broker: Broker,
)
    requires
        broker.next < u64::MAX,
    ensures
        transport::send_spec(settings, host, target, bytes) matches Ok(placed) ==> ({
            let queue = transport::resolve_spec(settings, target);
            let id = session::given_id(broker.next);
            let reply = session::answering(broker, placed.request, Ok(placed.resource));
            &&& reply.event == Happened::Sent(
                Stream {
                    origin_uri: session::uri_of(session::origin_spec(placed.resource, queue), id),
                    bytes,
                },
            )
            &&& client::done_spec(reply.answer) == Ok::<(), Failure>(())
            &&& session::held(reply.broker, queue) == session::held(broker, queue).push(
                Message { id, sequence: broker.next, body: bytes, lock: None },
            )
        }),
{
    if let Ok(placed) = transport::send_spec(settings, host, target, bytes) {
        let caller = transport::client_spec(settings, host)->Ok_0;
        let queue = transport::resolve_spec(settings, target);
        a_send_and_a_peek_lock_reach_their_queue(broker, caller, queue, bytes, 0, placed.resource);
        lemma_send_call_names_no_properties(caller, queue, bytes);
        reveal_strlit("MessageId");
    }
}

/// The loopback pair returns a payload whole: what a fresh near end at
/// `address` sends is the Stream that the far end takes, and its origin is the
/// queue's URL at that address.
pub proof fn the_loopback_returns_a_payload_whole(
    settings: Settings,
    address: Seq<char>,
    host: String,
    bytes: Seq<u8>,
    shown: Seq<char>,
)
    requires
        address.len() > 0,
        forall|i: int| 0 <= i < address.len() ==> #[trigger] address[i] != '/',
        bytes.len() <= CEILING,
    ensures
        ({
            let near = Settings { endpoint: "http://"@ + address, ..settings };
            let sent = transport::send_spec(near, Ok(host), ""@, bytes);
            &&& sent matches Ok(placed) && transport::take_one_spec(
                session::answering(
                    transport::session_spec(settings),
                    placed.request,
                    Ok(placed.resource),
                ).event,
                shown,
            ) == Ok::<Stream, Failure>(
                Stream {
                    origin_uri: session::uri_of(
                        client::resource_spec("http://"@ + address, settings.queue),
                        session::given_id(1),
                    ),
                    bytes,
                },
            )
        }),
{
    let endpoint = "http://"@ + address;
    let near = Settings { endpoint, ..settings };
    reveal_strlit("");
    reveal_strlit("://");
    reveal_strlit("http://");
    assert(endpoint.last() == address.last());
    assert(text::trim_end_matches_spec(endpoint, '/') == endpoint);
    what_is_sent_is_held(near, Ok(host), ""@, bytes, transport::session_spec(settings));
    let holds = text::occurrences(endpoint, "://"@);
    assert(endpoint.subrange(4, 7) =~= "://"@);
    assert forall|j: int| 0 <= j < 4 implies !(#[trigger] holds(j)) by {
        text::lemma_no_occurrence(endpoint, "://"@, j, 0);
    }
    text::lemma_least_is(endpoint.len() + 1, holds, 4);
    assert(endpoint.skip(7) =~= address);
    an_origin_is_the_resource(endpoint, settings.queue);
}

/// A refused request changes nothing: every queue holds what it held, and the
/// next number is the same.
pub proof fn a_refused_request_changes_nothing(
    broker: Broker,
    asked: Asked,
    verified: Result<Seq<char>, Failure>,
    queue: Seq<char>,
)
    ensures
        ({
            let reply = session::answering(broker, asked, verified);
            reply.event is Refused ==> session::held(reply.broker, queue) == session::held(
                broker,
                queue,
            ) && reply.broker.next == broker.next
        }),
{
}

/// An answer changes no queue but the one that the request names, and neither
/// the policy, the key nor the timeout.
pub proof fn an_answer_changes_one_queue(
    broker: Broker,
    asked: Asked,
    verified: Result<Seq<char>, Failure>,
    other: Seq<char>,
)
    requires
        session::called(asked) matches Some((queue, _)) ==> queue != other,
    ensures
        ({
            let after = session::answering(broker, asked, verified).broker;
            &&& session::held(after, other) == session::held(broker, other)
            &&& after.policy == broker.policy
            &&& after.key == broker.key
            &&& after.timeout == broker.timeout
        }),
{
}

/// A near end hears what happened: it takes an answer for a success exactly
/// where the session refused nothing, and what it reports of a refusal is the
/// status and the detail that the session refused with.
pub proof fn a_near_end_hears_what_happened(
    broker: Broker,
    asked: Asked,
    verified: Result<Seq<char>, Failure>,
)
    ensures
        ({
            let reply = session::answering(broker, asked, verified);
            match reply.event {
                Happened::Refused(code) => exists|status: u16, detail: Seq<char>|
                    code == rest::subcode_spec(detail) && client::done_spec(reply.answer) == Err::<
                        (),
                        Failure,
                    >(#[trigger] rest::answered(client::service(), status, detail)),
                _ => client::done_spec(reply.answer) == Ok::<(), Failure>(()),
            }
        }),
{
    let reply = session::answering(broker, asked, verified);
    if reply.event is Refused {
        let (status, detail) = why_refused(asked, verified);
        rest::an_error_is_judged_as_it_says(client::service(), status, detail);
        assert(reply.answer == rest::error_answer(status, detail));
        assert(client::done_spec(reply.answer) == Err::<(), Failure>(
            rest::answered(client::service(), status, detail),
        ));
    }
}

/// The status and the detail of the refusal that a request gets, where it gets
/// one.
spec fn why_refused(asked: Asked, verified: Result<Seq<char>, Failure>) -> (u16, Seq<char>) {
    match verified {
        Err(failure) => (401, failure.message),
        Ok(_) => match session::called(asked) {
            None => (404, "40400: Not a queue's messages"@),
            Some((_, rest)) => if asked.method == "POST"@ && rest == ""@ {
                if asked.body.len() > CEILING {
                    (
                        413,
                        "40000: A message is at most "@ + number::decimal_spec(CEILING as nat)
                            + " bytes"@,
                    )
                } else {
                    (
                        400,
                        "40000: "@ + properties::properties_among(
                            asked.headers,
                        )->Err_0.message,
                    )
                }
            } else if asked.method == "DELETE"@ {
                (404, "40400: No such message under that lock"@)
            } else {
                (405, "40500: Not one of the three calls"@)
            },
        },
    }
}

/// A request whose token is not verified is refused with what the verification
/// said, whatever it asks for, and the near end reports that with status 401.
pub proof fn a_bad_token_is_refused_with_its_reason(
    broker: Broker,
    asked: Asked,
    failure: Failure,
)
    ensures
        ({
            let reply = session::answering(broker, asked, Err(failure));
            &&& reply.broker == broker
            &&& reply.event == Happened::Refused(rest::subcode_spec(failure.message))
            &&& client::done_spec(reply.answer) == Err::<(), Failure>(
                rest::answered(client::service(), 401, failure.message),
            )
            &&& client::locked_spec(reply.answer) == Err::<Option<client::LockedMessage>, Failure>(
                rest::answered(client::service(), 401, failure.message),
            )
        }),
{
    rest::an_error_is_judged_as_it_says(client::service(), 401, failure.message);
}

/// The first message that is not locked is the oldest of those.
pub proof fn the_first_unlocked_message_is_the_oldest(broker: Broker, queue: Seq<char>, at: int)
    requires
        session::is_sound(broker),
        0 <= at < session::held(broker, queue).len(),
        session::held(broker, queue)[at].lock is None,
    ensures
        session::first_unlocked(session::held(broker, queue)) matches Some(first) && 0 <= first
            <= at && session::held(broker, queue)[first].sequence <= session::held(
            broker,
            queue,
        )[at].sequence,
{
    let messages = session::held(broker, queue);
    let holds = session::unlocked(messages);
    assert(holds(at));
    text::lemma_least_exists(messages.len(), holds, at);
    let first = session::first_unlocked(messages)->0;
    assert(session::stands(broker, queue, first));
    assert(session::stands(broker, queue, at));
}

/// A locked message is not offered again: a peek-lock leaves every message on
/// the queue, and those that were locked as they were.
pub proof fn a_locked_message_is_not_offered_again(
    broker: Broker,
    queue: Seq<char>,
    origin: Seq<char>,
    asked: Asked,
    at: int,
)
    requires
        0 <= at < session::held(broker, queue).len(),
    ensures
        ({
            let before = session::held(broker, queue);
            let after = session::held(
                session::peeking(broker, queue, origin, asked).broker,
                queue,
            );
            &&& after.len() == before.len()
            &&& after[at].id == before[at].id && after[at].body == before[at].body
            &&& before[at].lock is Some ==> after[at] == before[at]
        }),
{
    session::lemma_first_unlocked_stands(session::held(broker, queue));
}

/// No lock token is handed out twice: the one that a peek-lock hands out next
/// was not handed out before.
pub proof fn a_lock_token_is_new(next: u64)
    ensures
        !session::was_handed_out(session::lock_token(next), next),
{
    let lock = session::lock_token(next);
    if session::was_handed_out(lock, next) {
        let number = choose|number: u64| number < next && lock == #[trigger] session::lock_token(
            number,
        );
        session::lock_tokens_differ(number, next);
    }
}

/// Where a message was just locked, it is the one that its lock token names.
proof fn lemma_locked_is_found(broker: Broker, queue: Seq<char>, at: int)
    requires
        session::is_sound(broker),
        0 <= at < session::held(broker, queue).len(),
    ensures
        ({
            let messages = session::held(broker, queue);
            let lock = session::lock_token(broker.next);
            session::first_under_lock(
                messages.update(at, session::with_lock(messages[at], lock)),
                messages[at].id,
                lock,
            ) == Some(at)
        }),
{
    let messages = session::held(broker, queue);
    let lock = session::lock_token(broker.next);
    let locked = messages.update(at, session::with_lock(messages[at], lock));
    let holds = session::under_lock(locked, messages[at].id, lock);
    assert(holds(at));
    assert forall|j: int| 0 <= j < at implies !(#[trigger] holds(j)) by {
        assert(session::stands(broker, queue, j));
        if holds(j) {
            assert(session::was_handed_out(lock, broker.next));
            a_lock_token_is_new(broker.next);
        }
    }
    text::lemma_least_is(locked.len(), holds, at);
}

/// A lock completes its message and nothing else: once a peek-lock has handed
/// a message out, the complete that names its id and its lock token takes that
/// message off the queue and leaves the others as they were.
pub proof fn a_lock_completes_its_message_alone(
    broker: Broker,
    queue: Seq<char>,
    origin: Seq<char>,
    asked: Asked,
    at: int,
)
    requires
        session::is_sound(broker),
        broker.next < u64::MAX,
        session::first_unlocked(session::held(broker, queue)) == Some(at),
    ensures
        ({
            let messages = session::held(broker, queue);
            let id = messages[at].id;
            let rest = "/"@ + id + "/"@ + session::lock_token(broker.next);
            let peeked = session::peeking(broker, queue, origin, asked).broker;
            let reply = session::completing(peeked, queue, origin, rest);
            &&& reply.event == Happened::Completed(session::uri_of(origin, id))
            &&& reply.answer == session::bare(200)
            &&& reply.broker == (Broker {
                next: (broker.next + 1) as u64,
                ..session::holding(broker, queue, messages.remove(at))
            })
        }),
{
    let messages = session::held(broker, queue);
    let id = messages[at].id;
    let lock = session::lock_token(broker.next);
    let locked = messages.update(at, session::with_lock(messages[at], lock));
    let rest = "/"@ + id + "/"@ + lock;
    session::lemma_first_unlocked_stands(messages);
    lemma_locked_is_found(broker, queue, at);
    a_lock_token_names_no_path(id, broker.next);
    lemma_id_and_lock(id, lock);
    assert(locked.remove(at) =~= messages.remove(at));
    let reply = session::completing(
        session::peeking(broker, queue, origin, asked).broker,
        queue,
        origin,
        rest,
    );
    assert(reply.broker.queues =~= broker.queues.insert(queue, messages.remove(at)));
}

/// A lock that no message is held under is refused, and the near end is told
/// not to come back.
pub proof fn a_lapsed_lock_is_refused(
    broker: Broker,
    queue: Seq<char>,
    origin: Seq<char>,
    rest: Seq<char>,
)
    requires
        session::id_and_lock(rest) matches Some((id, lock)) ==> forall|i: int|
            0 <= i < session::held(broker, queue).len() ==> (#[trigger] session::held(
                broker,
                queue,
            )[i]).id != id || session::held(broker, queue)[i].lock != Some(lock),
    ensures
        ({
            let reply = session::completing(broker, queue, origin, rest);
            &&& reply.event == Happened::Refused("40400"@)
            &&& client::done_spec(reply.answer) == Err::<(), Failure>(
                Failure {
                    message: "Service Bus answered 404 40400: No such message under that lock"@,
                    retryable: false,
                },
            )
        }),
{
    let messages = session::held(broker, queue);
    let detail = "40400: No such message under that lock"@;
    if let Some((id, lock)) = session::id_and_lock(rest) {
        let holds = session::under_lock(messages, id, lock);
        assert forall|j: int| 0 <= j < messages.len() implies !(#[trigger] holds(j)) by {
            assert(messages[j].id != id || messages[j].lock != Some(lock));
        }
        text::lemma_least_is_none(messages.len(), holds);
    }
    rest::an_error_is_judged_as_it_says(client::service(), 404, detail);
    reveal_strlit("40400");
    reveal_strlit(" No such message under that lock");
    reveal_strlit("40400: No such message under that lock");
    reveal_strlit(":");
    assert(detail =~= "40400"@ + ":"@ + " No such message under that lock"@);
    rest::a_detail_opens_with_its_subcode("40400"@, " No such message under that lock"@);
    reveal_strlit("50002");
    text::lemma_no_occurrence(detail, "50002"@, 0, 0);
    reveal_strlit("Service Bus");
    reveal_strlit(" answered ");
    reveal_strlit(" ");
    reveal_strlit("Service Bus answered 404 40400: No such message under that lock");
    reveal_with_fuel(number::digits, 3);
    assert(number::decimal_spec(404) =~= seq!['4', '0', '4']);
    assert(rest::answered(client::service(), 404, detail).message
        =~= "Service Bus answered 404 40400: No such message under that lock"@);
}

/// The properties of a message that was just locked say its id, its lock token
/// and its sequence number.
proof fn lemma_locked_properties_say(id: Seq<char>, lock: Seq<char>, sequence: u64, body: Seq<u8>)
    ensures
        client::locked_from_spec(session::locked_properties(id, lock, sequence), body) == Ok::<
            client::LockedMessage,
            Failure,
        >(client::LockedMessage { id, lock_token: lock, sequence, body }),
{
    reveal_strlit("MessageId");
    reveal_strlit("LockToken");
    reveal_strlit("SequenceNumber");
    reveal_strlit("DeliveryCount");
    assert("MessageId"@[0] == 'M' && "LockToken"@[0] == 'L' && "SequenceNumber"@[0] == 'S'
        && "DeliveryCount"@[0] == 'D');
}

/// A message is read as it was handed out: where a session replies to a
/// peek-lock, the near end reads the first message that was not locked, with
/// the id, the lock token, the sequence number and the body that the session
/// holds; and none where there was none.
pub proof fn a_message_is_read_as_it_was_handed_out(
    broker: Broker,
    queue: Seq<char>,
    origin: Seq<char>,
    asked: Asked,
    after: Broker,
    event: Happened,
    answer: Answer,
)
    ensures
        session::is_reply(after, event, answer, session::peeking(broker, queue, origin, asked))
            ==> client::locked_spec(answer) == Ok::<Option<client::LockedMessage>, Failure>(
            match session::first_unlocked(session::held(broker, queue)) {
                Some(at) => Some(
                    client::LockedMessage {
                        id: session::held(broker, queue)[at].id,
                        lock_token: session::lock_token(broker.next),
                        sequence: session::held(broker, queue)[at].sequence,
                        body: session::held(broker, queue)[at].body,
                    },
                ),
                None => None,
            },
        ),
{
    let messages = session::held(broker, queue);
    if let Some(at) = session::first_unlocked(messages) {
        lemma_locked_properties_say(
            messages[at].id,
            session::lock_token(broker.next),
            messages[at].sequence,
            messages[at].body,
        );
    }
}

/// A receive hands back no more messages than it may: it goes on with fewer
/// than the most, and is over with no more than the most.
pub proof fn a_receive_hands_back_no_more_than_it_may(progress: Progress, answer: Answer)
    requires
        progress.arrived.len() < MAX_MESSAGES,
    ensures
        match receiving::step(progress, answer) {
            Ok(Came::More(further)) => further.arrived.len() < MAX_MESSAGES,
            Ok(Came::Done(streams)) => streams.len() <= MAX_MESSAGES,
            Err(_) => true,
        },
{
}

/// What was completed has become a Stream: once anything arrived, a peek-lock
/// that fails ends the receive with all that arrived, and so does a call that
/// brought no answer.
pub proof fn what_was_completed_is_handed_back(
    progress: Progress,
    answer: Answer,
    failure: Failure,
)
    requires
        progress.pending is None,
        progress.arrived.len() > 0,
    ensures
        client::locked_spec(answer) is Err ==> receiving::step(progress, answer) == Ok::<
            Came,
            Failure,
        >(Came::Done(progress.arrived)),
        receiving::step(progress, answer) is Ok,
        receiving::ended(progress, failure) == Ok::<Seq<Stream>, Failure>(progress.arrived),
{
}

/// A message that is completed becomes a Stream beside those that arrived, and
/// none that arrived is dropped as a receive goes on or comes to its end.
pub proof fn what_is_completed_becomes_a_stream(progress: Progress, answer: Answer)
    ensures
        match receiving::step(progress, answer) {
            Ok(Came::More(further)) => further.arrived == match further.pending {
                Some(_) => progress.arrived,
                None => progress.arrived.push(receiving::stream_of(progress, progress.pending->0)),
            },
            Ok(Came::Done(streams)) => streams == match progress.pending {
                Some(locked) => progress.arrived.push(receiving::stream_of(progress, locked)),
                None => progress.arrived,
            },
            Err(_) => progress.pending is Some || progress.arrived.len() == 0,
        },
{
}

/// A session that holds no message lists none, and one that holds some lists
/// some.
pub proof fn an_empty_session_lists_nothing(broker: Broker, entries: Seq<(Seq<char>, Seq<u8>)>)
    requires
        session::lists(broker, entries),
    ensures
        entries.len() == 0 <==> forall|queue: Seq<char>| #[trigger]
            session::held(broker, queue).len() == 0,
{
    if entries.len() > 0 {
        assert(session::is_listed(broker, entries[0]));
        let (queue, at) = choose|queue: Seq<char>, at: int| #[trigger]
            session::is_last_keyed(broker, queue, at, entries[0].0)
                && broker.queues[queue][at].body == entries[0].1;
        assert(session::is_keyed(broker, queue, at, entries[0].0));
        assert(session::held(broker, queue).len() > 0);
    }
    if exists|queue: Seq<char>| #[trigger] session::held(broker, queue).len() > 0 {
        let queue = choose|queue: Seq<char>| #[trigger] session::held(broker, queue).len() > 0;
        let key = session::uri_of(queue, broker.queues[queue][0].id);
        assert(session::is_keyed(broker, queue, 0, key));
    }
}

/// A peek-lock locks the oldest message of its queue that is not locked, and
/// that alone: where there is one it is answered 201 with that message's id,
/// sequence number and body, and every other message on every queue is as it
/// was. Where there is none, and only then, it is answered 204 with nothing, and
/// nothing changes.
pub proof fn a_peek_lock_locks_the_oldest_alone(
    broker: Broker,
    queue: Seq<char>,
    origin: Seq<char>,
    asked: Asked,
)
    requires
        session::is_sound(broker),
    ensures
        ({
            let messages = session::held(broker, queue);
            let reply = session::peeking(broker, queue, origin, asked);
            let lock = session::lock_token(broker.next);
            let wait = session::wait_asked(asked);
            match session::first_unlocked(messages) {
                Some(at) => {
                    &&& is_oldest_unlocked(messages, at)
                    &&& reply.answer.status == 201
                    &&& reply.answer.body == messages[at].body
                    &&& reply.carried == Some(
                        session::locked_properties(messages[at].id, lock, messages[at].sequence),
                    )
                    &&& reply.event == (Happened::Locked { queue, id: Some(messages[at].id), wait })
                    &&& session::held(reply.broker, queue) == messages.update(
                        at,
                        session::with_lock(messages[at], lock),
                    )
                },
                None => {
                    &&& forall|i: int|
                        0 <= i < messages.len() ==> (#[trigger] messages[i]).lock is Some
                    &&& reply.answer == session::bare(204)
                    &&& reply.event == (Happened::Locked { queue, id: None, wait })
                    &&& session::held(reply.broker, queue) == messages
                    &&& reply.broker.next == broker.next
                },
            }
        }),
        forall|other: Seq<char>|
            other != queue ==> #[trigger] session::held(
                session::peeking(broker, queue, origin, asked).broker,
                other,
            ) == session::held(broker, other),
{
    let messages = session::held(broker, queue);
    let holds = session::unlocked(messages);
    text::lemma_least_holds(messages.len(), holds);
    match session::first_unlocked(messages) {
        Some(at) => {
            assert(holds(at));
            assert forall|i: int|
                0 <= i < messages.len() && (#[trigger] messages[i]).lock is None implies
                messages[at].sequence <= messages[i].sequence by {
                the_first_unlocked_message_is_the_oldest(broker, queue, i);
            }
        },
        None => {
            assert forall|i: int| 0 <= i < messages.len() implies (#[trigger] messages[i]).lock
                is Some by {
                if messages[i].lock is None {
                    assert(holds(i));
                    text::lemma_least_exists(messages.len(), holds, i);
                }
            }
        },
    }
}

/// Whether the message at `at` is not locked, and none that is not locked was
/// sent before it.
pub open spec fn is_oldest_unlocked(messages: Seq<Message>, at: int) -> bool {
    &&& 0 <= at < messages.len()
    &&& messages[at].lock is None
    &&& forall|i: int|
        0 <= i < messages.len() && (#[trigger] messages[i]).lock is None ==> messages[at].sequence
            <= messages[i].sequence
}

/// Whether two sessions hold the same messages on the same queues, but for
/// their locks.
pub open spec fn holds_the_same(before: Broker, after: Broker) -> bool {
    forall|queue: Seq<char>|
        {
            &&& (#[trigger] session::held(after, queue)).len() == session::held(before, queue).len()
            &&& forall|at: int|
                0 <= at < session::held(before, queue).len() ==> (#[trigger] session::held(
                    after,
                    queue,
                )[at]).id == session::held(before, queue)[at].id && session::held(
                    after,
                    queue,
                )[at].body == session::held(before, queue)[at].body
        }
}

/// What is listed of one session is listed of another that holds the same.
proof fn lemma_lists_the_same(
    before: Broker,
    after: Broker,
    entries: Seq<(Seq<char>, Seq<u8>)>,
)
    requires
        holds_the_same(before, after),
        session::lists(before, entries),
    ensures
        session::lists(after, entries),
{
    assert forall|queue: Seq<char>, at: int, key: Seq<char>| #[trigger]
        session::is_keyed(after, queue, at, key) implies session::is_keyed(
        before,
        queue,
        at,
        key,
    ) by {
        assert(session::held(after, queue)[at].id == session::held(before, queue)[at].id);
    }
    assert forall|i: int| 0 <= i < entries.len() implies session::is_listed(
        after,
        #[trigger] entries[i],
    ) by {
        let entry = entries[i];
        assert(session::is_listed(before, entry));
        let (queue, at) = choose|queue: Seq<char>, at: int| #[trigger]
            session::is_last_keyed(before, queue, at, entry.0) && before.queues[queue][at].body
                == entry.1;
        assert(session::held(after, queue)[at].id == session::held(before, queue)[at].id);
        assert(session::is_last_keyed(after, queue, at, entry.0));
    }
}

/// A peek-lock, a refusal, and a request that finds nothing change no listing: a
/// locked message stays on its queue, with its id and its body, until it is
/// completed, and what is refused leaves no trace.
pub proof fn a_lock_or_a_refusal_changes_no_listing(
    broker: Broker,
    asked: Asked,
    verified: Result<Seq<char>, Failure>,
    entries: Seq<(Seq<char>, Seq<u8>)>,
)
    ensures
        ({
            let reply = session::answering(broker, asked, verified);
            (reply.event is Locked || reply.event is Refused) ==> holds_the_same(
                broker,
                reply.broker,
            ) && (session::lists(reply.broker, entries) <==> session::lists(broker, entries))
        }),
{
    let reply = session::answering(broker, asked, verified);
    if reply.event is Locked || reply.event is Refused {
        if let Some((queue, _)) = session::called(asked) {
            session::lemma_first_unlocked_stands(session::held(broker, queue));
        }
        assert(holds_the_same(broker, reply.broker));
        assert(holds_the_same(reply.broker, broker));
        if session::lists(broker, entries) {
            lemma_lists_the_same(broker, reply.broker, entries);
        }
        if session::lists(reply.broker, entries) {
            lemma_lists_the_same(reply.broker, broker, entries);
        }
    }
}

/// A refused send leaves the whole session as it was: no message is held or
/// locked for it, and the next message gets the number that it would have got.
pub proof fn a_refused_send_leaves_no_trace(
    broker: Broker,
    queue: Seq<char>,
    origin: Seq<char>,
    asked: Asked,
)
    ensures
        session::sending(broker, queue, origin, asked).event is Refused ==> session::sending(
            broker,
            queue,
            origin,
            asked,
        ).broker == broker,
{
}

/// An accepted send adds one message: it is not locked, holds the body that was
/// sent, stands behind every earlier one of its queue with a sequence number
/// above all that the session holds, and every other message and lock is as it
/// was.
pub proof fn an_accepted_send_adds_one_message(
    broker: Broker,
    queue: Seq<char>,
    origin: Seq<char>,
    asked: Asked,
)
    requires
        session::is_sound(broker),
    ensures
        ({
            let reply = session::sending(broker, queue, origin, asked);
            reply.event matches Happened::Sent(stream) ==> {
                let message = session::held(reply.broker, queue).last();
                &&& stream == (Stream {
                    origin_uri: session::uri_of(origin, message.id),
                    bytes: asked.body,
                })
                &&& session::held(reply.broker, queue) == session::held(broker, queue).push(message)
                &&& message.body == asked.body
                &&& message.lock is None
                &&& forall|other: Seq<char>, at: int| #[trigger]
                    session::stands(broker, other, at) ==> broker.queues[other][at].sequence
                        < message.sequence
                &&& forall|other: Seq<char>|
                    other != queue ==> #[trigger] session::held(reply.broker, other)
                        == session::held(broker, other)
            }
        }),
{
}

/// Two listings of one session are the same: what is listed is fixed by what is
/// held.
pub proof fn a_session_has_one_listing(
    broker: Broker,
    left: Seq<(Seq<char>, Seq<u8>)>,
    right: Seq<(Seq<char>, Seq<u8>)>,
)
    requires
        session::lists(broker, left),
        session::lists(broker, right),
    ensures
        left == right,
{
    lemma_listed_in(broker, left, right);
    lemma_listed_in(broker, right, left);
    listing::lemma_ascending_is_one(left, right);
}

/// What one listing of a session holds, another does.
proof fn lemma_listed_in(
    broker: Broker,
    left: Seq<(Seq<char>, Seq<u8>)>,
    right: Seq<(Seq<char>, Seq<u8>)>,
)
    requires
        session::lists(broker, left),
        session::lists(broker, right),
    ensures
        forall|i: int| 0 <= i < left.len() ==> right.contains(#[trigger] left[i]),
{
    assert forall|i: int| 0 <= i < left.len() implies right.contains(#[trigger] left[i]) by {
        let entry = left[i];
        assert(session::is_listed(broker, entry));
        let (queue, at) = choose|queue: Seq<char>, at: int| #[trigger]
            session::is_last_keyed(broker, queue, at, entry.0) && broker.queues[queue][at].body
                == entry.1;
        assert(session::is_keyed(broker, queue, at, entry.0));
        let j = choose|j: int| 0 <= j < right.len() && (#[trigger] right[j]).0 == entry.0;
        lemma_one_source(broker, entry, right[j]);
        assert(right[j] == entry);
    }
}

/// Two entries of one key are the same message.
proof fn lemma_one_source(
    broker: Broker,
    left: (Seq<char>, Seq<u8>),
    right: (Seq<char>, Seq<u8>),
)
    requires
        session::is_listed(broker, left),
        session::is_listed(broker, right),
        left.0 == right.0,
    ensures
        left == right,
{
    let (queue, at) = choose|queue: Seq<char>, at: int| #[trigger]
        session::is_last_keyed(broker, queue, at, left.0) && broker.queues[queue][at].body
            == left.1;
    let (other, i) = choose|queue: Seq<char>, at: int| #[trigger]
        session::is_last_keyed(broker, queue, at, right.0) && broker.queues[queue][at].body
            == right.1;
    assert(session::is_keyed(broker, queue, at, left.0));
    assert(session::is_keyed(broker, other, i, left.0));
    text::lemma_before_is_total(queue, other);
    text::lemma_before_is_total(other, queue);
}

/// An accepted send is listed: the listing is the one before, with the body that
/// was sent under the key of its queue and its id. Left out is a send whose key
/// reads as that of a message on a queue that comes after, which is the one that
/// is listed.
pub proof fn what_is_sent_is_listed(
    broker: Broker,
    queue: Seq<char>,
    origin: Seq<char>,
    asked: Asked,
    before: Seq<(Seq<char>, Seq<u8>)>,
    after: Seq<(Seq<char>, Seq<u8>)>,
)
    ensures
        ({
            let reply = session::sending(broker, queue, origin, asked);
            let key = sent_key(broker, queue, origin, asked);
            reply.event is Sent && session::lists(broker, before) && session::lists(
                reply.broker,
                after,
            ) && !is_shadowed(broker, queue, key) ==> listing::is_put(
                before,
                after,
                key,
                asked.body,
            )
        }),
{
    let now = session::sending(broker, queue, origin, asked).broker;
    let key = sent_key(broker, queue, origin, asked);
    let entry = (key, asked.body);
    if session::sending(broker, queue, origin, asked).event is Sent && session::lists(
        broker,
        before,
    ) && session::lists(now, after) && !is_shadowed(broker, queue, key) {
        let last = session::held(broker, queue).len() as int;
        assert(session::is_keyed(now, queue, last, key));
        assert forall|other: Seq<char>, at: int, named: Seq<char>| #[trigger]
            session::is_keyed(now, other, at, named) implies session::is_keyed(
            broker,
            other,
            at,
            named,
        ) || (other == queue && at == last && named == key) by {}
        assert forall|other: Seq<char>, at: int, named: Seq<char>| #[trigger]
            session::is_keyed(broker, other, at, named) implies session::is_keyed(
            now,
            other,
            at,
            named,
        ) by {}
        assert(session::is_last_keyed(now, queue, last, key)) by {
            assert forall|other: Seq<char>, i: int| #[trigger]
                session::is_keyed(now, other, i, key) implies text::before(other, queue) || (other
                == queue && i <= last) by {
                text::lemma_before_is_total(queue, other);
                if !(other == queue && i == last) {
                    assert(session::is_keyed(broker, other, i, key));
                }
            }
        }
        assert(now.queues[queue][last].body == asked.body);
        assert(session::is_listed(now, entry));
        let j = choose|j: int| 0 <= j < after.len() && (#[trigger] after[j]).0 == key;
        lemma_one_source(now, entry, after[j]);
        assert(after.contains(entry));
        assert forall|i: int| 0 <= i < after.len() && (#[trigger] after[i]) != entry implies
            after[i].0 != key && before.contains(after[i]) by {
            let found = after[i];
            assert(session::is_listed(now, found));
            if found.0 == key {
                lemma_one_source(now, entry, found);
            }
            let (other, at) = choose|other: Seq<char>, at: int| #[trigger]
                session::is_last_keyed(now, other, at, found.0) && now.queues[other][at].body
                    == found.1;
            assert(session::is_keyed(broker, other, at, found.0));
            assert(session::is_last_keyed(broker, other, at, found.0));
            assert(session::is_listed(broker, found));
            let k = choose|k: int| 0 <= k < before.len() && (#[trigger] before[k]).0 == found.0;
            lemma_one_source(broker, found, before[k]);
            assert(before[k] == found);
        }
        assert forall|k: int| 0 <= k < before.len() implies listing::has_key(
            after,
            (#[trigger] before[k]).0,
        ) by {
            let found = before[k];
            assert(session::is_listed(broker, found));
            let (other, at) = choose|other: Seq<char>, at: int| #[trigger]
                session::is_last_keyed(broker, other, at, found.0) && broker.queues[other][at].body
                    == found.1;
            assert(session::is_keyed(broker, other, at, found.0));
            assert(session::is_keyed(now, other, at, found.0));
        }
    }
}

/// Whether a message on a queue that comes after another has a key.
pub open spec fn is_shadowed(broker: Broker, queue: Seq<char>, key: Seq<char>) -> bool {
    exists|other: Seq<char>, at: int| #[trigger]
        session::is_keyed(broker, other, at, key) && text::before(queue, other)
}

/// The key that a send is listed under: its queue's name, and the id that it
/// gets.
pub open spec fn sent_key(
    broker: Broker,
    queue: Seq<char>,
    origin: Seq<char>,
    asked: Asked,
) -> Seq<char> {
    session::uri_of(
        queue,
        session::held(session::sending(broker, queue, origin, asked).broker, queue).last().id,
    )
}

/// An endpoint that is no HTTP URL is refused by the first call that is made
/// through it, with the reason that it is none: a receive, a client, and a send
/// of what a message holds.
pub proof fn an_endpoint_that_is_no_url_fails_the_first_call(
    settings: Settings,
    reason: TransportError,
    target: Seq<char>,
    bytes: Seq<u8>,
)
    ensures
        transport::client_spec(settings, Err(reason)) == Err::<Caller, Failure>(reason@),
        transport::receive_spec(settings, Err(reason)) == Err::<Progress, Failure>(reason@),
        bytes.len() <= CEILING ==> transport::send_spec(settings, Err(reason), target, bytes)
            == Err::<client::Placed, Failure>(reason@),
{
}

} // verus!
