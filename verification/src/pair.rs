//! A near end and a far end with no wire between them: every call of the one
//! is answered by the other, its token taken as verified for the resource that
//! the call is about.

use crate::client::{self, Call, Caller};
use crate::error::{Arrived, Stream, TransportError};
use crate::laws;
use crate::message::{Answer, Response};
use crate::number;
use crate::receiving::{self, Came, Progress, Receiving, Step};
use crate::session::{self, Broker, Event, Happened, Message, Session, Token};
use crate::text;
use crate::{CEILING, MAX_MESSAGES};
use vstd::prelude::*;
use vstd::string::*;

verus! {

/// The messages that are not locked, in their order.
pub open spec fn ready(messages: Seq<Message>) -> Seq<Message> {
    messages.filter(|message: Message| message.lock is None)
}

/// The messages that are locked, in their order.
pub open spec fn under_locks(messages: Seq<Message>) -> Seq<Message> {
    messages.filter(|message: Message| message.lock is Some)
}

/// How many messages one receive takes.
pub open spec fn count(messages: Seq<Message>) -> nat {
    if ready(messages).len() < MAX_MESSAGES {
        ready(messages).len()
    } else {
        MAX_MESSAGES as nat
    }
}

/// The Streams that one receive hands back: the first messages that are not
/// locked, in their order.
pub open spec fn received(caller: Caller, queue: Seq<char>, messages: Seq<Message>) -> Seq<Stream> {
    Seq::new(
        count(messages),
        |i: int| as_received(caller, queue, ready(messages)[i]),
    )
}

/// A message as the Stream that it becomes.
pub open spec fn as_received(caller: Caller, queue: Seq<char>, message: Message) -> Stream {
    Stream {
        origin_uri: session::uri_of(client::resource_spec(caller.endpoint, queue), message.id),
        bytes: message.body,
    }
}

/// What is left once the first `taken` of the messages that are not locked
/// are gone.
pub open spec fn left(messages: Seq<Message>, taken: nat) -> Seq<Message>
    decreases taken,
{
    if taken == 0 {
        messages
    } else {
        let before = left(messages, (taken - 1) as nat);
        match session::first_unlocked(before) {
            Some(at) => before.remove(at),
            None => before,
        }
    }
}

/// Where no message meets a condition, none is kept.
proof fn lemma_none_kept(messages: Seq<Message>, kept: spec_fn(Message) -> bool)
    requires
        forall|i: int| 0 <= i < messages.len() ==> !(#[trigger] kept(messages[i])),
    ensures
        messages.filter(kept) == Seq::<Message>::empty(),
    decreases messages.len(),
{
    reveal(Seq::filter);
    if messages.len() > 0 {
        let shorter = messages.drop_last();
        assert forall|i: int| 0 <= i < shorter.len() implies !(#[trigger] kept(shorter[i])) by {
            assert(kept(shorter[i]) == kept(messages[i]));
        }
        lemma_none_kept(shorter, kept);
        assert(!kept(messages[messages.len() - 1]));
    }
}

/// What is kept of messages is what is kept of those before one, that one
/// where it is kept, and what is kept of those after it.
proof fn lemma_kept_around(messages: Seq<Message>, at: int, kept: spec_fn(Message) -> bool)
    requires
        0 <= at < messages.len(),
    ensures
        messages.remove(at).filter(kept) == messages.take(at).filter(kept) + messages.skip(
            at + 1,
        ).filter(kept),
        messages.filter(kept) == messages.take(at).filter(kept) + (if kept(messages[at]) {
            seq![messages[at]]
        } else {
            Seq::empty()
        }) + messages.skip(at + 1).filter(kept),
{
    let head = messages.take(at);
    let one = seq![messages[at]];
    let tail = messages.skip(at + 1);
    assert(messages =~= (head + one) + tail);
    assert(messages.remove(at) =~= head + tail);
    Seq::filter_distributes_over_add(head + one, tail, kept);
    Seq::filter_distributes_over_add(head, one, kept);
    Seq::filter_distributes_over_add(head, tail, kept);
    reveal(Seq::filter);
    assert(one.drop_last() =~= Seq::empty());
    assert(one.drop_last().filter(kept) =~= Seq::empty());
    assert(one.filter(kept) =~= (if kept(messages[at]) {
        seq![messages[at]]
    } else {
        Seq::empty()
    }));
}

/// The first message that is not locked is the first of those, and without it
/// the rest of those and all that are locked stay.
proof fn lemma_first_ready(messages: Seq<Message>)
    ensures
        match session::first_unlocked(messages) {
            Some(at) => {
                &&& 0 <= at < messages.len()
                &&& ready(messages).len() > 0
                &&& ready(messages)[0] == messages[at]
                &&& ready(messages.remove(at)) == ready(messages).skip(1)
                &&& under_locks(messages.remove(at)) == under_locks(messages)
            },
            None => ready(messages).len() == 0,
        },
{
    let unlocked = |message: Message| message.lock is None;
    let locked = |message: Message| message.lock is Some;
    let holds = session::unlocked(messages);
    text::lemma_least_holds(messages.len(), holds);
    match session::first_unlocked(messages) {
        Some(at) => {
            assert(holds(at));
            let head = messages.take(at);
            assert forall|i: int| 0 <= i < head.len() implies !(#[trigger] unlocked(head[i])) by {
                assert(!holds(i));
            }
            lemma_none_kept(head, unlocked);
            lemma_kept_around(messages, at, unlocked);
            lemma_kept_around(messages, at, locked);
            assert(ready(messages) =~= seq![messages[at]] + messages.skip(at + 1).filter(unlocked));
            assert(ready(messages.remove(at)) =~= ready(messages).skip(1));
            assert(under_locks(messages.remove(at)) =~= under_locks(messages));
        },
        None => {
            assert forall|i: int| 0 <= i < messages.len() implies !(#[trigger] unlocked(
                messages[i],
            )) by {
                if unlocked(messages[i]) {
                    assert(holds(i));
                    text::lemma_least_exists(messages.len(), holds, i);
                }
            }
            lemma_none_kept(messages, unlocked);
        },
    }
}

/// What is left is ready but for what was taken, and all that is locked.
proof fn lemma_left(messages: Seq<Message>, taken: nat)
    requires
        taken <= ready(messages).len(),
    ensures
        ready(left(messages, taken)) == ready(messages).skip(taken as int),
        under_locks(left(messages, taken)) == under_locks(messages),
    decreases taken,
{
    if taken > 0 {
        let before = left(messages, (taken - 1) as nat);
        lemma_left(messages, (taken - 1) as nat);
        lemma_first_ready(before);
        assert(ready(messages).skip(taken - 1).skip(1) =~= ready(messages).skip(taken as int));
    } else {
        assert(ready(messages).skip(0) =~= ready(messages));
    }
}

/// What is received is gone, and nothing else is: what is left of a queue is
/// the messages that were locked, and those past the first that one receive
/// takes.
pub proof fn what_is_received_is_gone(messages: Seq<Message>)
    ensures
        under_locks(left(messages, count(messages))) == under_locks(messages),
        ready(left(messages, count(messages))) == ready(messages).skip(count(messages) as int),
{
    lemma_left(messages, count(messages));
}

/// A session from whose queue the first `taken` messages that were not locked
/// are gone, each under a lock token of its own.
pub open spec fn taken_from(broker: Broker, queue: Seq<char>, taken: nat) -> Broker {
    Broker {
        next: (broker.next + taken) as u64,
        ..session::holding(broker, queue, left(session::held(broker, queue), taken))
    }
}

/// Whether a session is as it was once some messages are gone from its queue,
/// up to whether it was asked about that queue.
spec fn is_taken_from(now: Broker, broker: Broker, queue: Seq<char>, taken: nat) -> bool {
    session::holding(now, queue, session::held(now, queue)) == taken_from(broker, queue, taken)
}

/// Where a receive stands after some messages: the next is not yet locked, or
/// it is and the session says so.
spec fn is_on_its_way(progress: Progress, now: Broker, broker: Broker, queue: Seq<char>) -> bool {
    let messages = session::held(broker, queue);
    let taken = progress.arrived.len();
    &&& progress.queue == queue
    &&& taken < MAX_MESSAGES
    &&& taken <= ready(messages).len()
    &&& progress.arrived == received(progress.caller, queue, messages).take(taken as int)
    &&& match progress.pending {
        None => is_taken_from(now, broker, queue, taken),
        Some(locked) => {
            let before = taken_from(broker, queue, taken);
            let at = session::first_unlocked(session::held(before, queue));
            &&& at is Some
            &&& taken < ready(messages).len()
            &&& session::is_sound(before)
            &&& locked.id == ready(messages)[taken as int].id
            &&& locked.body == ready(messages)[taken as int].body
            &&& locked.lock_token == session::lock_token(before.next)
            &&& now == after_peek(before, queue, at->0)
        },
    }
}

/// A session once it locked the message at `at`.
spec fn after_peek(broker: Broker, queue: Seq<char>, at: int) -> Broker {
    let messages = session::held(broker, queue);
    Broker {
        next: (broker.next + 1) as u64,
        ..session::holding(
            broker,
            queue,
            messages.update(
                at,
                session::with_lock(messages[at], session::lock_token(broker.next)),
            ),
        )
    }
}

/// The answer to a peek-lock brings a receive on its way one call further, or
/// ends it where the queue has no more.
proof fn lemma_peeked(
    progress: Progress,
    now: Broker,
    broker: Broker,
    queue: Seq<char>,
    after: Broker,
    event: Happened,
    answer: Answer,
)
    requires
        is_on_its_way(progress, now, broker, queue),
        progress.pending is None,
        broker.next + MAX_MESSAGES < u64::MAX,
        session::is_sound(now),
        session::is_reply(
            after,
            event,
            answer,
            session::answering(
                now,
                receiving::next_call(progress).request,
                Ok(receiving::next_call(progress).resource),
            ),
        ),
    ensures
        match receiving::step(progress, answer) {
            Ok(Came::More(further)) => further.pending is Some && further.caller == progress.caller
                && is_on_its_way(further, after, broker, queue),
            Ok(Came::Done(streams)) => streams == received(
                progress.caller,
                queue,
                session::held(broker, queue),
            ) && after == taken_from(broker, queue, count(session::held(broker, queue))),
            Err(_) => false,
        },
{
    let messages = session::held(broker, queue);
    let taken = progress.arrived.len();
    let before = taken_from(broker, queue, taken);
    let call = receiving::next_call(progress);
    let origin = session::origin_spec(call.resource, queue);
    assert(now.next == before.next);
    assert(session::held(now, queue) == left(messages, taken)) by {
        assert(session::holding(now, queue, session::held(now, queue)).queues[queue]
            == before.queues[queue]);
    }
    assert(session::held(before, queue) == left(messages, taken));
    session::lemma_sound_when_asked(now, queue);
    laws::a_send_and_a_peek_lock_reach_their_queue(
        now,
        progress.caller,
        queue,
        Seq::empty(),
        progress.wait,
        call.resource,
    );
    laws::a_message_is_read_as_it_was_handed_out(
        now,
        queue,
        origin,
        call.request,
        after,
        event,
        answer,
    );
    lemma_left(messages, taken);
    lemma_first_ready(left(messages, taken));
    if let Some(at) = session::first_unlocked(left(messages, taken)) {
        assert(ready(messages).skip(taken as int)[0] == ready(messages)[taken as int]);
        assert(after.queues =~= after_peek(before, queue, at).queues) by {
            assert(before.queues == now.queues.insert(queue, left(messages, taken)));
        }
    } else {
        assert(received(progress.caller, queue, messages).take(taken as int) =~= received(
            progress.caller,
            queue,
            messages,
        ));
    }
}

/// The answer to a complete brings a receive on its way one message further,
/// or ends it where that was the last that it takes.
proof fn lemma_completed(
    progress: Progress,
    now: Broker,
    broker: Broker,
    queue: Seq<char>,
    after: Broker,
    event: Happened,
    answer: Answer,
)
    requires
        is_on_its_way(progress, now, broker, queue),
        progress.pending is Some,
        laws::is_deliverable(progress.pending->0.id),
        broker.next + MAX_MESSAGES < u64::MAX,
        session::is_reply(
            after,
            event,
            answer,
            session::answering(
                now,
                receiving::next_call(progress).request,
                Ok(receiving::next_call(progress).resource),
            ),
        ),
    ensures
        match receiving::step(progress, answer) {
            Ok(Came::More(further)) => further.pending is None && further.caller == progress.caller
                && is_on_its_way(further, after, broker, queue),
            Ok(Came::Done(streams)) => streams == received(
                progress.caller,
                queue,
                session::held(broker, queue),
            ) && after == taken_from(broker, queue, count(session::held(broker, queue))),
            Err(_) => false,
        },
{
    let messages = session::held(broker, queue);
    let taken = progress.arrived.len();
    let before = taken_from(broker, queue, taken);
    let at = session::first_unlocked(session::held(before, queue))->0;
    let call = receiving::next_call(progress);
    let origin = session::origin_spec(call.resource, queue);
    let id = progress.pending->0.id;
    assert(session::held(before, queue) == left(messages, taken));
    lemma_left(messages, taken);
    lemma_first_ready(left(messages, taken));
    assert(ready(messages).skip(taken as int)[0] == ready(messages)[taken as int]);
    laws::a_lock_token_names_no_path(id, before.next);
    laws::a_complete_reaches_its_message(
        now,
        progress.caller,
        queue,
        id,
        progress.pending->0.lock_token,
        call.resource,
    );
    laws::a_lock_completes_its_message_alone(before, queue, origin, call.request, at);
    assert(left(messages, taken + 1) == left(messages, taken).remove(at));
    assert(after.queues =~= taken_from(broker, queue, taken + 1).queues);
    assert(after == taken_from(broker, queue, taken + 1));
    let all = received(progress.caller, queue, messages);
    let stream = receiving::stream_of(progress, progress.pending->0);
    assert(all.take(taken as int + 1) =~= all.take(taken as int).push(stream));
    assert(session::holding(after, queue, session::held(after, queue)).queues =~= after.queues);
    assert(all.take(all.len() as int) =~= all);
}

/// The answer that a session gives to a call, whose token is taken as verified
/// for the resource that the call is about.
pub fn exchange(call: Call, session: &mut Session) -> (reply: (Event, Response))
    requires
        old(session).wf(),
        session::may_take_a_number(old(session)@, call@.request, Ok(call@.resource)) ==> old(
            session,
        )@.next < u64::MAX,
    ensures
        final(session).wf(),
        session::is_reply(
            final(session)@,
            reply.0@,
            reply.1@,
            session::answering(old(session)@, call@.request, Ok(call@.resource)),
        ),
{
    session.answer(&call.request, Ok(Token { resource: call.resource }))
}

/// Carry a receive through: the Streams are the first messages on the queue
/// that are not locked, `MAX_MESSAGES` at most, in the order they were sent and
/// with the bytes they were sent with, and those messages are gone from the
/// session.
pub fn receive(receiving: Receiving, session: &mut Session) -> (result: Result<
    Vec<Arrived>,
    TransportError,
>)
    requires
        old(session).wf(),
        old(session)@.next + MAX_MESSAGES < u64::MAX,
        receiving@ == receiving::starting(
            receiving@.caller,
            receiving@.queue,
            receiving@.wait,
        ),
        forall|i: int|
            0 <= i < count(session::held(old(session)@, receiving@.queue))
                ==> laws::is_deliverable(
                (#[trigger] ready(session::held(old(session)@, receiving@.queue))[i]).id,
            ),
    ensures
        final(session).wf(),
        final(session)@ == taken_from(
            old(session)@,
            receiving@.queue,
            count(session::held(old(session)@, receiving@.queue)),
        ),
        match result {
            Ok(arrived) => receiving::streams(arrived@) == received(
                receiving@.caller,
                receiving@.queue,
                session::held(old(session)@, receiving@.queue),
            ),
            Err(_) => false,
        },
{
    let ghost broker = session@;
    let ghost queue = receiving@.queue;
    let ghost caller = receiving@.caller;
    let ghost messages = session::held(broker, queue);
    let mut current = receiving;
    proof {
        assert(is_taken_from(broker, broker, queue, 0));
        assert(received(caller, queue, messages).take(0) =~= Seq::empty());
    }
    loop
        invariant
            session.wf(),
            broker == old(session)@,
            queue == receiving@.queue,
            caller == receiving@.caller,
            broker.next + MAX_MESSAGES < u64::MAX,
            current@.caller == caller,
            messages == session::held(broker, queue),
            is_on_its_way(current@, session@, broker, queue),
            forall|i: int|
                0 <= i < count(messages) ==> laws::is_deliverable(
                    (#[trigger] ready(messages)[i]).id,
                ),
        decreases
            MAX_MESSAGES - current@.arrived.len(),
            if current@.pending is None {
                1int
            } else {
                0int
            },
    {
        let ghost progress = current@;
        let ghost now = session@;
        proof {
            session.holds_what_is_sound();
        }
        let (event, response) = exchange(current.call(), session);
        proof {
            if progress.pending is None {
                lemma_peeked(progress, now, broker, queue, session@, event@, response@);
            } else {
                lemma_completed(progress, now, broker, queue, session@, event@, response@);
            }
        }
        match current.answered(response) {
            Ok(Step::More(further)) => current = further,
            Ok(Step::Done(arrived)) => return Ok(arrived),
            Err(failure) => return Err(failure),
        }
    }
}

/// A session once a near end has sent it bodies, one after another.
pub open spec fn after_sends(
    broker: Broker,
    caller: Caller,
    queue: Seq<char>,
    bodies: Seq<Seq<u8>>,
) -> Broker
    decreases bodies.len(),
{
    if bodies.len() == 0 {
        broker
    } else {
        let call = client::send_call(caller, queue, bodies.last());
        session::answering(
            after_sends(broker, caller, queue, bodies.drop_last()),
            call.request,
            Ok(call.resource),
        ).broker
    }
}

/// Bodies as the messages that they become from a number on.
pub open spec fn as_sent(next: u64, bodies: Seq<Seq<u8>>) -> Seq<Message> {
    Seq::new(
        bodies.len(),
        |i: int|
            Message {
                id: session::given_id((next + i) as u64),
                sequence: (next + i) as u64,
                body: bodies[i],
                lock: None,
            },
    )
}

/// Bodies sent one after another stand on their queue in that order.
proof fn lemma_sent(broker: Broker, caller: Caller, queue: Seq<char>, bodies: Seq<Seq<u8>>)
    requires
        broker.next + bodies.len() < u64::MAX,
        forall|i: int| 0 <= i < bodies.len() ==> (#[trigger] bodies[i]).len() <= CEILING,
    ensures
        ({
            let after = after_sends(broker, caller, queue, bodies);
            &&& after.next == broker.next + bodies.len()
            &&& session::held(after, queue) == session::held(broker, queue) + as_sent(
                broker.next,
                bodies,
            )
        }),
    decreases bodies.len(),
{
    if bodies.len() > 0 {
        let shorter = bodies.drop_last();
        let body = bodies[bodies.len() - 1];
        let before = after_sends(broker, caller, queue, shorter);
        assert forall|i: int| 0 <= i < shorter.len() implies (#[trigger] shorter[i]).len()
            <= CEILING by {
            assert(bodies[i].len() <= CEILING);
        }
        lemma_sent(broker, caller, queue, shorter);
        let call = client::send_call(caller, queue, body);
        laws::a_send_and_a_peek_lock_reach_their_queue(
            before,
            caller,
            queue,
            body,
            0,
            call.resource,
        );
        laws::lemma_send_call_names_no_properties(caller, queue, body);
        let after = after_sends(broker, caller, queue, bodies);
        assert(session::held(after, queue) =~= session::held(broker, queue) + as_sent(
            broker.next,
            bodies,
        ));
    } else {
        assert(session::held(broker, queue) + as_sent(broker.next, bodies) =~= session::held(
            broker,
            queue,
        ));
    }
}

/// The id that a message gets whose sender chose none can stand in the path of
/// a complete.
pub proof fn a_given_id_is_deliverable(number: u64)
    ensures
        laws::is_deliverable(session::given_id(number)),
{
    let id = session::given_id(number);
    let hex = number::hex_spec(number as nat);
    number::lemma_hex_holds_digits(number as nat);
    reveal_strlit("-xmip");
    assert forall|i: int| 0 <= i < id.len() implies #[trigger] id[i] != '/' by {
        if i < hex.len() {
            assert(id[i] == hex[i]);
        }
    }
    laws::an_id_without_a_slash_is_deliverable(id);
}

/// Where no message is locked, all are ready.
proof fn lemma_all_ready(messages: Seq<Message>)
    requires
        forall|i: int| 0 <= i < messages.len() ==> (#[trigger] messages[i]).lock is None,
    ensures
        ready(messages) == messages,
        under_locks(messages) == Seq::<Message>::empty(),
    decreases messages.len(),
{
    let locked = |message: Message| message.lock is Some;
    assert forall|i: int| 0 <= i < messages.len() implies !(#[trigger] locked(messages[i])) by {
        assert(messages[i].lock is None);
    }
    lemma_none_kept(messages, locked);
    reveal(Seq::filter);
    if messages.len() > 0 {
        let shorter = messages.drop_last();
        assert forall|i: int| 0 <= i < shorter.len() implies (#[trigger] shorter[i]).lock
            is None by {
            assert(messages[i].lock is None);
        }
        lemma_all_ready(shorter);
        assert(messages[messages.len() - 1].lock is None);
        assert(messages =~= shorter.push(messages.last()));
    }
}

/// Where no message is locked, and one receive takes all, nothing is left.
proof fn lemma_nothing_left(messages: Seq<Message>)
    requires
        forall|i: int| 0 <= i < messages.len() ==> (#[trigger] messages[i]).lock is None,
        messages.len() <= MAX_MESSAGES,
    ensures
        left(messages, count(messages)).len() == 0,
{
    lemma_all_ready(messages);
    what_is_received_is_gone(messages);
    let rest = left(messages, count(messages));
    if rest.len() > 0 {
        let unlocked = |message: Message| message.lock is None;
        let locked = |message: Message| message.lock is Some;
        lemma_kept_around(rest, 0, unlocked);
        lemma_kept_around(rest, 0, locked);
        assert(rest.filter(unlocked) == ready(rest));
        assert(rest.filter(locked) == under_locks(rest));
        assert(ready(rest).len() == 0);
        assert(under_locks(rest).len() == 0);
        if unlocked(rest[0]) {
            assert(rest.filter(unlocked).len() >= 1);
        } else {
            assert(locked(rest[0]));
            assert(rest.filter(locked).len() >= 1);
        }
    }
}

/// What is sent to a queue that holds nothing is received back and completed:
/// one receive hands back the first bodies, `MAX_MESSAGES` at most, whole and in
/// the order they were sent, each with an id that can be completed; and where
/// there were no more, the queue holds nothing again.
pub proof fn what_is_sent_is_received_back(
    broker: Broker,
    caller: Caller,
    queue: Seq<char>,
    bodies: Seq<Seq<u8>>,
)
    requires
        session::held(broker, queue).len() == 0,
        broker.next + bodies.len() < u64::MAX,
        forall|i: int| 0 <= i < bodies.len() ==> (#[trigger] bodies[i]).len() <= CEILING,
    ensures
        ({
            let messages = session::held(after_sends(broker, caller, queue, bodies), queue);
            let streams = received(caller, queue, messages);
            &&& streams.len() == if bodies.len() < MAX_MESSAGES {
                bodies.len()
            } else {
                MAX_MESSAGES as nat
            }
            &&& forall|i: int|
                0 <= i < streams.len() ==> (#[trigger] streams[i]).bytes == bodies[i]
                    && streams[i].origin_uri == session::uri_of(
                    client::resource_spec(caller.endpoint, queue),
                    session::given_id((broker.next + i) as u64),
                )
            &&& forall|i: int|
                0 <= i < messages.len() ==> laws::is_deliverable((#[trigger] ready(messages)[i]).id)
            &&& bodies.len() <= MAX_MESSAGES ==> left(messages, count(messages)).len() == 0
        }),
{
    lemma_sent(broker, caller, queue, bodies);
    let messages = session::held(after_sends(broker, caller, queue, bodies), queue);
    assert(messages =~= as_sent(broker.next, bodies));
    lemma_all_ready(messages);
    assert forall|i: int| 0 <= i < messages.len() implies laws::is_deliverable(
        (#[trigger] ready(messages)[i]).id,
    ) by {
        a_given_id_is_deliverable((broker.next + i) as u64);
    }
    if bodies.len() <= MAX_MESSAGES {
        lemma_nothing_left(messages);
    }
}

/// The messages that are ready are picked one by one, in their order: one more
/// message is one more where it is not locked, and one more under its lock where
/// it is.
pub proof fn ready_messages_are_picked_in_order(messages: Seq<Message>, message: Message)
    ensures
        ready(Seq::empty()) == Seq::<Message>::empty(),
        under_locks(Seq::empty()) == Seq::<Message>::empty(),
        message.lock is None ==> ready(messages.push(message)) == ready(messages).push(message)
            && under_locks(messages.push(message)) == under_locks(messages),
        message.lock is Some ==> ready(messages.push(message)) == ready(messages) && under_locks(
            messages.push(message),
        ) == under_locks(messages).push(message),
{
    reveal(Seq::filter);
    assert(messages.push(message).drop_last() =~= messages);
}

/// One receive hands back the first ten messages that are ready, or all where
/// there are fewer: each with its body, under the endpoint, the queue and its id
/// as the fragment.
pub proof fn what_is_received_is_what_was_ready(
    caller: Caller,
    queue: Seq<char>,
    messages: Seq<Message>,
)
    ensures
        ({
            let streams = received(caller, queue, messages);
            &&& streams.len() <= 10
            &&& streams.len() <= ready(messages).len()
            &&& streams.len() == 10 || streams.len() == ready(messages).len()
            &&& forall|i: int|
                0 <= i < streams.len() ==> (#[trigger] streams[i]) == (Stream {
                    origin_uri: caller.endpoint + "/"@ + queue + "#"@ + ready(messages)[i].id,
                    bytes: ready(messages)[i].body,
                })
            &&& count(messages) == streams.len()
        }),
{
}

/// What is taken from a queue is taken one by one from its start: each time the
/// first message that is not locked is gone, and a number is used up.
pub proof fn messages_are_taken_from_the_start(
    broker: Broker,
    queue: Seq<char>,
    messages: Seq<Message>,
    taken: nat,
    at: int,
)
    requires
        0 <= at < left(messages, taken).len(),
        left(messages, taken)[at].lock is None,
        forall|i: int| 0 <= i < at ==> (#[trigger] left(messages, taken)[i]).lock is Some,
    ensures
        left(messages, 0) == messages,
        left(messages, taken + 1) == left(messages, taken).remove(at),
        session::held(taken_from(broker, queue, taken), queue) == left(
            session::held(broker, queue),
            taken,
        ),
        taken_from(broker, queue, taken).next == (broker.next + taken) as u64,
        forall|other: Seq<char>|
            other != queue ==> #[trigger] session::held(taken_from(broker, queue, taken), other)
                == session::held(broker, other),
{
    let before = left(messages, taken);
    let holds = session::unlocked(before);
    assert forall|j: int| 0 <= j < at implies !(#[trigger] holds(j)) by {
        assert(before[j].lock is Some);
    }
    text::lemma_least_is(before.len(), holds, at);
}

} // verus!
