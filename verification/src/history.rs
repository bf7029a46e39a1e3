//! What holds of a session over every series of requests that it answers.

use crate::client;
use crate::error::Failure;
use crate::json;
use crate::message::Asked;
use crate::session::{self, Broker, Happened, Message, Reply};
use vstd::prelude::*;

verus! {

/// One request, and what came of verifying its token.
pub struct Turn {
    pub asked: Asked,
    pub verified: Result<Seq<char>, Failure>,
}

/// A session once it answered a series of requests.
pub open spec fn after(broker: Broker, turns: Seq<Turn>) -> Broker
    decreases turns.len(),
{
    if turns.len() == 0 {
        broker
    } else {
        reply_to(after(broker, turns.drop_last()), turns.last()).broker
    }
}

/// What a session does about one request.
pub open spec fn reply_to(broker: Broker, turn: Turn) -> Reply {
    session::answering(broker, turn.asked, turn.verified)
}

/// What a session does about the request at `at` of a series.
pub open spec fn reply_at(broker: Broker, turns: Seq<Turn>, at: int) -> Reply {
    reply_to(after(broker, turns.take(at)), turns[at])
}

/// Whether a session has a number left for every request of a series that may
/// take one.
pub open spec fn has_numbers(broker: Broker, turns: Seq<Turn>) -> bool {
    forall|at: int|
        0 <= at < turns.len() && session::may_take_a_number(
            after(broker, turns.take(at)),
            (#[trigger] turns[at]).asked,
            turns[at].verified,
        ) ==> after(broker, turns.take(at)).next < u64::MAX
}

/// Whether a reply hands out a message under a lock.
pub open spec fn hands_out(reply: Reply) -> bool {
    reply.event matches Happened::Locked { id: Some(_), .. }
}

/// The lock token that a reply hands out, where it hands out a message under
/// one.
pub open spec fn handed_token(reply: Reply) -> Option<Seq<char>> {
    match (reply.event, reply.carried) {
        (Happened::Locked { id: Some(_), .. }, Some(carried)) => json::as_text(
            json::member(carried, "LockToken"@),
        ),
        _ => None,
    }
}

/// A series one request longer is answered by one answer more.
proof fn lemma_one_more(broker: Broker, turns: Seq<Turn>, at: int)
    requires
        0 <= at < turns.len(),
    ensures
        after(broker, turns.take(at + 1)) == reply_at(broker, turns, at).broker,
{
    assert(turns.take(at + 1).drop_last() =~= turns.take(at));
    assert(turns.take(at + 1).last() == turns[at]);
}

/// An answer takes one number or none, and hands out the token of the number
/// that it takes.
proof fn lemma_numbers(broker: Broker, turn: Turn)
    requires
        session::may_take_a_number(broker, turn.asked, turn.verified) ==> broker.next < u64::MAX,
    ensures
        broker.next <= reply_to(broker, turn).broker.next <= broker.next + 1,
        handed_token(reply_to(broker, turn)) matches Some(token) ==> token == session::lock_token(
            broker.next,
        ) && reply_to(broker, turn).broker.next == broker.next + 1,
        hands_out(reply_to(broker, turn)) ==> handed_token(reply_to(broker, turn)) is Some,
{
    session::lemma_calls_differ(Seq::empty(), Seq::empty());
    reveal_strlit("MessageId");
    reveal_strlit("LockToken");
    reveal_strlit("SequenceNumber");
    reveal_strlit("DeliveryCount");
    assert("MessageId"@[0] == 'M' && "LockToken"@[0] == 'L' && "SequenceNumber"@[0] == 'S'
        && "DeliveryCount"@[0] == 'D');
}

/// The next number never falls over a series of requests.
pub proof fn the_next_number_never_falls(broker: Broker, turns: Seq<Turn>, i: int, j: int)
    requires
        0 <= i <= j <= turns.len(),
    ensures
        has_numbers(broker, turns) ==> after(broker, turns.take(i)).next <= after(
            broker,
            turns.take(j),
        ).next,
    decreases j,
{
    if i < j && has_numbers(broker, turns) {
        the_next_number_never_falls(broker, turns, i, j - 1);
        lemma_one_more(broker, turns, j - 1);
        lemma_numbers(after(broker, turns.take(j - 1)), turns[j - 1]);
    }
}

/// Over every series of requests no lock token is handed out twice: any two
/// peek-locks that hand out a message, on whatever queues and with whatever
/// between them, hand it out under tokens that differ.
pub proof fn no_lock_token_is_handed_out_twice(broker: Broker, turns: Seq<Turn>, i: int, j: int)
    requires
        0 <= i < j < turns.len(),
    ensures
        ({
            let first = reply_at(broker, turns, i);
            let second = reply_at(broker, turns, j);
            has_numbers(broker, turns) && hands_out(first) && hands_out(second) ==> handed_token(
                first,
            ) is Some && handed_token(second) is Some && handed_token(first) != handed_token(
                second,
            )
        }),
{
    if has_numbers(broker, turns) && hands_out(reply_at(broker, turns, i)) && hands_out(
        reply_at(broker, turns, j),
    ) {
        let first = after(broker, turns.take(i));
        let second = after(broker, turns.take(j));
        lemma_numbers(first, turns[i]);
        lemma_numbers(second, turns[j]);
        lemma_one_more(broker, turns, i);
        the_next_number_never_falls(broker, turns, i + 1, j);
        session::lock_tokens_differ(first.next, second.next);
    }
}

/// The token that a reply hands out is the one that the near end reads.
pub proof fn a_handed_token_is_read(broker: Broker, turn: Turn)
    ensures
        ({
            let reply = reply_to(broker, turn);
            session::is_reply(reply.broker, reply.event, reply.answer, reply) ==> (handed_token(
                reply,
            ) matches Some(token) ==> client::locked_spec(reply.answer) matches Ok(
                Some(locked),
            ) && locked.lock_token == token)
        }),
{
    session::lemma_calls_differ(Seq::empty(), Seq::empty());
    reveal_strlit("MessageId");
    reveal_strlit("LockToken");
    reveal_strlit("SequenceNumber");
    reveal_strlit("DeliveryCount");
    assert("MessageId"@[0] == 'M' && "LockToken"@[0] == 'L' && "SequenceNumber"@[0] == 'S'
        && "DeliveryCount"@[0] == 'D');
}

/// How many messages some queues hold together, locked or not.
pub open spec fn total(queues: Map<Seq<char>, Seq<Message>>) -> nat
    decreases queues.dom().len(),
    when queues.dom().finite()
{
    if queues.dom().len() == 0 {
        0
    } else {
        let queue = queues.dom().choose();
        queues[queue].len() + total(queues.remove(queue))
    }
}

/// How many messages queues hold together does not depend on which is counted
/// first.
proof fn lemma_total_without(queues: Map<Seq<char>, Seq<Message>>, queue: Seq<char>)
    requires
        queues.dom().finite(),
        queues.dom().contains(queue),
    ensures
        total(queues) == queues[queue].len() + total(queues.remove(queue)),
    decreases queues.dom().len(),
{
    let first = queues.dom().choose();
    assert(queues.dom().contains(first));
    assert(queues.remove(first).dom() =~= queues.dom().remove(first));
    assert(queues.remove(queue).dom() =~= queues.dom().remove(queue));
    if first != queue {
        lemma_total_without(queues.remove(first), queue);
        lemma_total_without(queues.remove(queue), first);
        assert(queues.remove(first).remove(queue) =~= queues.remove(queue).remove(first));
    }
}

/// What queues hold together where one holds other messages.
proof fn lemma_total_holding(broker: Broker, queue: Seq<char>, messages: Seq<Message>)
    requires
        broker.queues.dom().finite(),
    ensures
        session::holding(broker, queue, messages).queues.dom().finite(),
        total(session::holding(broker, queue, messages).queues) + session::held(
            broker,
            queue,
        ).len() == total(broker.queues) + messages.len(),
{
    let queues = session::holding(broker, queue, messages).queues;
    assert(queues.dom() =~= broker.queues.dom().insert(queue));
    lemma_total_without(queues, queue);
    if broker.queues.dom().contains(queue) {
        lemma_total_without(broker.queues, queue);
        assert(queues.remove(queue) =~= broker.queues.remove(queue));
    } else {
        assert(queues.remove(queue) =~= broker.queues);
    }
}

/// By how much an event changes the number of messages held.
pub open spec fn change(event: Happened) -> int {
    match event {
        Happened::Sent(_) => 1,
        Happened::Completed(_) => -1,
        Happened::Locked { .. } => 0,
        Happened::Refused(_) => 0,
    }
}

/// An answer changes the number of messages held by what happened: a send adds
/// one, a completion takes one, and a peek-lock or a refusal leaves it as it
/// was.
pub proof fn an_answer_counts(broker: Broker, turn: Turn)
    requires
        broker.queues.dom().finite(),
    ensures
        reply_to(broker, turn).broker.queues.dom().finite(),
        total(reply_to(broker, turn).broker.queues) == total(broker.queues) + change(
            reply_to(broker, turn).event,
        ),
{
    if let Some((queue, rest)) = session::called(turn.asked) {
        let messages = session::held(broker, queue);
        let then = session::held(reply_to(broker, turn).broker, queue);
        lemma_total_holding(broker, queue, messages);
        lemma_total_holding(broker, queue, then);
        session::lemma_first_unlocked_stands(messages);
        if let Some((id, lock)) = session::id_and_lock(rest) {
            session::lemma_first_under_lock_stands(messages, id, lock);
        }
    }
}

/// How many requests of a series were accepted as sends.
pub open spec fn sends(broker: Broker, turns: Seq<Turn>) -> nat
    decreases turns.len(),
{
    if turns.len() == 0 {
        0
    } else {
        sends(broker, turns.drop_last()) + if reply_at(
            broker,
            turns,
            turns.len() - 1,
        ).event is Sent {
            1nat
        } else {
            0nat
        }
    }
}

/// How many requests of a series took a message off its queue.
pub open spec fn completions(broker: Broker, turns: Seq<Turn>) -> nat
    decreases turns.len(),
{
    if turns.len() == 0 {
        0
    } else {
        completions(broker, turns.drop_last()) + if reply_at(
            broker,
            turns,
            turns.len() - 1,
        ).event is Completed {
            1nat
        } else {
            0nat
        }
    }
}

/// Over every series of requests, the messages held over all queues, locked or
/// not, are those that were held and those that were sent, less those that were
/// completed.
pub proof fn messages_are_sends_less_completions(broker: Broker, turns: Seq<Turn>)
    requires
        broker.queues.dom().finite(),
    ensures
        after(broker, turns).queues.dom().finite(),
        total(after(broker, turns).queues) + completions(broker, turns) == total(broker.queues)
            + sends(broker, turns),
    decreases turns.len(),
{
    if turns.len() > 0 {
        let shorter = turns.drop_last();
        messages_are_sends_less_completions(broker, shorter);
        an_answer_counts(after(broker, shorter), turns.last());
        assert(turns.take(turns.len() - 1) =~= shorter);
    }
}

/// From an empty session, the messages held over all queues, locked or not, are
/// the sends less the completions.
pub proof fn an_empty_session_holds_what_was_sent(broker: Broker, turns: Seq<Turn>)
    requires
        broker.queues == Map::<Seq<char>, Seq<Message>>::empty(),
    ensures
        total(after(broker, turns).queues) == sends(broker, turns) - completions(broker, turns),
{
    messages_are_sends_less_completions(broker, turns);
}

/// A session that began sound is sound after every series of requests.
pub proof fn a_session_stays_sound(broker: Broker, turns: Seq<Turn>, at: int)
    requires
        session::is_sound(broker),
        0 <= at <= turns.len(),
    ensures
        has_numbers(broker, turns) ==> session::is_sound(after(broker, turns.take(at))),
    decreases at,
{
    if at > 0 && has_numbers(broker, turns) {
        a_session_stays_sound(broker, turns, at - 1);
        lemma_one_more(broker, turns, at - 1);
        session::answering_keeps_a_session_sound(
            after(broker, turns.take(at - 1)),
            turns[at - 1].asked,
            turns[at - 1].verified,
        );
    }
}

} // verus!
