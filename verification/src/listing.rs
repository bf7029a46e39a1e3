//! The messages of a session in one list: every key once and in order, with
//! the body of the last message of that key.

use crate::session::{self, Message};
use crate::text;
use vstd::prelude::*;
use vstd::string::*;

verus! {

/// Bodies by the keys they are listed under.
pub open spec fn listed(entries: Seq<(String, Vec<u8>)>) -> Seq<(Seq<char>, Seq<u8>)> {
    Seq::new(entries.len(), |i: int| (entries[i].0@, entries[i].1@))
}

/// Whether keys stand in their order, each key once.
pub open spec fn ascending(entries: Seq<(Seq<char>, Seq<u8>)>) -> bool {
    forall|i: int, j: int|
        0 <= i < j < entries.len() ==> text::before(
            #[trigger] entries[i].0,
            #[trigger] entries[j].0,
        )
}

/// Whether a key is listed.
pub open spec fn has_key(entries: Seq<(Seq<char>, Seq<u8>)>, key: Seq<char>) -> bool {
    exists|i: int| 0 <= i < entries.len() && (#[trigger] entries[i]).0 == key
}

/// Whether entries list what others do, but for one key with a new body.
pub open spec fn is_put(
    before: Seq<(Seq<char>, Seq<u8>)>,
    after: Seq<(Seq<char>, Seq<u8>)>,
    key: Seq<char>,
    body: Seq<u8>,
) -> bool {
    &&& ascending(after)
    &&& after.contains((key, body))
    &&& forall|i: int|
        0 <= i < after.len() && (#[trigger] after[i]) != (key, body) ==> after[i].0 != key
            && before.contains(after[i])
    &&& forall|j: int| 0 <= j < before.len() ==> has_key(after, (#[trigger] before[j]).0)
}

/// List `body` under `key`, in the place of what was listed under it.
pub fn put(entries: &mut Vec<(String, Vec<u8>)>, key: String, body: Vec<u8>)
    requires
        ascending(listed(old(entries)@)),
    ensures
        is_put(listed(old(entries)@), listed(final(entries)@), key@, body@),
{
    let ghost before = listed(entries@);
    let ghost entry = (key@, body@);
    let mut at: usize = 0;
    while at < entries.len() && text::comes_before(entries[at].0.as_str(), key.as_str())
        invariant
            at <= entries.len(),
            *entries == *old(entries),
            before == listed(entries@),
            forall|i: int| 0 <= i < at ==> text::before(#[trigger] before[i].0, key@),
        decreases entries.len() - at,
    {
        at += 1;
    }
    proof {
        if at < entries.len() {
            text::lemma_before_is_total(before[at as int].0, key@);
            assert forall|i: int| at < i < before.len() implies text::before(
                key@,
                #[trigger] before[i].0,
            ) by {
                if before[at as int].0 != key@ {
                    text::lemma_before_is_transitive(key@, before[at as int].0, before[i].0);
                }
            }
        }
        assert forall|i: int| 0 <= i < before.len() && i != at implies #[trigger] before[i].0
            != key@ by {
            text::lemma_before_is_total(before[i].0, key@);
            text::lemma_before_is_total(key@, before[i].0);
        }
    }
    if at < entries.len() && text::same(entries[at].0.as_str(), key.as_str()) {
        entries[at].1 = body;
        let ghost after = listed(entries@);
        proof {
            assert(after =~= before.update(at as int, entry));
            assert(after[at as int] == entry);
            assert forall|i: int, j: int| 0 <= i < j < after.len() implies text::before(
                #[trigger] after[i].0,
                #[trigger] after[j].0,
            ) by {
                assert(after[i].0 == before[i].0 && after[j].0 == before[j].0);
            }
            assert forall|i: int| 0 <= i < after.len() && (#[trigger] after[i]) != entry implies
                after[i].0 != key@ && before.contains(after[i]) by {
                assert(after[i] == before[i]);
            }
            assert forall|j: int| 0 <= j < before.len() implies has_key(
                after,
                (#[trigger] before[j]).0,
            ) by {
                assert(after[j].0 == before[j].0);
            }
        }
        return;
    }
    entries.insert(at, (key, body));
    let ghost after = listed(entries@);
    proof {
        assert(after =~= before.insert(at as int, entry));
        assert(after[at as int] == entry);
        assert forall|i: int, j: int| 0 <= i < j < after.len() implies text::before(
            #[trigger] after[i].0,
            #[trigger] after[j].0,
        ) by {
            if i < at && j < at {
                assert(after[i] == before[i] && after[j] == before[j]);
            } else if i < at && j > at {
                assert(after[i] == before[i] && after[j] == before[j - 1]);
            } else if i > at {
                assert(after[i] == before[i - 1] && after[j] == before[j - 1]);
            } else if i == at {
                assert(after[j] == before[j - 1]);
            } else {
                assert(after[i] == before[i]);
            }
        }
        assert forall|i: int| 0 <= i < after.len() && (#[trigger] after[i]) != entry implies
            after[i].0 != key@ && before.contains(after[i]) by {
            if i < at {
                assert(after[i] == before[i]);
            } else {
                assert(after[i] == before[i - 1]);
            }
        }
        assert forall|j: int| 0 <= j < before.len() implies has_key(
            after,
            (#[trigger] before[j]).0,
        ) by {
            if j < at {
                assert(after[j] == before[j]);
            } else {
                assert(after[j + 1] == before[j]);
            }
        }
    }
}

/// Where keys stand in their order, the last of them comes after all others.
proof fn lemma_last_is_highest(entries: Seq<(Seq<char>, Seq<u8>)>, entry: (Seq<char>, Seq<u8>))
    requires
        ascending(entries),
        entries.contains(entry),
    ensures
        entry == entries.last() || text::before(entry.0, entries.last().0),
{
    let i = choose|i: int| 0 <= i < entries.len() && entries[i] == entry;
    if i < entries.len() - 1 {
        assert(text::before(entries[i].0, entries[entries.len() - 1].0));
    }
}

/// Entries without the last are in order, and hold what the rest hold.
proof fn lemma_all_but_the_last(
    left: Seq<(Seq<char>, Seq<u8>)>,
    right: Seq<(Seq<char>, Seq<u8>)>,
)
    requires
        ascending(left),
        left.len() > 0,
        right.len() > 0,
        left.last() == right.last(),
        forall|i: int| 0 <= i < left.len() ==> right.contains(#[trigger] left[i]),
    ensures
        ascending(left.drop_last()),
        forall|i: int|
            0 <= i < left.drop_last().len() ==> right.drop_last().contains(
                #[trigger] left.drop_last()[i],
            ),
{
    let shorter = left.drop_last();
    assert forall|i: int, j: int| 0 <= i < j < shorter.len() implies text::before(
        #[trigger] shorter[i].0,
        #[trigger] shorter[j].0,
    ) by {
        assert(text::before(left[i].0, left[j].0));
    }
    assert forall|i: int| 0 <= i < shorter.len() implies right.drop_last().contains(
        #[trigger] shorter[i],
    ) by {
        assert(right.contains(left[i]));
        let j = choose|j: int| 0 <= j < right.len() && right[j] == left[i];
        assert(text::before(left[i].0, left[left.len() - 1].0));
        text::lemma_before_is_total(left[i].0, left[left.len() - 1].0);
        assert(right.drop_last()[j] == shorter[i]);
    }
}

/// Entries in order are fixed by which they are.
pub proof fn lemma_ascending_is_one(
    left: Seq<(Seq<char>, Seq<u8>)>,
    right: Seq<(Seq<char>, Seq<u8>)>,
)
    requires
        ascending(left),
        ascending(right),
        forall|i: int| 0 <= i < left.len() ==> right.contains(#[trigger] left[i]),
        forall|i: int| 0 <= i < right.len() ==> left.contains(#[trigger] right[i]),
    ensures
        left == right,
    decreases left.len(),
{
    if left.len() == 0 {
        if right.len() > 0 {
            assert(left.contains(right[0]));
        }
        assert(left =~= right);
    } else {
        assert(right.contains(left[left.len() - 1]));
        assert(left.contains(right[right.len() - 1]));
        lemma_last_is_highest(right, left.last());
        lemma_last_is_highest(left, right.last());
        text::lemma_before_is_total(left.last().0, right.last().0);
        text::lemma_before_is_total(right.last().0, left.last().0);
        assert(left.last() == right.last());
        lemma_all_but_the_last(left, right);
        lemma_all_but_the_last(right, left);
        lemma_ascending_is_one(left.drop_last(), right.drop_last());
        assert(left =~= left.drop_last().push(left.last()));
        assert(right =~= right.drop_last().push(right.last()));
    }
}

/// The key of a message by where it stands: its queue's name, and its id.
pub open spec fn key_at(queues: Seq<(Seq<char>, Seq<Message>)>, a: int, m: int) -> Seq<char> {
    session::uri_of(queues[a].0, queues[a].1[m].id)
}

/// Whether a message stands before another place.
pub open spec fn is_done(
    queues: Seq<(Seq<char>, Seq<Message>)>,
    a: int,
    m: int,
    queue: int,
    message: int,
) -> bool {
    &&& 0 <= a < queues.len()
    &&& 0 <= m < queues[a].1.len()
    &&& a < queue || (a == queue && m < message)
}

/// Whether an entry is that of the message at a place, which is the last of
/// its key before another place.
pub open spec fn is_source(
    queues: Seq<(Seq<char>, Seq<Message>)>,
    entry: (Seq<char>, Seq<u8>),
    a: int,
    m: int,
    queue: int,
    message: int,
) -> bool {
    &&& is_done(queues, a, m, queue, message)
    &&& key_at(queues, a, m) == entry.0
    &&& queues[a].1[m].body == entry.1
    &&& forall|b: int, n: int| #[trigger]
        is_done(queues, b, n, queue, message) && key_at(queues, b, n) == entry.0 ==> b < a || (b
            == a && n <= m)
}

/// Whether an entry is that of some message before a place, the last of its
/// key.
pub open spec fn has_source(
    queues: Seq<(Seq<char>, Seq<Message>)>,
    entry: (Seq<char>, Seq<u8>),
    queue: int,
    message: int,
) -> bool {
    exists|a: int, m: int| is_source(queues, entry, a, m, queue, message)
}

/// Whether entries list the messages before a place.
pub open spec fn gathered(
    queues: Seq<(Seq<char>, Seq<Message>)>,
    entries: Seq<(Seq<char>, Seq<u8>)>,
    queue: int,
    message: int,
) -> bool {
    &&& ascending(entries)
    &&& forall|i: int|
        0 <= i < entries.len() ==> has_source(queues, #[trigger] entries[i], queue, message)
    &&& forall|a: int, m: int| #[trigger]
        is_done(queues, a, m, queue, message) ==> has_key(entries, key_at(queues, a, m))
}

/// One more message listed is a listing of one more message.
pub proof fn lemma_gathered_one_more(
    queues: Seq<(Seq<char>, Seq<Message>)>,
    before: Seq<(Seq<char>, Seq<u8>)>,
    after: Seq<(Seq<char>, Seq<u8>)>,
    queue: int,
    message: int,
)
    requires
        gathered(queues, before, queue, message),
        0 <= queue < queues.len(),
        0 <= message < queues[queue].1.len(),
        is_put(before, after, key_at(queues, queue, message), queues[queue].1[message].body),
    ensures
        gathered(queues, after, queue, message + 1),
{
    let key = key_at(queues, queue, message);
    let body = queues[queue].1[message].body;
    assert forall|i: int| 0 <= i < after.len() implies has_source(
        queues,
        #[trigger] after[i],
        queue,
        message + 1,
    ) by {
        let entry = after[i];
        if entry == (key, body) {
            assert(is_source(queues, entry, queue, message, queue, message + 1));
        } else {
            let j = choose|j: int| 0 <= j < before.len() && before[j] == entry;
            assert(has_source(queues, before[j], queue, message));
            let (a, m) = choose|a: int, m: int| is_source(queues, entry, a, m, queue, message);
            assert forall|b: int, n: int| #[trigger]
                is_done(queues, b, n, queue, message + 1) && key_at(queues, b, n)
                    == entry.0 implies b < a || (b == a && n <= m) by {
                if !(b == queue && n == message) {
                    assert(is_done(queues, b, n, queue, message));
                }
            }
            assert(is_source(queues, entry, a, m, queue, message + 1));
        }
    }
    assert forall|a: int, m: int| #[trigger]
        is_done(queues, a, m, queue, message + 1) implies has_key(
        after,
        key_at(queues, a, m),
    ) by {
        if a == queue && m == message {
            let i = choose|i: int| 0 <= i < after.len() && after[i] == (key, body);
            assert(after[i].0 == key);
        } else {
            assert(is_done(queues, a, m, queue, message));
            let j = choose|j: int|
                0 <= j < before.len() && (#[trigger] before[j]).0 == key_at(queues, a, m);
            assert(has_key(after, before[j].0));
        }
    }
}

/// A whole queue listed is the start of the next.
pub proof fn lemma_gathered_queue(
    queues: Seq<(Seq<char>, Seq<Message>)>,
    entries: Seq<(Seq<char>, Seq<u8>)>,
    queue: int,
)
    requires
        0 <= queue < queues.len(),
        gathered(queues, entries, queue, queues[queue].1.len() as int),
    ensures
        gathered(queues, entries, queue + 1, 0),
{
    let end = queues[queue].1.len() as int;
    assert forall|i: int| 0 <= i < entries.len() implies has_source(
        queues,
        #[trigger] entries[i],
        queue + 1,
        0,
    ) by {
        let entry = entries[i];
        assert(has_source(queues, entry, queue, end));
        let (a, m) = choose|a: int, m: int| is_source(queues, entry, a, m, queue, end);
        assert forall|b: int, n: int| #[trigger]
            is_done(queues, b, n, queue + 1, 0) && key_at(queues, b, n) == entry.0 implies b < a
            || (b == a && n <= m) by {
            assert(is_done(queues, b, n, queue, end));
        }
        assert(is_source(queues, entry, a, m, queue + 1, 0));
    }
    assert forall|a: int, m: int| #[trigger]
        is_done(queues, a, m, queue + 1, 0) implies has_key(entries, key_at(queues, a, m)) by {
        assert(is_done(queues, a, m, queue, end));
    }
}

} // verus!
