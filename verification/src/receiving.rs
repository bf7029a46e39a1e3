//! Receiving: messages are peek-locked one at a time, and each is completed
//! once it is a Stream.
//!
//! A [`Receiving`] says which call comes next and takes the answer to it. Who
//! signs the call, carries it to the namespace and brings the answer back goes
//! on until it has the Streams, or a failure. A call that no answer came to is
//! a failure too, and [`Receiving::failed`] says what is left of the receive.

use crate::client::{self, Call, Caller, Client, Locked, LockedMessage, Placed};
use crate::error::{self, Arrived, Failure, Stream, TransportError};
use crate::message::{Answer, Response};
use crate::session;
use crate::MAX_MESSAGES;
use vstd::prelude::*;
use vstd::string::*;

verus! {

/// A receive that goes on: the near end it speaks through, its queue and how
/// long each peek-lock waits, the Streams so far, and the message that is
/// locked and not yet completed.
pub struct Receiving {
    client: Client,
    queue: String,
    wait: u8,
    arrived: Vec<Arrived>,
    pending: Option<Locked>,
}

/// The model of a [`Receiving`].
#[verifier::ext_equal]
pub struct Progress {
    pub caller: Caller,
    pub queue: Seq<char>,
    pub wait: u8,
    pub arrived: Seq<Stream>,
    pub pending: Option<LockedMessage>,
}

/// Streams by their models.
pub open spec fn streams(arrived: Seq<Arrived>) -> Seq<Stream> {
    Seq::new(arrived.len(), |i: int| arrived[i]@)
}

impl View for Receiving {
    type V = Progress;

    closed spec fn view(&self) -> Progress {
        Progress {
            caller: self.client@,
            queue: self.queue@,
            wait: self.wait,
            arrived: streams(self.arrived@),
            pending: match self.pending {
                Some(locked) => Some(locked@),
                None => None,
            },
        }
    }
}

/// What comes of an answer: a receive that goes on, or the Streams of one that
/// is over.
pub enum Step {
    More(Receiving),
    Done(Vec<Arrived>),
}

/// The model of a [`Step`].
pub enum Came {
    More(Progress),
    Done(Seq<Stream>),
}

impl View for Step {
    type V = Came;

    open spec fn view(&self) -> Came {
        match self {
            Step::More(receiving) => Came::More(receiving@),
            Step::Done(arrived) => Came::Done(streams(arrived@)),
        }
    }
}

/// A receive that has nothing yet.
pub open spec fn starting(caller: Caller, queue: Seq<char>, wait: u8) -> Progress {
    Progress { caller, queue, wait, arrived: Seq::empty(), pending: None }
}

/// The next call: a peek-lock, or the completion of the message that is
/// locked.
pub open spec fn next_call(progress: Progress) -> Placed {
    match progress.pending {
        None => client::peek_lock_call(progress.caller, progress.queue, progress.wait),
        Some(locked) => client::complete_call(
            progress.caller,
            progress.queue,
            locked.id,
            locked.lock_token,
        ),
    }
}

/// A locked message as a Stream: its origin is the queue's URL, and its id as
/// the fragment.
pub open spec fn stream_of(progress: Progress, locked: LockedMessage) -> Stream {
    Stream {
        origin_uri: session::uri_of(
            client::resource_spec(progress.caller.endpoint, progress.queue),
            locked.id,
        ),
        bytes: locked.body,
    }
}

/// What a failure makes of a receive. A message that was completed is gone from
/// its queue and is a Stream, so a receive that fails to lock another hands back
/// the Streams it has. It fails where it has none, and where a message is locked
/// that could not be completed.
pub open spec fn ended(progress: Progress, failure: Failure) -> Result<Seq<Stream>, Failure> {
    if progress.pending is None && progress.arrived.len() > 0 {
        Ok(progress.arrived)
    } else {
        Err(failure)
    }
}

/// What the answer to the next call comes to. A failure ends the receive, as
/// an empty queue does and a message completed that is the last of
/// `MAX_MESSAGES`.
pub open spec fn step(progress: Progress, answer: Answer) -> Result<Came, Failure> {
    match progress.pending {
        None => match client::locked_spec(answer) {
            Err(failure) => match ended(progress, failure) {
                Ok(streams) => Ok(Came::Done(streams)),
                Err(failure) => Err(failure),
            },
            Ok(None) => Ok(Came::Done(progress.arrived)),
            Ok(Some(locked)) => Ok(Came::More(Progress { pending: Some(locked), ..progress })),
        },
        Some(locked) => match client::done_spec(answer) {
            Err(failure) => Err(failure),
            Ok(()) => {
                let arrived = progress.arrived.push(stream_of(progress, locked));
                if arrived.len() < MAX_MESSAGES {
                    Ok(Came::More(Progress { arrived, pending: None, ..progress }))
                } else {
                    Ok(Came::Done(arrived))
                }
            },
        },
    }
}

impl Receiving {
    /// Receive from `queue` through `client`, each peek-lock waiting up to
    /// `wait` seconds.
    pub fn new(client: Client, queue: &str, wait: u8) -> (receiving: Self)
        ensures
            receiving@ == starting(client@, queue@, wait),
    {
        let receiving = Receiving {
            client,
            queue: queue.to_owned(),
            wait,
            arrived: Vec::new(),
            pending: None,
        };
        assert(receiving@.arrived =~= Seq::empty());
        receiving
    }

    /// The near end that the receive speaks through.
    pub fn client(&self) -> (client: &Client)
        ensures
            client@ == self@.caller,
    {
        &self.client
    }

    /// The call that comes next.
    pub fn call(&self) -> (call: Call)
        ensures
            call@ == next_call(self@),
    {
        match &self.pending {
            None => self.client.peek_lock(self.queue.as_str(), self.wait),
            Some(locked) => self.client.complete(
                self.queue.as_str(),
                locked.id.as_str(),
                locked.lock_token.as_str(),
            ),
        }
    }

    /// What is left of the receive where the call came to `failure` and no
    /// answer: the Streams of the messages that were completed, where there are
    /// some and none is locked besides.
    pub fn failed(self, failure: TransportError) -> (result: Result<Vec<Arrived>, TransportError>)
        ensures
            match result {
                Ok(arrived) => ended(self@, failure@) == Ok::<Seq<Stream>, Failure>(
                    streams(arrived@),
                ),
                Err(same) => ended(self@, failure@) == Err::<Seq<Stream>, Failure>(same@),
            },
    {
        if self.pending.is_none() && self.arrived.len() > 0 {
            Ok(self.arrived)
        } else {
            Err(failure)
        }
    }

    /// What `response`, the answer to that call, comes to.
    pub fn answered(self, response: Response) -> (result: Result<Step, TransportError>)
        ensures
            error::outcome(result) == step(self@, response@),
    {
        match self.pending {
            None => match client::locked(response) {
                Err(failure) => match self.failed(failure) {
                    Ok(arrived) => Ok(Step::Done(arrived)),
                    Err(failure) => Err(failure),
                },
                Ok(None) => Ok(Step::Done(self.arrived)),
                Ok(Some(locked)) => Ok(
                    Step::More(Receiving { pending: Some(locked), ..self }),
                ),
            },
            Some(locked) => {
                if let Err(failure) = client::done(response) {
                    return Err(failure);
                }
                let ghost before = self@;
                let origin = self.client.resource(self.queue.as_str()).concat("#").concat(
                    locked.id.as_str(),
                );
                let mut arrived = self.arrived;
                arrived.push(Arrived::new(origin, locked.body));
                assert(streams(arrived@) =~= before.arrived.push(stream_of(before, locked@)));
                if arrived.len() < MAX_MESSAGES {
                    Ok(Step::More(
                        Receiving {
                            client: self.client,
                            queue: self.queue,
                            wait: self.wait,
                            arrived,
                            pending: None,
                        },
                    ))
                } else {
                    Ok(Step::Done(arrived))
                }
            },
        }
    }
}

} // verus!
