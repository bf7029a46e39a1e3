//! Streams that arrive as messages on a Service Bus queue. One message is one
//! Stream, its id kept beside it.
//!
//! Service Bus is the queue of every organisation that lives in Azure, and its
//! REST API is three calls on a queue under the namespace: send a message,
//! peek-lock the next one with long polling, complete it by its lock token. A
//! Receive Location peek-locks, hands each body on as a Stream and completes it
//! once it is; a Send Location sends a Stream as one message.
//!
//! ```text
//! transport.rs   a queue as a Location: what it sends and receives
//! client.rs      the near end: the three calls, and what is read in the answers
//! receiving.rs   a receive, call by call
//! session.rs     the far end a test or the playground runs on loopback
//! properties.rs  the BrokerProperties header, both ways
//! rest.rs        the error answer, and the judgement of an answer
//! pair.rs        both ends with no wire between them
//! laws.rs        what holds of both ends together
//! history.rs     what holds of a session over every series of requests
//! near.rs        what each call, each answer and each setting comes to
//! far.rs         what a session does about each request
//! models.rs      what the models say of the values they stand for
//! wording.rs     how texts are cut, and numbers and elements written and read
//! ```
//!
//! Beneath those stand what requests and answers are made of (`message`), what
//! a call fails with (`error`), and the texts: `text`, `number`, `xml` and
//! `json`, where the calls into `serde_json` are. `listing` orders what a
//! session holds.
//!
//! Nothing here touches a socket, a clock or a key. A [`client::Call`] says
//! what is to be signed and sent; a [`Session`] takes what came of verifying a
//! token; an endpoint's authority, found or not, is handed in.
//!
//! A message is bytes, the body as it is, 256 KiB at most on the Standard tier
//! every namespace starts at: [`ceiling`]. Nothing is refused for its content,
//! an empty body included.

pub mod client;
pub mod error;
pub mod far;
pub mod history;
pub mod json;
pub mod laws;
pub mod listing;
pub mod message;
pub mod models;
pub mod near;
pub mod number;
pub mod pair;
pub mod properties;
pub mod receiving;
pub mod rest;
pub mod session;
pub mod text;
pub mod transport;
pub mod wording;
pub mod xml;

use vstd::prelude::*;

pub use client::{Client, Locked, MAX_WAIT};
pub use session::{Event, Session};
pub use transport::ServiceBusTransport;

verus! {

/// The most bytes that one message holds.
pub const CEILING: usize = 262144;

/// The most messages one receive hands back.
pub const MAX_MESSAGES: usize = 10;

/// The largest message a Standard namespace carries: 256 KiB.
#[must_use]
pub fn ceiling() -> (bytes: usize)
    ensures
        bytes == 256 * 1024,
        bytes == CEILING,
{
    CEILING
}

} // verus!
