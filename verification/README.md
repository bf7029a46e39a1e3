# azure-service-bus

Azure Service Bus as a transport, written and proved in Verus: send a Stream as
a message, receive with peek-lock and complete each message once it is a
Stream. A queue is a Location.

`src/` is the library, verified against its contracts but for the calls into
`serde_json` and std that are named below: the three calls of the near end and
what is read in their answers, a receive as a machine that says which call
comes next, the session that answers those calls on loopback, the
`BrokerProperties` header, the error answer and its judgement. `src/laws.rs`
and `src/pair.rs` state what holds of both ends together, such as that what is
sent to a queue is received back whole, in order, and completed;
`src/history.rs` states what holds of a session over every series of requests.

What the proofs take on trust is the contracts of these calls: those into
`serde_json`, which reads and writes JSON, in `src/json.rs`;
`String::from_utf8_lossy` in `src/message.rs`; `String::push` in `src/text.rs`.

`app/` puts the library on a wire: the Shared Access Signature, HTTP and the
sockets come from the `http` and `transport` technologies.

`tests/` runs the library.
