//! A queue as a Location: what is sent to it, and what is received from it.

use azure_service_bus::client::{done, Call};
use azure_service_bus::error::{Arrived, TransportError};
use azure_service_bus::pair::{exchange, receive};
use azure_service_bus::properties::BROKER_PROPERTIES;
use azure_service_bus::message::{Request, Response};
use azure_service_bus::receiving::{Receiving, Step};
use azure_service_bus::session::Token;
use azure_service_bus::transport::take_one;
use azure_service_bus::{ceiling, Event, ServiceBusTransport, Session, MAX_MESSAGES, MAX_WAIT};
use std::time::Duration;

const ADDRESS: &str = "127.0.0.1:5671";

fn node(endpoint: &str, key: &str) -> ServiceBusTransport {
    ServiceBusTransport::new(endpoint, "orders")
        .with_policy("policy", key)
        .waiting(1)
        .timing_out_after(Duration::from_secs(2))
}

fn host() -> Result<String, TransportError> {
    Ok(ADDRESS.to_string())
}

fn no_url() -> TransportError {
    TransportError::permanent("not an HTTP URL".to_string())
}

/// One send, as a near end that meets `session` makes it.
fn send(
    near: &ServiceBusTransport,
    session: &mut Session,
    target: &str,
    bytes: &[u8],
) -> Result<Event, TransportError> {
    let (event, response) = exchange(near.send(host(), target, bytes)?, session);
    done(response).map(|()| event)
}

/// A payload through both ends of `loopback`.
fn round(loopback: &ServiceBusTransport, payload: &[u8]) -> Result<Arrived, TransportError> {
    let mut session = loopback.session();
    let near = loopback.near(ADDRESS);
    let event = send(&near, &mut session, "", payload)?;
    let shown = format!("{event:?}");
    take_one(event, &shown)
}

#[test]
fn what_is_sent_to_a_session_is_received_back_and_completed() {
    let near = node(&format!("http://{ADDRESS}"), "secret");
    let mut session = near.session();
    let mut events: Vec<Event> = Vec::new();
    events.push(send(&near, &mut session, "", b"UNA:+.? '").expect("its own queue"));
    events.push(
        send(&near, &mut session, "orders", &[0, 0xff, b'\r', b'\n']).expect("a queue name"),
    );
    let mut going = near.receive(host()).expect("received");
    let arrived = loop {
        let (event, response) = exchange(going.call(), &mut session);
        events.push(event);
        match going.answered(response).expect("received") {
            Step::More(further) => going = further,
            Step::Done(arrived) => break arrived,
        }
    };
    assert_eq!(arrived.len(), 2);
    assert_eq!(arrived[0].bytes, b"UNA:+.? '");
    assert_eq!(arrived[1].bytes, [0, 0xff, b'\r', b'\n']);
    let queue_url = format!("http://{ADDRESS}/orders");
    assert!(arrived[0].origin_uri.starts_with(&format!("{queue_url}#")));
    assert!(session.messages().is_empty(), "completed after receive");
    assert_eq!(
        events[0],
        Event::Sent(Arrived::new(
            arrived[0].origin_uri.clone(),
            b"UNA:+.? '".to_vec()
        ))
    );
    assert!(matches!(
        &events[2],
        Event::Locked {
            id: Some(_),
            wait: 1,
            ..
        }
    ));
    assert_eq!(events[3], Event::Completed(arrived[0].origin_uri.clone()));
    assert!(matches!(&events[6], Event::Locked { id: None, .. }));
    assert_eq!(events.len(), 7);
}

#[test]
fn a_wrong_key_is_refused_with_service_buss_own_status_and_subcode() {
    let mut session = node("http://x", "secret").session();
    let near = node(&format!("http://{ADDRESS}"), "wrong");
    let call = near.send(host(), "", b"x").expect("a call");
    let unverified = TransportError::permanent(
        "40103: Invalid authorization token signature".to_string(),
    );
    let (event, response) = session.answer(&call.request, Err(unverified));
    let failure = done(response).expect_err("refused");
    assert!(
        failure.message.contains("401 40103"),
        "{}",
        failure.message
    );
    assert!(!failure.retryable);
    assert_eq!(event, Event::Refused("40103".to_string()));
    assert_eq!(session.key(), "secret");
    assert_eq!(near.client(host()).expect("a URL").key(), "wrong");
}

#[test]
fn a_queue_is_not_claimed_and_an_unreachable_endpoint_is_retryable() {
    let near = node("http://127.0.0.1:1", "secret");
    assert_eq!(near.name(), "azure-service-bus");
    assert!(
        !node("ns.local", "s")
            .send(Err(no_url()), "", b"x")
            .expect_err("no scheme")
            .retryable
    );
    assert_eq!(node("http://x", "s").waiting(255).wait(), MAX_WAIT);
}

#[test]
fn what_is_over_the_ceiling_is_refused_before_the_wire_with_the_reason() {
    let near = node("http://127.0.0.1:1", "secret");
    let over = vec![b'x'; ceiling() + 1];
    let failure = near.send(host(), "", &over).expect_err("over the ceiling");
    assert!(!failure.retryable);
    assert!(failure.message.contains("262144"), "{}", failure.message);
    assert_eq!(
        failure.message,
        "262145 bytes is over the 262144 one Service Bus message carries"
    );
    let sooner = near
        .send(Err(no_url()), "", &over)
        .expect_err("over the ceiling");
    assert_eq!(sooner, failure, "before the endpoint is looked at");
}

#[test]
fn a_message_rounds_through_the_loopback_session() {
    let loopback = ServiceBusTransport::loopback(Duration::from_secs(5));
    let arrived = round(&loopback, b"UNA:+.? '").expect("round");
    assert_eq!(arrived.bytes, b"UNA:+.? '");
    assert!(
        arrived.origin_uri.starts_with("http://127.0.0.1:"),
        "{}",
        arrived.origin_uri
    );
    assert!(
        arrived.origin_uri.contains("/orders#"),
        "{}",
        arrived.origin_uri
    );
    assert_eq!(loopback.name(), "azure-service-bus");
}

fn edge_payloads() -> Vec<(&'static str, Vec<u8>)> {
    vec![
        ("empty", Vec::new()),
        ("one byte", vec![0x2a]),
        ("every byte", (0..=255).collect()),
        ("nul run", vec![0; 512]),
        ("high bytes", vec![0xff; 512]),
        ("crlf storm", b"\r\n".repeat(400)),
        ("the brim", vec![b'x'; ceiling()]),
    ]
}

#[test]
fn the_loopback_returns_the_edge_payloads_whole_and_refuses_over_the_brim() {
    let loopback = ServiceBusTransport::loopback(Duration::from_secs(5));
    for (name, payload) in edge_payloads() {
        let arrived = round(&loopback, &payload).expect(name);
        assert_eq!(arrived.bytes, payload, "{name}");
    }
    let over = vec![b'x'; ceiling() + 1];
    let failure = round(&loopback, &over).expect_err("over the brim");
    assert!(failure.message.contains("262144"), "{}", failure.message);
}

#[test]
fn the_loopback_pair_agrees_on_queue_policy_and_key() {
    let timeout = Duration::from_secs(5);
    let loopback = ServiceBusTransport::loopback(timeout);
    assert_eq!(loopback.endpoint(), "http://127.0.0.1:0");
    assert_eq!(loopback.resolve(""), "orders");
    let session = loopback.session();
    assert_eq!(session.policy(), "RootManageSharedAccessKey");
    assert_eq!(session.key(), "probe");
    assert_eq!(session.timeout(), Some(timeout));
    let near = loopback.near("127.0.0.1:9");
    assert_eq!(near.endpoint(), "http://127.0.0.1:9");
    let client = near.client(host()).expect("a URL");
    assert_eq!(client.policy(), "RootManageSharedAccessKey");
    assert_eq!(client.key(), "probe");
    assert_eq!(client.timeout(), Some(timeout));
}

#[test]
fn a_transport_begins_with_no_policy_and_no_wait() {
    let bare = ServiceBusTransport::new("http://ns/", "q");
    assert_eq!(bare.wait(), 0);
    assert_eq!(bare.session().policy(), "");
    assert_eq!(bare.session().key(), "");
    assert_eq!(bare.session().timeout(), None);
    let client = bare.client(host()).expect("a URL");
    assert_eq!(client.timeout(), None);
    assert_eq!(client.resource("q"), "http://ns/q");
    assert!(bare.client(Err(no_url())).is_err());
    assert!(bare.receive(Err(no_url())).is_err());
    assert_eq!(bare.clone().waiting(230).wait(), 230);
    assert_eq!(bare.waiting(229).wait(), 229);
}

#[test]
fn a_target_names_a_queue_or_none() {
    let near = node("http://ns", "k");
    assert_eq!(near.resolve(""), "orders");
    assert_eq!(near.resolve("others"), "others");
    let call: Call = near.send(host(), "others", b"x").expect("a call");
    assert_eq!(call.request.path, "/others/messages");
    assert_eq!(call.resource, "http://ns/others");
    let own = near.send(host(), "", b"x").expect("a call");
    assert_eq!(own.request.path, "/orders/messages");
}

#[test]
fn one_receive_takes_no_more_than_it_may_and_in_order() {
    let near = node("http://ns.local", "secret");
    let mut session = near.session();
    for n in 0..13u8 {
        send(&near, &mut session, "", &[n]).expect("sent");
    }
    let first = receive(near.receive(host()).expect("a receive"), &mut session).expect("received");
    assert_eq!(first.len(), MAX_MESSAGES);
    for (n, arrived) in first.iter().enumerate() {
        assert_eq!(arrived.bytes, [n as u8]);
        assert_eq!(
            arrived.origin_uri,
            format!("http://ns.local/orders#{:08x}-xmip", n + 1)
        );
    }
    assert_eq!(session.messages().len(), 3);
    let rest = receive(near.receive(host()).expect("a receive"), &mut session).expect("received");
    assert_eq!(rest.len(), 3);
    assert_eq!(rest[2].bytes, [12]);
    assert!(session.messages().is_empty());
    let none = receive(near.receive(host()).expect("a receive"), &mut session).expect("received");
    assert!(none.is_empty());
}

#[test]
fn a_receive_leaves_what_is_locked() {
    let near = node("http://ns.local", "secret");
    let mut session = near.session();
    send(&near, &mut session, "", b"held").expect("sent");
    send(&near, &mut session, "", b"free").expect("sent");
    let client = near.client(host()).expect("a URL");
    exchange(client.peek_lock("orders", 0), &mut session);
    let arrived =
        receive(near.receive(host()).expect("a receive"), &mut session).expect("received");
    assert_eq!(arrived.len(), 1);
    assert_eq!(arrived[0].bytes, b"free");
    assert_eq!(
        session.messages(),
        vec![("orders#00000001-xmip".to_string(), b"held".to_vec())]
    );
}

/// A receive that has one Stream, and is about to lock another message.
fn one_arrived(near: &ServiceBusTransport) -> Receiving {
    let going = near.receive(host()).expect("a receive");
    let peeked = Response::new(201)
        .header(BROKER_PROPERTIES, r#"{"MessageId":"m","LockToken":"l"}"#)
        .body(b"x");
    let mut going = match going.answered(peeked).expect("read") {
        Step::More(further) => further,
        Step::Done(_) => panic!("not yet completed"),
    };
    going = match going.answered(Response::new(200)).expect("completed") {
        Step::More(further) => further,
        Step::Done(_) => panic!("there may be more"),
    };
    going
}

#[test]
fn what_was_completed_is_handed_back_where_the_next_call_fails() {
    let near = node("http://ns.local", "secret");
    let stream = Arrived::new("http://ns.local/orders#m".to_string(), b"x".to_vec());
    for status in [503, 401, 404] {
        match one_arrived(&near).answered(Response::new(status)).expect("handed back") {
            Step::Done(arrived) => assert_eq!(arrived, vec![stream.clone()]),
            Step::More(_) => panic!("the peek-lock failed"),
        }
    }
    let torn = Response::new(201).header(BROKER_PROPERTIES, "{");
    assert!(matches!(
        one_arrived(&near).answered(torn),
        Ok(Step::Done(_))
    ));
    assert_eq!(
        one_arrived(&near).failed(no_url()).expect("handed back"),
        vec![stream]
    );
}

#[test]
fn a_receive_that_has_nothing_or_holds_a_lock_fails_as_its_call_did() {
    let near = node("http://ns.local", "secret");
    let fresh = near.receive(host()).expect("a receive");
    assert_eq!(fresh.failed(no_url()).expect_err("nothing yet"), no_url());
    let peeked = || {
        Response::new(201).header(BROKER_PROPERTIES, r#"{"MessageId":"n","LockToken":"k"}"#)
    };
    let locked = |going: Receiving| match going.answered(peeked()).expect("read") {
        Step::More(further) => further,
        Step::Done(_) => panic!("not yet completed"),
    };
    let holding = locked(one_arrived(&near));
    assert_eq!(holding.failed(no_url()).expect_err("a lock is held"), no_url());
    let holding = locked(one_arrived(&near));
    let failure = holding
        .answered(Response::new(404))
        .err()
        .expect("not completed");
    assert_eq!(failure.message, "Service Bus answered 404 ");
}

#[test]
fn a_receive_ends_with_the_first_failure() {
    let near = node("http://ns.local", "secret");
    let going = near.receive(host()).expect("a receive");
    assert_eq!(going.client().endpoint(), "http://ns.local");
    let failure = going.answered(Response::new(503)).err().expect("a fault");
    assert_eq!(failure.message, "Service Bus answered 503 ");
    let going = near.receive(host()).expect("a receive");
    let peeked = Response::new(201)
        .header(BROKER_PROPERTIES, r#"{"MessageId":"m","LockToken":"l"}"#)
        .body(b"x");
    let step = going.answered(peeked).expect("read");
    let going: Receiving = match step {
        Step::More(further) => further,
        Step::Done(_) => panic!("not yet completed"),
    };
    assert_eq!(
        going.call().request,
        Request::new("DELETE", "/orders/messages/m/l").header("Host", ADDRESS)
    );
    let failure = going.answered(Response::new(404)).err().expect("lapsed");
    assert!(!failure.retryable);
}

#[test]
fn a_message_at_the_brim_is_never_refused_for_its_size() {
    let near = node("http://ns.local", "secret");
    let mut session = near.session();
    let brim = vec![0xff; ceiling()];
    let event = send(&near, &mut session, "", &brim).expect("sent");
    assert_eq!(
        event,
        Event::Sent(Arrived::new(
            "http://ns.local/orders#00000001-xmip".to_string(),
            brim
        ))
    );
    assert_eq!(ceiling(), 262_144);
}

#[test]
fn a_far_end_takes_a_send_and_names_anything_else() {
    let arrived = Arrived::new("u".to_string(), b"x".to_vec());
    assert_eq!(take_one(Event::Sent(arrived.clone()), "").expect("sent"), arrived);
    let refused = take_one(Event::Refused("40103".to_string()), "shown").expect_err("refused");
    assert_eq!(refused.message, "the session refused: 40103");
    assert!(!refused.retryable);
    let other = take_one(Event::Completed("u".to_string()), "Completed(\"u\")").expect_err("other");
    assert_eq!(other.message, "not a send: Completed(\"u\")");
    let locked = Event::Locked {
        queue: "q".to_string(),
        id: None,
        wait: 0,
    };
    assert_eq!(
        take_one(locked, "Locked").expect_err("other").message,
        "not a send: Locked"
    );
}

#[test]
fn an_origin_with_a_path_is_cut_to_its_authority() {
    let near = node("http://ns.local/base", "secret");
    let mut session = near.session();
    let event = send(&near, &mut session, "", b"x").expect("sent");
    assert_eq!(
        event,
        Event::Sent(Arrived::new(
            "http://ns.local/orders#00000001-xmip".to_string(),
            b"x".to_vec()
        ))
    );
    let token = Token {
        resource: "http://ns.local/base/orders".to_string(),
    };
    let (event, _) = session.answer(&Request::new("DELETE", "/orders/messages/head"), Ok(token));
    assert!(matches!(event, Event::Completed(_)));
}
