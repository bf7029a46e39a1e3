//! The near end: the three calls, and what is read in the answers to them.

use azure_service_bus::client::{chosen_id, done, locked, locked_from, Call};
use azure_service_bus::error::TransportError;
use azure_service_bus::message::{Request, Response};
use azure_service_bus::pair::exchange;
use azure_service_bus::properties::BROKER_PROPERTIES;
use azure_service_bus::session::Token;
use azure_service_bus::{Client, Event, Locked, Session, MAX_WAIT};
use std::time::Duration;

const ADDRESS: &str = "127.0.0.1:5671";

fn no_url() -> TransportError {
    TransportError::permanent("not an HTTP URL".to_string())
}

fn client(endpoint: &str) -> Client {
    Client::new(endpoint, Ok(ADDRESS.to_string()), "policy", "secret").expect("endpoint")
}

#[test]
fn the_three_calls_reach_a_session_and_come_back_shaped_as_service_bus_shapes_them() {
    let mut session = Session::new("policy", "secret").timing_out_after(Duration::from_secs(2));
    let mut events: Vec<Event> = Vec::new();
    let mut answered = |call: Call| {
        let (event, response) = exchange(call, &mut session);
        events.push(event);
        response
    };
    let client =
        client(&format!("http://{ADDRESS}/")).timing_out_after(Duration::from_secs(2));
    done(answered(client.send("orders", b"UNA:+.? '"))).expect("sent");
    done(answered(client.send("orders", &[0, 0xff, b'\n']))).expect("sent");
    let first = locked(answered(client.peek_lock("orders", 5)))
        .expect("locked")
        .expect("a message");
    assert_eq!(first.body, b"UNA:+.? '");
    assert_eq!(first.sequence, 1);
    let second = locked(answered(client.peek_lock("orders", 0)))
        .expect("locked")
        .expect("a message");
    assert_eq!(second.body, [0, 0xff, b'\n']);
    assert!(locked(answered(client.peek_lock("orders", 0)))
        .expect("none")
        .is_none());
    done(answered(client.complete(
        "orders",
        &first.id,
        &first.lock_token,
    )))
    .expect("completed");
    assert_eq!(session.messages().len(), 1, "one left locked");
    assert!(matches!(
        &events[2],
        Event::Locked {
            id: Some(_),
            wait: 5,
            ..
        }
    ));
    assert!(matches!(
        &events[4],
        Event::Locked {
            id: None,
            wait: 0,
            ..
        }
    ));
    assert_eq!(
        events[5],
        Event::Completed(format!("http://{ADDRESS}/orders#{}", first.id))
    );
}

#[test]
fn a_lapsed_lock_and_a_missing_endpoint_are_each_refused_in_their_own_way() {
    let mut session = Session::new("policy", "secret");
    let client = client(&format!("http://{ADDRESS}"));
    let (event, response) = exchange(
        client.complete("orders", "m-1", "no-such-lock"),
        &mut session,
    );
    let gone = done(response).expect_err("lapsed");
    assert!(gone.message.contains("404"), "{}", gone.message);
    assert!(!gone.retryable);
    assert_eq!(
        gone.message,
        "Service Bus answered 404 40400: No such message under that lock"
    );
    assert_eq!(event, Event::Refused("40400".to_string()));
    assert!(Client::new("ns.local", Err(no_url()), "p", "k").is_err());
    assert_eq!(
        client.resource("orders"),
        format!("http://{ADDRESS}/orders")
    );
    let properties = serde_json::from_str(r#"{"MessageId":"m"}"#).expect("an object");
    assert_eq!(chosen_id(&properties), Some("m".to_string()));
}

#[test]
fn the_calls_are_these_requests() {
    let client = client("http://ns.local");
    let send = client.send("orders", b"x");
    assert_eq!(send.resource, "http://ns.local/orders");
    assert_eq!(
        send.request,
        Request::new("POST", "/orders/messages")
            .header("Content-Type", "application/octet-stream")
            .body(b"x")
            .header("Host", ADDRESS)
    );
    let peek = client.peek_lock("orders", 7);
    assert_eq!(
        peek.request,
        Request::new("POST", "/orders/messages/head")
            .query("timeout", "7")
            .header("Host", ADDRESS)
    );
    let complete = client.complete("orders", "m", "l");
    assert_eq!(
        complete.request,
        Request::new("DELETE", "/orders/messages/m/l").header("Host", ADDRESS)
    );
    assert_eq!(complete.resource, "http://ns.local/orders");
    assert_eq!(
        client.peek_lock("orders", 255).request.query_value("timeout"),
        Some("230")
    );
    assert_eq!(MAX_WAIT, 230);
}

#[test]
fn an_endpoint_loses_the_slashes_at_its_end() {
    assert_eq!(client("http://ns///").resource("q"), "http://ns/q");
    assert_eq!(client("http://ns").endpoint(), "http://ns");
    let failure = Client::new("ns.local", Err(no_url()), "p", "k")
        .err()
        .expect("no URL");
    assert_eq!(failure, no_url());
    let client = Client::new("http://ns", Ok("ns".to_string()), "p", "k").expect("a URL");
    assert_eq!((client.policy(), client.key()), ("p", "k"));
    assert_eq!(client.timeout(), None);
    let timeout = Duration::from_millis(1500);
    assert_eq!(client.timing_out_after(timeout).timeout(), Some(timeout));
}

#[test]
fn a_locked_message_lacks_neither_id_nor_lock_token() {
    let handed = |properties: &str| {
        locked(
            Response::new(201)
                .header(BROKER_PROPERTIES, properties)
                .body(b"body"),
        )
    };
    let failure = handed(r#"{"LockToken":"l"}"#).expect_err("no id");
    assert_eq!(failure.message, "a locked message with no MessageId");
    assert!(!failure.retryable);
    let failure = handed(r#"{"MessageId":"m"}"#).expect_err("no lock");
    assert_eq!(failure.message, "a locked message with no LockToken");
    let failure = handed("{}").expect_err("neither");
    assert_eq!(failure.message, "a locked message with no MessageId");
    let failure = handed(r#"{"MessageId":1,"LockToken":"l"}"#).expect_err("no text");
    assert_eq!(failure.message, "a locked message with no MessageId");
    let failure = handed("null").expect_err("no object");
    assert_eq!(failure.message, "BrokerProperties that are not an object");
    assert_eq!(
        handed(r#"{"MessageId":"m","LockToken":"l","SequenceNumber":18446744073709551615}"#)
            .expect("a message"),
        Some(Locked {
            id: "m".to_string(),
            lock_token: "l".to_string(),
            sequence: u64::MAX,
            body: b"body".to_vec(),
        })
    );
    for sequence in ["-1", "1.5", "\"7\"", "null"] {
        let properties =
            format!("{{\"MessageId\":\"m\",\"LockToken\":\"l\",\"SequenceNumber\":{sequence}}}");
        let message = handed(&properties).expect("read").expect("a message");
        assert_eq!(message.sequence, 0, "{sequence}");
    }
}

#[test]
fn an_answer_is_judged_before_it_is_read() {
    assert_eq!(locked(Response::new(204)).expect("empty"), None);
    let failure = locked(Response::new(503)).expect_err("a fault");
    assert_eq!(failure.message, "Service Bus answered 503 ");
    assert!(failure.retryable);
    let missing = locked(Response::new(200)).expect_err("no properties");
    assert_eq!(missing.message, "a locked message with no MessageId");
    assert!(done(Response::new(204)).is_ok());
    assert!(done(Response::new(410)).is_err());
}

#[test]
fn properties_hand_out_a_message() {
    let properties = serde_json::from_str(r#"{"MessageId":"m","LockToken":"l"}"#).expect("object");
    let message = locked_from(&properties, b"x".to_vec()).expect("a message");
    assert_eq!(
        message,
        Locked {
            id: "m".to_string(),
            lock_token: "l".to_string(),
            sequence: 0,
            body: b"x".to_vec(),
        }
    );
    let none = serde_json::from_str("[]").expect("a list");
    assert_eq!(chosen_id(&none), None);
}

#[test]
fn a_message_is_read_as_it_was_handed_out() {
    let mut session = Session::new("policy", "secret");
    let client = client("http://ns.local");
    let odd = Request::new("POST", "/q/messages")
        .header(
            BROKER_PROPERTIES,
            r#"{"MessageId":"quote \" slash / å"}"#,
        )
        .body(&[0, 1, 255]);
    let token = Token {
        resource: "http://ns.local/q".to_string(),
    };
    session.answer(&odd, Ok(token));
    let (_, response) = exchange(client.peek_lock("q", 0), &mut session);
    assert_eq!(
        locked(response).expect("read").expect("a message"),
        Locked {
            id: "quote \" slash / å".to_string(),
            lock_token: "lock-00000002".to_string(),
            sequence: 1,
            body: vec![0, 1, 255],
        }
    );
}

#[test]
fn a_signature_changes_no_answer() {
    let client = client("http://ns.local");
    let token = || {
        Ok(Token {
            resource: "http://ns.local/q".to_string(),
        })
    };
    let mut plain = Session::new("policy", "secret");
    let mut signed = Session::new("policy", "secret");
    for call in [client.send("q", b"x"), client.peek_lock("q", 3)] {
        let with = call
            .request
            .clone()
            .header("Authorization", "SharedAccessSignature sr=x");
        assert_eq!(
            plain.answer(&call.request, token()),
            signed.answer(&with, token())
        );
    }
}

/// One message with a chosen id, locked and then completed: what the complete
/// came to, and how many messages are left.
fn complete_chosen(id: &str) -> (Event, usize) {
    let client = client("http://ns.local");
    let mut session = Session::new("policy", "secret");
    let chosen = Request::new("POST", "/q/messages")
        .header(BROKER_PROPERTIES, &format!("{{\"MessageId\":\"{id}\"}}"));
    let token = Token {
        resource: "http://ns.local/q".to_string(),
    };
    session.answer(&chosen, Ok(token));
    let (_, response) = exchange(client.peek_lock("q", 0), &mut session);
    let message = locked(response).expect("read").expect("a message");
    assert_eq!(message.id, id);
    let complete = client.complete("q", &message.id, &message.lock_token);
    let (event, _) = exchange(complete, &mut session);
    (event, session.messages().len())
}

#[test]
fn a_message_is_completed_whatever_id_its_sender_chose() {
    for id in [
        "messages",
        "messages-1",
        "messageshead",
        "head",
        "",
        "a/b",
        "a/messages",
        "lock-00000001",
        "#?&",
    ] {
        assert_eq!(
            complete_chosen(id),
            (Event::Completed(format!("http://ns.local/q#{id}")), 0),
            "{id}"
        );
    }
}

#[test]
fn an_id_that_names_the_messages_of_another_queue_is_not_completed() {
    for id in ["messages/1", "a/messages/1"] {
        assert_eq!(
            complete_chosen(id),
            (Event::Refused("40400".to_string()), 1),
            "{id}"
        );
    }
}
