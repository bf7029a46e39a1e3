//! The far end: what a session answers, and what it keeps.

use azure_service_bus::ceiling;
use azure_service_bus::error::{Arrived, TransportError};
use azure_service_bus::message::Request;
use azure_service_bus::properties::{properties_in, BROKER_PROPERTIES};
use azure_service_bus::session::{origin, Event, Session, Token};

const RESOURCE: &str = "http://ns.local/orders";

fn request(method: &str, path: &str) -> Request {
    Request::new(method, path).header("Host", "ns.local")
}

fn verified() -> Result<Token, TransportError> {
    Ok(Token {
        resource: RESOURCE.to_string(),
    })
}

fn bad_token() -> Result<Token, TransportError> {
    Err(TransportError::permanent(
        "40103: Invalid authorization token signature".to_string(),
    ))
}

#[test]
fn a_session_answers_in_service_buss_shapes_and_refuses_a_bad_token() {
    let mut session = Session::new("policy", "secret");
    let sent = request("POST", "/orders/messages").body(b"a<b");
    let (event, response) = session.answer(&sent, verified());
    assert_eq!(response.status, 201);
    assert_eq!(
        event,
        Event::Sent(Arrived::new(
            "http://ns.local/orders#00000001-xmip".to_string(),
            b"a<b".to_vec()
        ))
    );
    let chosen = request("POST", "/orders/messages")
        .header(BROKER_PROPERTIES, r#"{"MessageId":"mine"}"#)
        .body(b"");
    let (event, _) = session.answer(&chosen, verified());
    assert_eq!(
        event,
        Event::Sent(Arrived::new(
            "http://ns.local/orders#mine".to_string(),
            Vec::new()
        ))
    );
    let peek = request("POST", "/orders/messages/head").query("timeout", "5");
    let (event, response) = session.answer(&peek, verified());
    assert_eq!(response.status, 201);
    assert_eq!(response.body, b"a<b");
    let properties = properties_in(&response).expect("properties");
    assert_eq!(properties["MessageId"], "00000001-xmip");
    assert_eq!(properties["SequenceNumber"], 1);
    let lock = properties["LockToken"]
        .as_str()
        .expect("a lock")
        .to_string();
    assert!(response
        .header_value("location")
        .expect("a location")
        .ends_with(&format!("/orders/messages/00000001-xmip/{lock}")));
    assert!(matches!(
        event,
        Event::Locked {
            wait: 5,
            id: Some(_),
            ..
        }
    ));
    let (event, response) = session.answer(&request("DELETE", "/orders/messages/head"), verified());
    assert_eq!(
        response.status, 200,
        "receive and delete takes the unlocked one"
    );
    assert_eq!(
        event,
        Event::Completed("http://ns.local/orders#mine".to_string())
    );
    let (event, response) = session.answer(&peek, verified());
    assert_eq!(response.status, 204, "locked, not offered again");
    assert!(matches!(event, Event::Locked { id: None, .. }));
    let complete = request("DELETE", &format!("/orders/messages/00000001-xmip/{lock}"));
    let (event, response) = session.answer(&complete, verified());
    assert_eq!(response.status, 200);
    assert_eq!(
        event,
        Event::Completed("http://ns.local/orders#00000001-xmip".to_string())
    );
    assert!(session.messages().is_empty());
    let (event, response) = session.answer(&complete, verified());
    assert_eq!(
        (event, response.status),
        (Event::Refused("40400".to_string()), 404)
    );
    let (_, response) = session.answer(&request("PUT", "/orders/messages/head"), verified());
    assert_eq!(response.status, 405);
    let (_, response) = session.answer(&request("GET", "/orders"), verified());
    assert_eq!(response.status, 404);
    let over = request("POST", "/orders/messages").body(&vec![0; ceiling() + 1]);
    let (event, response) = session.answer(&over, verified());
    assert_eq!(
        (event, response.status),
        (Event::Refused("40000".to_string()), 413)
    );
    let wrong = Request::new("POST", "/orders/messages");
    let (event, response) = session.answer(&wrong, bad_token());
    assert_eq!(
        (event, response.status),
        (Event::Refused("40103".to_string()), 401)
    );
}

#[test]
fn a_refusal_says_why_in_xml() {
    let mut session = Session::new("policy", "secret");
    let (event, response) = session.answer(&request("PUT", "/orders/messages"), verified());
    assert_eq!(event, Event::Refused("40500".to_string()));
    assert_eq!(
        response.text(),
        "<Error><Code>405</Code><Detail>40500: Not one of the three calls</Detail></Error>"
    );
    let (_, response) = session.answer(&request("POST", "/orders"), verified());
    assert_eq!(
        response.text(),
        "<Error><Code>404</Code><Detail>40400: Not a queue&apos;s messages</Detail></Error>"
    );
    let over = request("POST", "/orders/messages").body(&vec![0; ceiling() + 1]);
    let (_, response) = session.answer(&over, verified());
    assert!(response
        .text()
        .contains("40000: A message is at most 262144 bytes"));
    let listed = request("POST", "/orders/messages").header("brokerproperties", "[1]");
    let (event, response) = session.answer(&listed, verified());
    assert_eq!(
        (event, response.status),
        (Event::Refused("40000".to_string()), 400)
    );
    assert!(response
        .text()
        .contains("40000: BrokerProperties that are not an object"));
    assert!(session.messages().is_empty(), "refused, and nothing held");
}

#[test]
fn what_properties_are_written_is_exact() {
    let mut session = Session::new("policy", "secret");
    session.answer(&request("POST", "/q/messages").body(b"x"), verified());
    let (_, locked) = session.answer(&request("POST", "/q/messages/head"), verified());
    assert_eq!(
        locked.header_value(BROKER_PROPERTIES),
        Some(
            "{\"DeliveryCount\":1,\"LockToken\":\"lock-00000002\",\
             \"MessageId\":\"00000001-xmip\",\"SequenceNumber\":1}"
        )
    );
    assert_eq!(
        locked.header_value("Location"),
        Some("http://ns.local/q/messages/00000001-xmip/lock-00000002")
    );
    session.answer(&request("POST", "/q/messages").body(b"y"), verified());
    let (_, taken) = session.answer(&request("DELETE", "/q/messages/head"), verified());
    assert_eq!(
        taken.header_value(BROKER_PROPERTIES),
        Some("{\"MessageId\":\"00000003-xmip\",\"SequenceNumber\":3}")
    );
    assert_eq!(taken.body, b"y");
}

#[test]
fn a_peek_lock_hands_out_messages_in_turn_each_under_its_own_lock() {
    let mut session = Session::new("policy", "secret");
    for body in [b"1", b"2", b"3"] {
        session.answer(&request("POST", "/q/messages").body(body), verified());
    }
    let mut locks = Vec::new();
    for body in [b"1", b"2", b"3"] {
        let (_, response) = session.answer(&request("POST", "/q/messages/head"), verified());
        assert_eq!(response.body, body);
        let properties = properties_in(&response).expect("properties");
        locks.push(properties["LockToken"].as_str().expect("lock").to_string());
    }
    assert_eq!(
        locks,
        ["lock-00000004", "lock-00000005", "lock-00000006"]
    );
    assert_eq!(session.messages().len(), 3, "locked, and still held");
    let (event, _) = session.answer(
        &request("DELETE", "/q/messages/00000002-xmip/lock-00000006"),
        verified(),
    );
    assert_eq!(event, Event::Refused("40400".to_string()), "not its lock");
    let (event, _) = session.answer(
        &request("DELETE", "/q/messages/00000002-xmip/lock-00000005"),
        verified(),
    );
    assert_eq!(
        event,
        Event::Completed("http://ns.local/q#00000002-xmip".to_string())
    );
    let left: Vec<String> = session.messages().into_iter().map(|(key, _)| key).collect();
    assert_eq!(left, ["q#00000001-xmip", "q#00000003-xmip"]);
}

#[test]
fn messages_are_listed_by_key_with_the_last_of_each() {
    let mut session = Session::new("policy", "secret");
    let chosen = |queue: &str, id: &str, body: &[u8]| {
        request("POST", &format!("/{queue}/messages"))
            .header(BROKER_PROPERTIES, &format!("{{\"MessageId\":\"{id}\"}}"))
            .body(body)
    };
    session.answer(&chosen("b", "2", b"b2"), verified());
    session.answer(&chosen("b", "1", b"b1"), verified());
    session.answer(&chosen("a", "9", b"a9"), verified());
    session.answer(&chosen("b", "2", b"again"), verified());
    session.answer(&chosen("a#9", "9", b"other"), verified());
    assert_eq!(
        session.messages(),
        vec![
            ("a#9".to_string(), b"a9".to_vec()),
            ("a#9#9".to_string(), b"other".to_vec()),
            ("b#1".to_string(), b"b1".to_vec()),
            ("b#2".to_string(), b"again".to_vec()),
        ]
    );
}

#[test]
fn a_wait_that_is_no_small_number_is_none() {
    let mut session = Session::new("policy", "secret");
    for (asked, read) in [
        ("0", 0),
        ("230", 230),
        ("255", 255),
        ("256", 0),
        ("+7", 7),
        ("-1", 0),
        ("", 0),
        ("+", 0),
        ("1 ", 0),
        ("007", 7),
    ] {
        let peek = request("POST", "/q/messages/head").query("timeout", asked);
        let (event, _) = session.answer(&peek, verified());
        assert_eq!(
            event,
            Event::Locked {
                queue: "q".to_string(),
                id: None,
                wait: read
            },
            "{asked}"
        );
    }
    let (event, _) = session.answer(&request("POST", "/q/messages/head"), verified());
    assert!(matches!(event, Event::Locked { wait: 0, .. }));
}

#[test]
fn an_origin_is_the_tokens_scheme_and_authority_then_the_queue() {
    let token = |resource: &str| Token {
        resource: resource.to_string(),
    };
    assert_eq!(
        origin(&token("http://ns.local/orders"), "orders"),
        "http://ns.local/orders"
    );
    assert_eq!(origin(&token("sb://ns:99/a/b/c"), "q"), "sb://ns:99/q");
    assert_eq!(origin(&token("https://ns"), "q"), "https://ns/q");
    assert_eq!(origin(&token("ns.local"), "q"), "ns.local/q");
}

#[test]
fn a_path_is_routed_by_its_last_messages() {
    let mut session = Session::new("policy", "secret");
    session.answer(&request("POST", "/a/messages/messages"), verified());
    assert_eq!(session.messages()[0].0, "a/messages#00000001-xmip");
    let (event, _) = session.answer(&request("POST", "b/messages"), verified());
    assert!(matches!(event, Event::Sent(_)), "without a leading slash");
    assert_eq!(session.messages()[1].0, "b#00000002-xmip");
}

#[test]
fn a_complete_is_read_by_its_shape() {
    let mut session = Session::new("policy", "secret");
    let chosen = request("POST", "/orders/messages")
        .header(BROKER_PROPERTIES, r#"{"MessageId":"messages-1"}"#);
    session.answer(&chosen, verified());
    session.answer(&request("POST", "/orders/messages/head"), verified());
    let (event, response) = session.answer(
        &request("DELETE", "/orders/messages/messages-1/lock-00000002"),
        verified(),
    );
    assert_eq!(response.status, 200);
    assert_eq!(
        event,
        Event::Completed("http://ns.local/orders#messages-1".to_string())
    );
    assert!(session.messages().is_empty());
}

#[test]
fn a_delete_of_the_head_is_that_whatever_the_queues_name() {
    let mut session = Session::new("policy", "secret");
    for queue in ["orders", "a/messages", "messages"] {
        session.answer(&request("POST", &format!("/{queue}/messages")), verified());
        let head = request("DELETE", &format!("/{queue}/messages/head"));
        let (event, response) = session.answer(&head, verified());
        assert_eq!(response.status, 200, "{queue}");
        assert!(matches!(event, Event::Completed(_)), "{queue}");
        assert!(session.messages().is_empty(), "{queue}");
    }
}

#[test]
fn a_delete_of_another_shape_is_refused() {
    let mut session = Session::new("policy", "secret");
    for path in [
        "/orders/messages",
        "/orders/messages/",
        "/orders/messages/m",
        "/orders/messagesm/lock",
        "/orders/messages/m/lock/more",
    ] {
        let (event, response) = session.answer(&request("DELETE", path), verified());
        assert_eq!(
            (event, response.status),
            (Event::Refused("40400".to_string()), 404),
            "{path}"
        );
        assert!(response.text().contains("No such message under that lock"));
    }
    let (_, response) = session.answer(&request("DELETE", "/orders/m/lock"), verified());
    assert!(response.text().contains("Not a queue&apos;s messages"));
}

#[test]
fn over_a_series_tokens_differ_and_messages_are_sends_less_completions() {
    let mut session = Session::new("policy", "secret");
    let mut tokens: Vec<String> = Vec::new();
    let mut last: Vec<String> = Vec::new();
    let (mut sends, mut completions) = (0, 0);
    for round in 0..40u32 {
        let queue = ["a", "b", "c"][(round % 3) as usize];
        let asked = match round % 7 {
            0 | 1 | 4 => request("POST", &format!("/{queue}/messages")),
            2 | 5 => request("POST", &format!("/{queue}/messages/head")),
            3 => match last.pop() {
                Some(path) => request("DELETE", &path),
                None => request("PUT", "/a/messages"),
            },
            _ => request("DELETE", &format!("/{queue}/messages/head")),
        };
        assert!(session.can_answer(&asked, &verified()));
        let before = session.messages();
        let (event, response) = session.answer(&asked, verified());
        match event {
            Event::Sent(_) => sends += 1,
            Event::Completed(_) => completions += 1,
            Event::Locked { id: Some(id), .. } => {
                let properties = properties_in(&response).expect("properties");
                let token = properties["LockToken"].as_str().expect("a lock").to_string();
                assert!(!tokens.contains(&token), "{token} was handed out before");
                last.push(format!("/{queue}/messages/{id}/{token}"));
                tokens.push(token);
                assert_eq!(session.messages(), before, "locked, and still held");
            }
            Event::Locked { id: None, .. } | Event::Refused(_) => {
                assert_eq!(session.messages(), before);
            }
        }
        assert_eq!(session.messages().len(), sends - completions);
    }
    assert!(tokens.len() > 3 && completions > 3);
}

#[test]
fn a_send_is_listed_unless_a_later_queue_has_its_key() {
    let mut session = Session::new("policy", "secret");
    let chosen = |queue: &str, id: &str, body: &[u8]| {
        request("POST", &format!("/{queue}/messages"))
            .header(BROKER_PROPERTIES, &format!("{{\"MessageId\":\"{id}\"}}"))
            .body(body)
    };
    session.answer(&chosen("a#b", "c", b"later"), verified());
    session.answer(&chosen("a", "b#c", b"earlier"), verified());
    assert_eq!(
        session.messages(),
        vec![("a#b#c".to_string(), b"later".to_vec())]
    );
    session.answer(&chosen("a", "d", b"d"), verified());
    assert_eq!(
        session.messages(),
        vec![
            ("a#b#c".to_string(), b"later".to_vec()),
            ("a#d".to_string(), b"d".to_vec()),
        ]
    );
}

#[test]
fn a_refused_send_takes_no_number() {
    let mut session = Session::new("policy", "secret");
    let torn = request("POST", "/q/messages").header(BROKER_PROPERTIES, "{");
    let (event, _) = session.answer(&torn, verified());
    assert_eq!(event, Event::Refused("40000".to_string()));
    let (event, _) = session.answer(&request("POST", "/q/messages"), verified());
    assert_eq!(
        event,
        Event::Sent(Arrived::new(
            "http://ns.local/q#00000001-xmip".to_string(),
            Vec::new()
        ))
    );
}

#[test]
fn a_queue_keeps_its_messages_while_another_is_asked() {
    let mut session = Session::new("policy", "secret");
    session.answer(&request("POST", "/a/messages").body(b"a"), verified());
    session.answer(&request("POST", "/b/messages").body(b"b"), verified());
    session.answer(&request("DELETE", "/b/messages/head"), verified());
    assert_eq!(
        session.messages(),
        vec![("a#00000001-xmip".to_string(), b"a".to_vec())]
    );
    let before = session.messages();
    session.answer(&request("DELETE", "/a/messages/x/y"), verified());
    session.answer(&request("POST", "/a/messages"), bad_token());
    assert_eq!(session.messages(), before, "refused, and nothing changed");
}
