//! The properties header, the error answer, and the judgement of an answer.

use azure_service_bus::message::{Request, Response};
use azure_service_bus::rest::{
    error, failure, judge, properties_in, properties_of, property, subcode, BROKER_PROPERTIES,
};
use azure_service_bus::{number, properties, text, xml};
use serde_json::Value;

#[test]
fn properties_broker_properties_travel_in_one_header_and_read_back_or_are_refused() {
    let request = Request::new("POST", "/q/messages").header(
        properties::BROKER_PROPERTIES,
        r#"{"MessageId":"m-1","Label":"orders"}"#,
    );
    let found = properties::properties_of(&request).expect("an object");
    assert_eq!(properties::property(&found, "MessageId"), Some("m-1"));
    assert_eq!(properties::property(&found, "LockToken"), None);
    assert_eq!(
        properties::properties_of(&Request::new("GET", "/")).expect("none"),
        Value::Object(serde_json::Map::new())
    );
    let response =
        Response::new(201).header(properties::BROKER_PROPERTIES, r#"{"LockToken":"lt"}"#);
    assert_eq!(
        properties::property(
            &properties::properties_in(&response).expect("an object"),
            "LockToken"
        ),
        Some("lt")
    );
    assert!(properties::properties_of(
        &Request::new("GET", "/").header(properties::BROKER_PROPERTIES, "[]")
    )
    .is_err());
    assert!(properties::properties_of(
        &Request::new("GET", "/").header(properties::BROKER_PROPERTIES, "{")
    )
    .is_err());
}

#[test]
fn rest_broker_properties_travel_in_one_header_and_read_back_or_are_refused() {
    let request = Request::new("POST", "/q/messages")
        .header(BROKER_PROPERTIES, r#"{"MessageId":"m-1","Label":"orders"}"#);
    let properties = properties_of(&request).expect("an object");
    assert_eq!(property(&properties, "MessageId"), Some("m-1"));
    assert_eq!(property(&properties, "LockToken"), None);
    assert_eq!(
        properties_of(&Request::new("GET", "/")).expect("none"),
        Value::Object(serde_json::Map::new())
    );
    let response = Response::new(201).header(BROKER_PROPERTIES, r#"{"LockToken":"lt"}"#);
    assert_eq!(
        property(&properties_in(&response).expect("an object"), "LockToken"),
        Some("lt")
    );
    assert!(properties_of(&Request::new("GET", "/").header(BROKER_PROPERTIES, "[]")).is_err());
    assert!(properties_of(&Request::new("GET", "/").header(BROKER_PROPERTIES, "{")).is_err());
}

#[test]
fn a_server_failure_is_worth_repeating_and_a_client_one_is_not() {
    assert!(
        judge("Service Bus", Response::new(503))
            .expect_err("s")
            .retryable
    );
    assert!(
        judge("Service Bus", Response::new(429))
            .expect_err("t")
            .retryable
    );
    let busy = error(500, "50002: The server is busy <now>");
    assert_eq!(
        busy.header_value("content-type"),
        Some("application/xml; charset=utf-8")
    );
    assert!(busy.text().contains("busy &lt;now&gt;"));
    assert!(judge("Service Bus", busy).expect_err("busy").retryable);
    let denied = judge(
        "Event Hubs",
        error(401, "40103: Invalid authorization token signature"),
    )
    .expect_err("denied");
    assert!(!denied.retryable);
    assert_eq!(
        denied.message,
        "Event Hubs answered 401 40103: Invalid authorization token signature"
    );
    assert_eq!(subcode("40103: Invalid"), "40103");
    assert_eq!(subcode("no such entity"), "no such entity");
    assert_eq!(judge("x", Response::new(204)).expect("ok").status, 204);
}

#[test]
fn properties_that_are_no_object_are_refused_each_in_its_own_way() {
    let listed = Request::new("GET", "/").header(BROKER_PROPERTIES, "[]");
    let failure = properties_of(&listed).expect_err("a list");
    assert_eq!(failure.message, "BrokerProperties that are not an object");
    assert!(!failure.retryable);
    let torn = Request::new("GET", "/").header(BROKER_PROPERTIES, "{");
    let failure = properties_of(&torn).expect_err("torn");
    assert_eq!(
        failure.message,
        "BrokerProperties that are not JSON: EOF while parsing an object at line 1 column 1"
    );
    assert!(!failure.retryable);
    let parsed = properties::checked(serde_json::from_str("true")).expect_err("a bool");
    assert_eq!(parsed.message, "BrokerProperties that are not an object");
    assert_eq!(
        properties::parse(Some(r#"{"n":1}"#)).expect("an object")["n"],
        1
    );
    assert_eq!(
        properties::parse(None).expect("none"),
        Value::Object(serde_json::Map::new())
    );
}

#[test]
fn the_first_header_counts_in_whatever_case() {
    let request = Request::new("GET", "/")
        .header("Host", "ns")
        .header("BROKERPROPERTIES", r#"{"MessageId":"first"}"#)
        .header("BrokerProperties", r#"{"MessageId":"second"}"#);
    let properties = properties_of(&request).expect("an object");
    assert_eq!(property(&properties, "MessageId"), Some("first"));
    assert_eq!(request.header_value("hOsT"), Some("ns"));
    assert_eq!(request.header_value("Hos"), None);
    let asked = Request::new("GET", "/").query("a", "1").query("a", "2");
    assert_eq!(asked.query_value("a"), Some("1"));
    assert_eq!(asked.query_value("A"), None);
}

#[test]
fn a_property_is_a_string_or_nothing() {
    let request = Request::new("GET", "/").header(
        BROKER_PROPERTIES,
        r#"{"text":"t","count":1,"null":null,"list":["t"]}"#,
    );
    let properties = properties_of(&request).expect("an object");
    assert_eq!(property(&properties, "text"), Some("t"));
    for name in ["count", "null", "list", "absent"] {
        assert_eq!(property(&properties, name), None, "{name}");
    }
}

#[test]
fn an_error_is_judged_as_the_failure_that_it_says() {
    for detail in [
        "40103: Invalid authorization token signature",
        "<Detail>&amp;</Detail>",
        "\"quoted\" & 'quoted'",
        "",
        "räksmörgås \u{1F980}",
    ] {
        let judged = judge("Service Bus", error(404, detail)).expect_err("refused");
        assert_eq!(judged.message, format!("Service Bus answered 404 {detail}"));
        assert!(!judged.retryable);
    }
    assert_eq!(
        error(404, "a<b").text(),
        "<Error><Code>404</Code><Detail>a&lt;b</Detail></Error>"
    );
}

#[test]
fn what_says_come_back_is_retryable() {
    for status in [500, 503, 599, 408, 429] {
        assert!(failure("s", status, "").retryable, "{status}");
    }
    for status in [100, 199, 300, 400, 401, 404, 499] {
        assert!(!failure("s", status, "").retryable, "{status}");
    }
    assert!(failure("s", 400, "50002: busy").retryable);
    assert!(!failure("s", 400, " 50002: busy").retryable);
    assert_eq!(failure("s", 400, "d").message, "s answered 400 d");
    assert!(judge("s", Response::new(199)).is_err());
    assert!(judge("s", Response::new(200)).is_ok());
    assert!(judge("s", Response::new(299)).is_ok());
    assert!(judge("s", Response::new(300)).is_err());
}

#[test]
fn a_body_that_is_no_text_is_judged_without_its_bytes() {
    let torn = Response::new(500).body(b"<Detail>a\xff</Detail>");
    let judged = judge("s", torn).expect_err("a fault");
    assert_eq!(judged.message, "s answered 500 a\u{FFFD}");
    let bare = Response::new(500).body(b"<Detail>never ends");
    assert_eq!(judge("s", bare).expect_err("a fault").message, "s answered 500 ");
}

#[test]
fn a_subcode_is_trimmed() {
    assert_eq!(subcode(" 40400 : gone: away"), "40400");
    assert_eq!(subcode("\t\u{3000}none\n"), "none");
    assert_eq!(subcode(":"), "");
    assert_eq!(subcode(""), "");
}

#[test]
fn escaped_text_reads_back() {
    assert_eq!(xml::escape("a<b>&\"'c"), "a&lt;b&gt;&amp;&quot;&apos;c");
    assert_eq!(xml::unescape("&amp;lt;"), "&lt;");
    assert_eq!(xml::unescape("&unknown; & &"), "&unknown; & &");
    for text in ["", "&&&", "<a>", "plain", "'\"&<>"] {
        assert_eq!(xml::unescape(&xml::escape(text)), text);
    }
    assert_eq!(
        xml::first("<x>1</x><x>2</x>", "x"),
        Some("1".to_string())
    );
    assert_eq!(xml::first("<x>1", "x"), None);
    assert_eq!(xml::first("", "x"), None);
}

#[test]
fn numbers_are_written_and_read() {
    assert_eq!(number::decimal(0), "0");
    assert_eq!(number::decimal(262_144), "262144");
    assert_eq!(number::decimal(u64::MAX), "18446744073709551615");
    assert_eq!(number::hex(1), "00000001");
    assert_eq!(number::hex(0xdead_beef), "deadbeef");
    assert_eq!(number::hex(u64::MAX), "ffffffffffffffff");
    for n in 0..=255u8 {
        assert_eq!(number::parse_u8(&number::decimal(u64::from(n))), Some(n));
    }
    for text in ["256", "1000", "", "+", "++1", "a", "1a", " 1", "0x1", "٣"] {
        assert_eq!(number::parse_u8(text), None, "{text}");
        assert_eq!(text.parse::<u8>().ok(), None, "{text}");
    }
}

#[test]
fn texts_are_cut_as_strings_are() {
    let texts = ["", "a", "a://b/c://d", "ä://ö", "////", "::a::", " \u{2003}x\u{85} "];
    for whole in texts {
        for pattern in ["://", "/", ":", "ä", "a"] {
            assert_eq!(text::split_once(whole, pattern), whole.split_once(pattern));
            assert_eq!(text::rsplit_once(whole, pattern), whole.rsplit_once(pattern));
            assert_eq!(
                text::strip_prefix(whole, pattern),
                whole.strip_prefix(pattern)
            );
            assert_eq!(
                text::starts_with(whole, pattern),
                whole.starts_with(pattern)
            );
        }
        assert_eq!(text::trim(whole), whole.trim());
        assert_eq!(
            text::trim_end_matches(whole, '/'),
            whole.trim_end_matches('/')
        );
        for other in texts {
            assert_eq!(text::same(whole, other), whole == other);
            assert_eq!(text::comes_before(whole, other), whole < other);
        }
    }
    for point in 0..=0x10_ffffu32 {
        if let Some(c) = char::from_u32(point) {
            assert_eq!(text::is_space(c), c.is_whitespace());
        }
    }
}
