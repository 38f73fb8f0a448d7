//! The envelope, its id, its topic and its headers.
use outbox_kit::{
    millis_at, now_millis, read_clock, validate_topic, BackoffPolicy, Delay, EventError, EventId,
    Headers, OutboxEvent, NEVER,
};
use uuid::Uuid;

fn event(topic: &str) -> OutboxEvent {
    OutboxEvent::new(topic, b"payload").unwrap()
}

#[test]
fn new_sets_fresh_v7_and_clock() {
    let e = event("orders");
    assert_eq!(Uuid::from_u128(e.id.as_uuid()).get_version_num(), 7);
    assert_eq!(e.topic, "orders");
    assert_eq!(e.payload, b"payload");
    assert!(e.headers.is_empty());
    let now = now_millis();
    assert!(
        e.created_at <= now && now - e.created_at < 60_000,
        "created_at must track the wall clock"
    );
    assert_eq!(e.attempts, 0);
    assert_eq!(e.last_error, None);
}

#[test]
fn v7_ids_are_time_ordered_and_unique() {
    let first = EventId::now_v7();
    let second = EventId::now_v7();
    assert_ne!(first, second);
    assert!(first < second, "v7 ids must sort by creation time");
}

#[test]
fn from_uuid_and_parse_round_trip() {
    let uuid = Uuid::now_v7();
    let id = EventId::from_uuid(uuid.as_u128());
    assert_eq!(id.as_uuid(), uuid.as_u128());
    let parsed = EventId::parse(&id.to_string()).unwrap();
    assert_eq!(parsed, id);
    // Simple and braced forms also parse.
    assert_eq!(EventId::parse(&uuid.simple().to_string()).unwrap(), id);
    assert_eq!(EventId::parse(&format!("{uuid}")).unwrap(), id);
}

#[test]
fn parse_rejects_garbage() {
    let err = EventId::parse("not-a-uuid").unwrap_err();
    assert_eq!(
        err,
        EventError::InvalidId {
            input: "not-a-uuid".into()
        }
    );
    assert!(EventId::parse("").is_err());
}

#[test]
fn topic_validation_accepts_charset() {
    for topic in [
        "a",
        "orders",
        "orders.order-placed",
        "a.b_c-d9",
        "0",
        &"x".repeat(128),
    ] {
        assert!(
            OutboxEvent::new(topic, b"").is_ok(),
            "topic {topic:?} must be accepted"
        );
    }
}

#[test]
fn topic_validation_rejects_the_rest() {
    let rejected = [
        "",               // empty
        "Orders",         // uppercase
        "has space",      // space
        "with/slash",     // path traversal attempt
        "with:colon",     // collides with routing syntax
        "ünicode",        // non-ASCII
        "emoji🙂",        // non-ASCII
        &"x".repeat(129), // too long
    ];
    for topic in rejected {
        let err = OutboxEvent::new(topic, b"").expect_err("topic must be rejected");
        assert!(
            matches!(err, EventError::InvalidTopic { .. }),
            "topic {topic:?} must be InvalidTopic, got {err:?}"
        );
        assert_eq!(OutboxEvent::new(topic, b"").unwrap_err(), err);
    }
}

#[test]
fn with_headers_and_validate() {
    let mut headers = Headers::new();
    headers.insert("trace-id".to_owned(), "abc".to_owned());
    let e = OutboxEvent::with_headers("orders", b"body", headers).unwrap();
    assert_eq!(e.headers.get("trace-id").map(String::as_str), Some("abc"));
    assert!(e.validate().is_ok());
}

#[test]
fn validate_rejects_bad_topic() {
    let mut e = event("orders");
    e.topic = "no good".to_owned();
    assert!(e.validate().is_err());
}

#[test]
fn public_api_smoke() {
    let id = EventId::now_v7();
    assert_eq!(id.to_string().len(), 36);
    assert_eq!(NEVER, u64::MAX);
    let e = OutboxEvent::new("a.b-c_d9", b"x").unwrap();
    assert_eq!(e.topic, "a.b-c_d9");
    let policy = BackoffPolicy::default();
    assert_eq!(policy.max_attempts, 12);
}

#[test]
fn every_topic_byte_is_classified() {
    for c in (0..=0x2ff_u32).filter_map(char::from_u32) {
        let topic = c.to_string();
        let accepted = matches!(c, 'a'..='z' | '0'..='9' | '_' | '.' | '-');
        assert_eq!(validate_topic(&topic).is_ok(), accepted, "{c:?}");
    }
}

#[test]
fn ids_parse_in_every_documented_form() {
    let value = 0x0123_4567_89ab_7def_8123_4567_89ab_cdef_u128;
    let text = "01234567-89ab-7def-8123-456789abcdef";
    assert_eq!(EventId::from_uuid(value).to_string(), text);
    for form in [
        text.to_owned(),
        text.to_uppercase(),
        text.replace('-', ""),
        format!("{{{text}}}"),
        format!("urn:uuid:{text}"),
        format!("URN:UUID:{text}"),
    ] {
        assert_eq!(EventId::parse(&form).unwrap().as_uuid(), value, "{form}");
    }
    for form in [
        format!("{text} "),
        format!("[{text}]"),
        format!("urn-uuid:{text}"),
        text.replacen('-', "_", 1),
        text.replacen('0', "g", 1),
        "é".repeat(18),
        "é".repeat(16),
    ] {
        assert_eq!(
            EventId::parse(&form),
            Err(EventError::InvalidId { input: form.clone() })
        );
    }
}

#[test]
fn text_order_is_number_order() {
    let mut state = 1_u128;
    let mut ids = Vec::new();
    for _ in 0..500 {
        state = state
            .wrapping_mul(0x2360_ED05_1FC6_5DA4_4385_DF64_9FCC_F645)
            .wrapping_add(0x5851_F42D_4C95_7F2D_1405_7B7E_F767_814F);
        ids.push(EventId::from_uuid(state >> (state % 128)));
    }
    for left in &ids {
        for right in &ids {
            assert_eq!(left.to_string() < right.to_string(), left < right);
            assert_eq!(left < right, left.as_uuid() < right.as_uuid());
        }
    }
}

#[test]
fn headers_keep_one_value_per_name_in_order() {
    let mut headers = Headers::new();
    assert_eq!(headers.insert("b".to_owned(), "1".to_owned()), None);
    assert_eq!(headers.insert("ä".to_owned(), "2".to_owned()), None);
    assert_eq!(headers.insert("a".to_owned(), "3".to_owned()), None);
    assert_eq!(headers.insert("ab".to_owned(), "4".to_owned()), None);
    assert_eq!(
        headers.insert("b".to_owned(), "5".to_owned()),
        Some("1".to_owned())
    );
    assert_eq!(headers.len(), 4);
    assert!(!headers.is_empty());
    let names: Vec<&str> = headers.entries().iter().map(|e| e.0.as_str()).collect();
    assert_eq!(names, ["a", "ab", "b", "ä"]);
    assert_eq!(headers.get("b").map(String::as_str), Some("5"));
    assert_eq!(headers.get("c"), None);
    assert_eq!(headers.clone(), headers);
    assert_eq!(Headers::default(), Headers::new());
}

#[test]
fn headers_agree_with_an_ordered_map() {
    let mut map = std::collections::BTreeMap::new();
    let mut headers = Headers::new();
    let mut state = 7_u64;
    for _ in 0..400 {
        state = outbox_kit::mix64(state);
        let name = format!("{:x}", state % 97);
        let value = format!("{state}");
        assert_eq!(
            headers.insert(name.clone(), value.clone()),
            map.insert(name, value)
        );
    }
    let listed: Vec<(String, String)> = map.into_iter().collect();
    assert_eq!(headers.entries(), &listed);
}

#[test]
fn assembled_events_are_fresh() {
    let mut headers = Headers::new();
    headers.insert("k".to_owned(), "v".to_owned());
    let id = EventId::from_uuid(9);
    let e = OutboxEvent::assemble(id, 77, "orders", b"p", headers.clone());
    assert_eq!(e.id, id);
    assert_eq!(e.created_at, 77);
    assert_eq!(e.topic, "orders");
    assert_eq!(e.payload, b"p");
    assert_eq!(e.headers, headers);
    assert_eq!((e.attempts, e.last_error.clone()), (0, None));
    assert_eq!(e.clone(), e);
}

#[test]
fn clock_readings_become_unix_milliseconds() {
    assert_eq!(millis_at(None), 0);
    assert_eq!(millis_at(Some(Delay::new(12, 345_678_901))), 12_345);
    assert_eq!(millis_at(Some(Delay::from_secs(u64::MAX))), u64::MAX);
    let since = std::time::SystemTime::now()
        .duration_since(std::time::UNIX_EPOCH)
        .unwrap();
    let then = millis_at(Some(Delay::new(since.as_secs(), since.subsec_nanos())));
    let now = now_millis();
    assert!(now >= then && now - then < 60_000);
}

#[test]
fn ids_are_minted_whatever_the_clock_says() {
    // A clock before the epoch counts as one that stands at it.
    let first = EventId::v7_at(None);
    let second = EventId::v7_at(None);
    assert_ne!(first, second);
    for id in [first, second] {
        let uuid = Uuid::from_u128(id.as_uuid());
        assert_eq!(uuid.get_version_num(), 7);
        assert_eq!(uuid.get_timestamp().unwrap().to_unix(), (0, 0));
    }
    let before = now_millis();
    let id = EventId::v7_at(read_clock());
    let after = now_millis();
    let (secs, nanos) = Uuid::from_u128(id.as_uuid()).get_timestamp().unwrap().to_unix();
    let minted = secs * 1_000 + u64::from(nanos) / 1_000_000;
    assert!(before <= minted && minted <= after + 1);
}

#[test]
fn producers_agree_but_for_the_headers() {
    let mut headers = Headers::new();
    headers.insert("k".to_owned(), "v".to_owned());
    let plain = OutboxEvent::new("orders", b"p").unwrap();
    let headed = OutboxEvent::with_headers("orders", b"p", headers.clone()).unwrap();
    assert_ne!(plain.id, headed.id);
    assert_eq!(headed.headers, headers);
    assert_eq!(headed.topic, plain.topic);
    assert_eq!(headed.payload, plain.payload);
    assert_eq!((headed.attempts, headed.last_error.clone()), (0, None));
    assert_eq!(headed.validate(), Ok(()));
    assert_eq!(
        OutboxEvent::new("BAD", b"p").unwrap_err(),
        OutboxEvent::with_headers("BAD", b"p", headers).unwrap_err()
    );
}
