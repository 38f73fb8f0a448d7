//! Error messages and conversions.
use outbox_kit::{
    id_message, topic_message, DispatchError, EventError, EventId, OutboxEvent, StoreError,
};

#[test]
fn event_error_display_is_informative() {
    let err = EventError::InvalidTopic {
        topic: "BAD TOPIC".into(),
    };
    assert_eq!(
        err.to_string(),
        "invalid outbox topic \"BAD TOPIC\": must match [a-z0-9_.-]{1,128}"
    );
    let err = EventError::InvalidId {
        input: "nope".into(),
    };
    assert_eq!(
        err.to_string(),
        "invalid event id \"nope\": expected a hyphenated UUID string"
    );
}

#[test]
fn store_error_display_is_informative() {
    assert_eq!(
        StoreError::InvalidTopic { topic: "X".into() }.to_string(),
        "invalid outbox topic \"X\": must match [a-z0-9_.-]{1,128}"
    );
    assert_eq!(
        StoreError::Backend("disk on fire".into()).to_string(),
        "outbox store backend failure: disk on fire"
    );
}

#[test]
fn dispatch_error_display_and_conversions() {
    assert_eq!(
        DispatchError::Delivery("502 bad gateway".into()).to_string(),
        "delivery failed: 502 bad gateway"
    );
    assert_eq!(
        DispatchError::from("boom".to_string()),
        DispatchError::Delivery("boom".into())
    );
    assert_eq!(
        DispatchError::from("plain"),
        DispatchError::Delivery("plain".into())
    );
}

#[test]
fn typed_errors_surface() {
    assert!(matches!(
        OutboxEvent::new("BAD TOPIC", b""),
        Err(EventError::InvalidTopic { .. })
    ));
    assert!(matches!(
        EventId::parse("garbage"),
        Err(EventError::InvalidId { .. })
    ));
    assert_eq!(
        StoreError::Backend("x".into()).to_string(),
        "outbox store backend failure: x"
    );
    assert_eq!(DispatchError::from("y").to_string(), "delivery failed: y");
}

#[test]
fn rejected_text_is_quoted_and_escaped() {
    let text = "tab\t quote\" back\\slash";
    assert_eq!(
        EventError::InvalidTopic { topic: text.into() }.to_string(),
        format!("invalid outbox topic {text:?}: must match [a-z0-9_.-]{{1,128}}")
    );
    assert_eq!(
        EventError::InvalidId { input: text.into() }.to_string(),
        format!("invalid event id {text:?}: expected a hyphenated UUID string")
    );
}

#[test]
fn messages_frame_the_quoted_text() {
    assert_eq!(
        topic_message("<q>"),
        "invalid outbox topic <q>: must match [a-z0-9_.-]{1,128}"
    );
    assert_eq!(
        id_message("<q>"),
        "invalid event id <q>: expected a hyphenated UUID string"
    );
}

#[test]
fn errors_clone_to_equal_values() {
    let event = EventError::InvalidId { input: "a".into() };
    let store = StoreError::Backend("b".into());
    let dispatch = DispatchError::Delivery("c".into());
    assert_eq!(event.clone(), event);
    assert_eq!(store.clone(), store);
    assert_eq!(dispatch.clone(), dispatch);
}
