//! The in-process store.
use outbox_kit::{
    BackoffPolicy, Delay, EventId, GrowthFactor, MemoryStore, OutboxEvent, OutboxStore, StoreError,
    NEVER,
};

fn event(topic: &str, created_at: u64) -> OutboxEvent {
    let mut e = OutboxEvent::new(topic, b"payload").unwrap();
    e.created_at = created_at;
    e
}

#[test]
fn memory_append_is_idempotent_on_id() {
    let mut store = MemoryStore::new();
    let mut e = event("orders", 1_000);
    store.append(&e).unwrap();
    // Same id appended again: ignored, still one row.
    store.append(&e).unwrap();
    e.attempts = 99; // mutation is irrelevant: same id
    store.append(&e).unwrap();
    assert_eq!(store.pending_count().unwrap(), 1);
    assert_eq!(store.len(), 1);
}

#[test]
fn append_after_dispatch_is_also_ignored() {
    let mut store = MemoryStore::new();
    let e = event("orders", 1_000);
    store.append(&e).unwrap();
    store.mark_dispatched(&e.id).unwrap();
    store.append(&e).unwrap();
    assert_eq!(store.pending_count().unwrap(), 0);
    assert_eq!(store.len(), 1, "dispatched id is tracked once");
}

#[test]
fn memory_append_rejects_invalid_topic() {
    let mut store = MemoryStore::new();
    let mut e = event("orders", 1_000);
    e.topic = "BAD".to_owned();
    assert_eq!(
        store.append(&e).unwrap_err(),
        StoreError::InvalidTopic {
            topic: "BAD".into()
        }
    );
    assert!(store.is_empty());
}

#[test]
fn memory_fetch_due_orders_and_filters() {
    let mut store = MemoryStore::new();
    // Insert deliberately out of order.
    for created_at in [3_000_u64, 1_000, 2_000] {
        store.append(&event("orders", created_at)).unwrap();
    }
    let future = event("orders", u64::MAX - 1);
    store.append(&future).unwrap();

    // Nothing is due before the earliest created_at.
    assert!(store.fetch_due(10, 999).unwrap().is_empty());
    // At 2_000: exactly the two earliest, in (next_attempt_at, id) order.
    let due = store.fetch_due(2, 2_000).unwrap();
    assert_eq!(due.len(), 2);
    assert!(
        due[0].created_at <= due[1].created_at,
        "fetch_due must return events in schedule order"
    );
    // Limit 10 at 3_000 returns the three matured events, sorted.
    let due = store.fetch_due(10, 3_000).unwrap();
    assert_eq!(due.len(), 3);
    let stamps: Vec<u64> = due.iter().map(|e| e.created_at).collect();
    let mut sorted = stamps.clone();
    sorted.sort_unstable();
    assert_eq!(stamps, sorted);
}

#[test]
fn fetch_due_is_deterministic_on_id_ties() {
    let mut store = MemoryStore::new();
    let mut first = event("orders", 5_000);
    let mut second = event("orders", 5_000);
    if first.id > second.id {
        std::mem::swap(&mut first, &mut second);
    }
    store.append(&second).unwrap();
    store.append(&first).unwrap();
    let due = store.fetch_due(10, 5_000).unwrap();
    assert_eq!(due.first().map(|e| e.id), Some(first.id));
    assert_eq!(due.get(1).map(|e| e.id), Some(second.id));
}

#[test]
fn memory_mark_failed_increments_and_reschedules() {
    let mut store = MemoryStore::new();
    let e = event("orders", 1_000);
    store.append(&e).unwrap();

    store.mark_failed(&e.id, "first boom", 2_000).unwrap();
    let due = store.fetch_due(10, 2_000).unwrap();
    let first = due.first().expect("rescheduled event is due");
    assert_eq!(first.attempts, 1);
    assert_eq!(first.last_error.as_deref(), Some("first boom"));

    store.mark_failed(&e.id, "second boom", 3_000).unwrap();
    let due = store.fetch_due(10, 2_500).unwrap();
    assert!(due.is_empty(), "rescheduled out of the due window");
    assert_eq!(store.pending_count().unwrap(), 1);
}

#[test]
fn mark_failed_truncates_errors() {
    let mut store = MemoryStore::new();
    let e = event("orders", 1_000);
    store.append(&e).unwrap();
    store.mark_failed(&e.id, &"x".repeat(4096), 2_000).unwrap();
    let due = store.fetch_due(10, 2_000).unwrap();
    assert_eq!(
        due.first()
            .and_then(|e| e.last_error.as_deref().map(str::len)),
        Some(1024)
    );
}

#[test]
fn memory_mark_never_parks() {
    let mut store = MemoryStore::new();
    let e = event("orders", 1_000);
    store.append(&e).unwrap();
    store.mark_failed(&e.id, "giving up", NEVER).unwrap();
    assert_eq!(store.pending_count().unwrap(), 0);
    assert_eq!(store.parked_count().unwrap(), 1);
    assert!(store.fetch_due(10, u64::MAX).unwrap().is_empty());
    // Parked stays parked through further failures.
    store.mark_failed(&e.id, "still parked", NEVER).unwrap();
    assert_eq!(store.parked_count().unwrap(), 1);
    let slot = store.get(&e.id).expect("parked event stays tracked");
    assert_eq!(slot.attempts, 2);
    assert_eq!(slot.last_error.as_deref(), Some("still parked"));
}

#[test]
fn mark_dispatched_is_terminal() {
    let mut store = MemoryStore::new();
    let e = event("orders", 1_000);
    store.append(&e).unwrap();
    store.mark_dispatched(&e.id).unwrap();
    assert!(store.fetch_due(10, u64::MAX).unwrap().is_empty());
    assert_eq!(store.pending_count().unwrap(), 0);
    assert_eq!(store.parked_count().unwrap(), 0);
    // Later failure reports are a no-op.
    store.mark_failed(&e.id, "late", 2_000).unwrap();
    assert_eq!(store.pending_count().unwrap(), 0);
}

#[test]
fn memory_unknown_ids_are_no_ops() {
    let mut store = MemoryStore::new();
    let ghost = EventId::now_v7();
    store.mark_dispatched(&ghost).unwrap();
    store.mark_failed(&ghost, "ghost", 2_000).unwrap();
    assert_eq!(store.pending_count().unwrap(), 0);
    assert_eq!(store.parked_count().unwrap(), 0);
    assert!(store.fetch_due(10, u64::MAX).unwrap().is_empty());
    // The dispatched id is recorded (terminal), never pending.
    assert_eq!(store.len(), 1);
}

#[test]
fn memory_counts_track_lifecycle() {
    let mut store = MemoryStore::new();
    let a = event("orders", 1_000);
    let b = event("orders", 1_000);
    let c = event("orders", 1_000);
    for e in [&a, &b, &c] {
        store.append(e).unwrap();
    }
    assert_eq!(store.pending_count().unwrap(), 3);
    assert_eq!(store.parked_count().unwrap(), 0);
    store.mark_dispatched(&a.id).unwrap();
    assert_eq!(store.pending_count().unwrap(), 2);
    store.mark_failed(&b.id, "retrying", 5_000).unwrap();
    assert_eq!(store.pending_count().unwrap(), 2, "retries stay pending");
    store.mark_failed(&c.id, "parked", NEVER).unwrap();
    assert_eq!(store.pending_count().unwrap(), 1);
    assert_eq!(store.parked_count().unwrap(), 1);
}

#[test]
fn default_is_empty() {
    assert!(MemoryStore::default().is_empty());
    assert_eq!(MemoryStore::default().len(), 0);
}

#[test]
fn fetch_due_respects_zero_limit() {
    let mut store = MemoryStore::new();
    store.append(&event("orders", 1_000)).unwrap();
    assert!(store.fetch_due(0, u64::MAX).unwrap().is_empty());
}

/// Same id appended twice = one row, on the trait-object shape.
#[test]
fn append_is_idempotent_on_id_across_dyn_stores() {
    let mut store: Box<dyn OutboxStore> = Box::new(MemoryStore::new());
    let mut e = event("orders", 1_000);
    store.append(&e).unwrap();
    store.append(&e).unwrap();
    e.attempts = 7; // same id: ignored regardless of content drift
    store.append(&e).unwrap();
    assert_eq!(store.pending_count().unwrap(), 1);
    let due = store.fetch_due(10, 2_000).unwrap();
    assert_eq!(due.len(), 1);
    assert_eq!(due.first().map(|ev| ev.attempts), Some(0));
}

/// `fetch_due` returns due events in `(next_attempt_at, id)` order and hides
/// not-yet-due and parked events.
#[test]
fn fetch_due_ordering_and_filtering() {
    let mut store: Box<dyn OutboxStore> = Box::new(MemoryStore::new());
    for created_at in [3_000_u64, 1_000, 2_000] {
        store.append(&event("orders", created_at)).unwrap();
    }
    store.append(&event("orders", 9_999)).unwrap();

    assert!(store.fetch_due(10, 999).unwrap().is_empty());
    assert_eq!(store.fetch_due(10, 1_000).unwrap().len(), 1);
    let due = store.fetch_due(10, 3_000).unwrap();
    assert_eq!(due.len(), 3);
    let stamps: Vec<u64> = due.iter().map(|e| e.created_at).collect();
    let mut sorted = stamps.clone();
    sorted.sort_unstable();
    assert_eq!(stamps, sorted);

    // Parked events never surface.
    store
        .mark_failed(&due.first().unwrap().id, "parked", NEVER)
        .unwrap();
    let due = store.fetch_due(10, 3_000).unwrap();
    assert_eq!(due.len(), 2);
    // Pending includes the not-yet-due (9_999) event; parked does not.
    assert_eq!(store.pending_count().unwrap(), 3);
    assert_eq!(store.parked_count().unwrap(), 1);
}

/// The retry schedule is monotonic, bounded, and parks after `max_attempts`
/// failures, through the real store API.
#[test]
fn backoff_schedule_parks_after_max_attempts() {
    let policy = BackoffPolicy {
        base: Delay::from_millis(10),
        factor: GrowthFactor::from_bits(2.0_f64.to_bits()),
        cap: Delay::from_millis(100),
        max_attempts: 4,
    };
    // Monotonic, capped.
    let mut previous = Delay::zero();
    for attempt in 0_u32..40 {
        let delay = policy.exponential_delay(attempt);
        assert!(delay >= previous);
        assert!(delay <= policy.cap);
        previous = delay;
    }

    // Park after 4 failures: the 4th mark_failed passes NEVER (the
    // dispatcher's rule), the store surfaces it in parked_count only.
    let mut store: Box<dyn OutboxStore> = Box::new(MemoryStore::new());
    let e = event("orders", 1_000);
    store.append(&e).unwrap();
    for attempt in 1_u32..=4 {
        let retry_at = if attempt < 4 {
            u64::from(attempt) * 10
        } else {
            NEVER
        };
        store
            .mark_failed(&e.id, &format!("failure {attempt}"), retry_at)
            .unwrap();
    }
    assert_eq!(store.pending_count().unwrap(), 0);
    assert_eq!(store.parked_count().unwrap(), 1);
    assert!(policy.is_exhausted(4));
}

#[test]
fn parked_events_replay_when_rescheduled() {
    let mut store = MemoryStore::new();
    let e = event("orders", 1_000);
    store.append(&e).unwrap();
    store.mark_failed(&e.id, "exhausted", NEVER).unwrap();
    assert!(store.fetch_due(10, u64::MAX).unwrap().is_empty());
    store.mark_failed(&e.id, "operator replay", 5_000).unwrap();
    assert_eq!(store.parked_count().unwrap(), 0);
    assert!(store.fetch_due(10, 4_999).unwrap().is_empty());
    let due = store.fetch_due(10, 5_000).unwrap();
    assert_eq!(due.len(), 1);
    assert_eq!(due[0].attempts, 2);
}

#[test]
fn an_event_created_at_never_is_parked() {
    let mut store = MemoryStore::new();
    store.append(&event("orders", NEVER)).unwrap();
    assert_eq!(store.pending_count().unwrap(), 0);
    assert_eq!(store.parked_count().unwrap(), 1);
    assert!(store.fetch_due(10, u64::MAX).unwrap().is_empty());
}

#[test]
fn attempts_saturate() {
    let mut store = MemoryStore::new();
    let mut e = event("orders", 1_000);
    e.attempts = u32::MAX;
    store.append(&e).unwrap();
    store.mark_failed(&e.id, "again", 1_000).unwrap();
    assert_eq!(store.get(&e.id).unwrap().attempts, u32::MAX);
}

#[test]
fn failures_and_other_ids_keep_the_event() {
    let mut store = MemoryStore::new();
    let mut e = event("orders", 1_000);
    e.headers.insert("k".to_owned(), "v".to_owned());
    store.append(&e).unwrap();
    let other = event("orders", 2_000);
    store.append(&other).unwrap();
    store.mark_failed(&other.id, "no", 9).unwrap();
    store.mark_dispatched(&other.id).unwrap();
    assert_eq!(store.get(&e.id), Some(&e));
    assert_eq!(store.get(&other.id), None);
    store.mark_failed(&e.id, "no", 9).unwrap();
    let kept = store.get(&e.id).unwrap();
    assert_eq!(kept.payload, e.payload);
    assert_eq!(kept.headers, e.headers);
    assert_eq!(kept.created_at, e.created_at);
}

#[test]
fn fetching_follows_the_dispatch_order() {
    let mut store = MemoryStore::new();
    let mut expected = Vec::new();
    let mut state = 3_u64;
    for n in 0..300_u128 {
        state = outbox_kit::mix64(state);
        let id = EventId::from_uuid(u128::from(state) << 64 | n);
        let mut e = event("orders", state % 50);
        e.id = id;
        store.append(&e).unwrap();
        let at = match state % 7 {
            0 => NEVER,
            1 => 1_000 + state % 3,
            _ => state % 50,
        };
        if state % 7 < 2 {
            store.mark_failed(&id, "moved", at).unwrap();
        }
        if at != NEVER && at <= 1_001 {
            expected.push((at, id));
        }
    }
    expected.sort_unstable();
    for limit in [0, 1, 17, 299, 1_000] {
        let due = store.fetch_due(limit, 1_001).unwrap();
        let ids: Vec<EventId> = due.iter().map(|e| e.id).collect();
        let wanted: Vec<EventId> = expected.iter().take(limit).map(|key| key.1).collect();
        assert_eq!(ids, wanted, "limit {limit}");
    }
    let (pending, parked) = (store.pending_count().unwrap(), store.parked_count().unwrap());
    assert_eq!(pending + parked, 300);
}

#[test]
fn ids_on_record_are_counted_once_and_never_forgotten() {
    let mut store = MemoryStore::new();
    let mut recorded: Vec<u128> = Vec::new();
    let mut dispatched: Vec<u128> = Vec::new();
    let mut state = 5_u64;
    assert!(store.is_empty());
    for _ in 0..500 {
        state = outbox_kit::mix64(state);
        let before = store.len();
        let n = u128::from(state >> 32) % 40;
        let id = EventId::from_uuid(n);
        match state % 4 {
            0 => {
                let mut e = event("orders", state % 9);
                e.id = id;
                if state % 5 == 0 {
                    e.topic = "BAD".to_owned();
                    assert!(store.append(&e).is_err());
                } else {
                    store.append(&e).unwrap();
                    recorded.push(n);
                }
            }
            1 => store.mark_failed(&id, "down", state % 9).unwrap(),
            2 if state % 3 == 0 => {
                store.mark_dispatched(&id).unwrap();
                recorded.push(n);
                dispatched.push(n);
            }
            _ => {
                let _ = store.fetch_due(3, state % 9).unwrap();
            }
        }
        recorded.sort_unstable();
        recorded.dedup();
        dispatched.sort_unstable();
        dispatched.dedup();
        assert!(before <= store.len());
        assert_eq!(store.len(), recorded.len());
        let live = store.pending_count().unwrap() + store.parked_count().unwrap();
        assert_eq!(store.len(), live as usize + dispatched.len());
        assert_eq!(store.is_empty(), store.len() == 0);
    }
}

#[test]
fn an_append_adds_its_event_and_touches_no_other() {
    let mut store = MemoryStore::new();
    let old = event("orders", 3);
    store.append(&old).unwrap();
    store.mark_failed(&old.id, "down", 8).unwrap();
    let kept = store.get(&old.id).unwrap().clone();
    for created_at in [0, 5, u64::MAX - 1, NEVER] {
        let e = event("orders", created_at);
        let before = store.len();
        store.append(&e).unwrap();
        assert_eq!(store.len(), before + 1);
        for now in [0, 4, 5, u64::MAX - 1, u64::MAX] {
            let due = store.fetch_due(usize::MAX, now).unwrap();
            assert_eq!(due.contains(&e), created_at <= now && created_at != NEVER);
            assert_eq!(due.contains(&kept), 8 <= now);
        }
    }
}
