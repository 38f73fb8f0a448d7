//! The stored form of events, against a real database.
use outbox_kit::{
    clamp_attempt, clamp_i64, decode_headers, dispatch_column, due_query, encode_headers, event_from_row, events_from_rows,
    failure_columns, now_millis, read_blob, read_u32, row_for, unclamp_u64, BackoffPolicy, Delay,
    DispatchError, Dispatcher, DispatcherConfig, EventId, EventRow, GrowthFactor, Headers,
    MemoryStore, OutboxEvent, OutboxStore, Recording, SendOutcome, StoreError, NEVER,
    PARKED_AS_I64,
};
use rusqlite::Connection;
use std::time::{Duration, Instant};

const SCHEMA: &str = "CREATE TABLE IF NOT EXISTS outbox_events (
    id TEXT NOT NULL PRIMARY KEY,
    topic TEXT NOT NULL,
    payload BLOB NOT NULL,
    headers BLOB NOT NULL,
    created_at INTEGER NOT NULL,
    attempts INTEGER NOT NULL,
    next_attempt_at INTEGER NOT NULL,
    last_error TEXT,
    dispatched_at INTEGER
)";

/// The statements of a durable store over the library's stored forms.
struct Table {
    conn: Connection,
}

fn backend(err: rusqlite::Error) -> StoreError {
    StoreError::Backend(err.to_string())
}

impl Table {
    fn open() -> Table {
        let conn = Connection::open_in_memory().unwrap();
        conn.execute_batch(SCHEMA).unwrap();
        Table { conn }
    }

    fn append(&self, event: &OutboxEvent) -> Result<(), StoreError> {
        let row = row_for(event)?;
        self.conn
            .execute(
                "INSERT OR IGNORE INTO outbox_events
                     (id, topic, payload, headers, created_at, attempts,
                      next_attempt_at, last_error, dispatched_at)
                 VALUES (?1, ?2, ?3, ?4, ?5, ?6, ?7, ?8, NULL)",
                (
                    row.id,
                    row.topic,
                    row.payload,
                    row.headers,
                    row.created_at,
                    row.attempts,
                    row.next_attempt_at,
                    row.last_error,
                ),
            )
            .map_err(backend)?;
        Ok(())
    }

    fn fetch_due(&self, limit: usize, now_ms: u64) -> Result<Vec<OutboxEvent>, StoreError> {
        let query = due_query(limit, now_ms);
        let mut statement = self
            .conn
            .prepare(
                "SELECT id, topic, payload, headers, created_at, attempts, next_attempt_at,
                        last_error
                 FROM outbox_events
                 WHERE dispatched_at IS NULL
                   AND next_attempt_at <= ?1 AND next_attempt_at < ?2
                 ORDER BY next_attempt_at, id
                 LIMIT ?3",
            )
            .map_err(backend)?;
        let rows = statement
            .query_map((query.now, query.parked, query.limit), |row| {
                Ok(EventRow {
                    id: row.get(0)?,
                    topic: row.get(1)?,
                    payload: row.get(2)?,
                    headers: row.get(3)?,
                    created_at: row.get(4)?,
                    attempts: row.get(5)?,
                    next_attempt_at: row.get(6)?,
                    last_error: row.get(7)?,
                })
            })
            .map_err(backend)?;
        events_from_rows(rows.map(|row| row.map_err(|e| e.to_string())).collect())
    }

    fn mark_dispatched(&self, id: &EventId) {
        self.conn
            .execute(
                "UPDATE outbox_events SET dispatched_at = ?1
                 WHERE id = ?2 AND dispatched_at IS NULL",
                (dispatch_column(), id.to_string()),
            )
            .unwrap();
    }

    fn mark_failed(&self, id: &EventId, error: &str, retry_at_ms: u64) {
        let (error, next_attempt_at) = failure_columns(error, retry_at_ms);
        self.conn
            .execute(
                "UPDATE outbox_events
                 SET attempts = attempts + 1, last_error = ?2, next_attempt_at = ?3
                 WHERE id = ?1",
                (id.to_string(), error, next_attempt_at),
            )
            .unwrap();
    }

    fn count(&self, condition: &str) -> u64 {
        let sql = format!(
            "SELECT COUNT(*) FROM outbox_events
             WHERE dispatched_at IS NULL AND next_attempt_at {condition} ?1"
        );
        let count: i64 = self
            .conn
            .query_row(&sql, [PARKED_AS_I64], |row| row.get(0))
            .unwrap();
        unclamp_u64(count)
    }

    fn pending_count(&self) -> u64 {
        self.count("<")
    }

    fn parked_count(&self) -> u64 {
        self.count(">=")
    }
}

fn event(topic: &str, created_at: u64) -> OutboxEvent {
    let mut e = OutboxEvent::new(topic, b"payload").unwrap();
    e.created_at = created_at;
    e
}

#[test]
fn mod_append_is_idempotent_on_id() {
    let store = Table::open();
    let mut e = event("orders", 1_000);
    store.append(&e).unwrap();
    store.append(&e).unwrap();
    e.attempts = 42;
    store.append(&e).unwrap();
    assert_eq!(store.pending_count(), 1);

    let (attempts, topic): (i64, String) = store
        .conn
        .query_row(
            "SELECT attempts, topic FROM outbox_events WHERE id = ?1",
            [e.id.to_string()],
            |row| Ok((row.get(0)?, row.get(1)?)),
        )
        .unwrap();
    assert_eq!(attempts, 0, "the second append must be ignored");
    assert_eq!(topic, "orders");
}

#[test]
fn mod_append_rejects_invalid_topic() {
    let store = Table::open();
    let mut e = event("orders", 1_000);
    e.topic = "BAD".to_owned();
    assert_eq!(
        store.append(&e).unwrap_err(),
        StoreError::InvalidTopic {
            topic: "BAD".into()
        }
    );
    assert_eq!(store.pending_count(), 0);
}

#[test]
fn mod_fetch_due_orders_and_filters() {
    let store = Table::open();
    for created_at in [3_000_u64, 1_000, 2_000, u64::MAX - 1] {
        store.append(&event("orders", created_at)).unwrap();
    }
    assert!(store.fetch_due(10, 999).unwrap().is_empty());
    let due = store.fetch_due(2, 2_000).unwrap();
    assert_eq!(due.len(), 2);
    let due = store.fetch_due(10, 3_000).unwrap();
    assert_eq!(due.len(), 3);
    let stamps: Vec<u64> = due.iter().map(|e| e.created_at).collect();
    let mut sorted = stamps.clone();
    sorted.sort_unstable();
    assert_eq!(stamps, sorted, "ORDER BY next_attempt_at must hold");
}

#[test]
fn headers_round_trip_deterministically() {
    let store = Table::open();
    let mut a = event("orders", 1_000);
    a.headers.insert("trace".to_owned(), "t-1".to_owned());
    a.headers
        .insert("content-type".to_owned(), "application/json".to_owned());
    store.append(&a).unwrap();

    let due = store.fetch_due(10, 2_000).unwrap();
    let first = due.first().expect("event is due");
    assert_eq!(first.headers, a.headers, "headers must round-trip");
    assert_eq!(
        encode_headers(&first.headers).unwrap(),
        encode_headers(&a.headers).unwrap(),
        "the same map must encode to identical bytes"
    );
}

#[test]
fn codec_rejects_corruption() {
    // Truncated prefix.
    assert!(decode_headers(&[0, 0]).is_err());
    // Count claims 1 entry, buffer is empty.
    assert!(decode_headers(&1_u32.to_le_bytes()).is_err());
    // Key length overruns the buffer.
    let mut bytes = 1_u32.to_le_bytes().to_vec();
    bytes.extend_from_slice(&u32::MAX.to_le_bytes());
    assert!(decode_headers(&bytes).is_err());
    // Non-UTF-8 key.
    let mut bytes = 1_u32.to_le_bytes().to_vec();
    bytes.extend_from_slice(&4_u32.to_le_bytes());
    bytes.extend_from_slice(&[0xFF, 0xFE, 0xFD, 0xFC]);
    bytes.extend_from_slice(&1_u32.to_le_bytes());
    bytes.extend_from_slice(b"v");
    assert!(decode_headers(&bytes).is_err());
}

#[test]
fn mod_mark_failed_increments_and_reschedules() {
    let store = Table::open();
    let e = event("orders", 1_000);
    store.append(&e).unwrap();

    store.mark_failed(&e.id, &"é".repeat(2048), 2_000);
    let due = store.fetch_due(10, 2_000).unwrap();
    let first = due.first().expect("rescheduled event is due");
    assert_eq!(first.attempts, 1);
    // Truncated to 1 KiB on a char boundary.
    assert_eq!(first.last_error.as_deref().map(str::len), Some(1024));

    store.mark_failed(&e.id, "second", 3_000);
    let due = store.fetch_due(10, 2_500).unwrap();
    assert!(due.is_empty());
    assert_eq!(store.pending_count(), 1);
}

#[test]
fn mod_mark_never_parks() {
    let store = Table::open();
    let e = event("orders", 1_000);
    store.append(&e).unwrap();
    store.mark_failed(&e.id, "giving up", NEVER);
    assert_eq!(store.pending_count(), 0);
    assert_eq!(store.parked_count(), 1);
    assert!(store.fetch_due(10, u64::MAX).unwrap().is_empty());
}

#[test]
fn mark_dispatched_is_terminal_and_retained() {
    let store = Table::open();
    let e = event("orders", 1_000);
    store.append(&e).unwrap();
    store.mark_dispatched(&e.id);
    assert!(store.fetch_due(10, u64::MAX).unwrap().is_empty());
    assert_eq!(store.pending_count(), 0);
    assert_eq!(store.parked_count(), 0);
    // Retained for audit: the row is still there with a timestamp.
    let (dispatched_at, count): (i64, i64) = store
        .conn
        .query_row(
            "SELECT dispatched_at, COUNT(*) FROM outbox_events WHERE id = ?1",
            [e.id.to_string()],
            |row| Ok((row.get(0)?, row.get(1)?)),
        )
        .unwrap();
    assert!(dispatched_at > 0, "dispatched_at must be stamped");
    assert_eq!(count, 1);
    // Double dispatch is a no-op (the guard excludes stamped rows).
    store.mark_dispatched(&e.id);
    // And a late failure report doesn't resurrect it.
    store.mark_failed(&e.id, "late", 2_000);
    assert_eq!(store.pending_count(), 0);
}

#[test]
fn mod_unknown_ids_are_no_ops() {
    let store = Table::open();
    let ghost = EventId::now_v7();
    store.mark_dispatched(&ghost);
    store.mark_failed(&ghost, "ghost", 2_000);
    assert_eq!(store.pending_count(), 0);
    assert_eq!(store.parked_count(), 0);
}

#[test]
fn mod_counts_track_lifecycle() {
    let store = Table::open();
    let a = event("orders", 1_000);
    let b = event("orders", 1_000);
    let c = event("orders", 1_000);
    for e in [&a, &b, &c] {
        store.append(e).unwrap();
    }
    assert_eq!(store.pending_count(), 3);
    assert_eq!(store.parked_count(), 0);
    store.mark_dispatched(&a.id);
    assert_eq!(store.pending_count(), 2);
    store.mark_failed(&b.id, "retrying", 5_000);
    assert_eq!(store.pending_count(), 2);
    store.mark_failed(&c.id, "parked", NEVER);
    assert_eq!(store.pending_count(), 1);
    assert_eq!(store.parked_count(), 1);
}

/// The full append, due, failed, dispatched lifecycle on one store.
#[test]
fn lifecycle_append_due_failed_dispatched() {
    let store = Table::open();
    let e = event("orders.order-placed", 1_000);
    store.append(&e).unwrap();

    // Not due yet.
    assert!(store.fetch_due(10, 999).unwrap().is_empty());
    // Due.
    let due = store.fetch_due(10, 1_000).unwrap();
    assert_eq!(due.len(), 1);
    assert_eq!(due.first().unwrap().id, e.id);
    assert_eq!(due.first().unwrap().topic, "orders.order-placed");

    // Fail, then succeed.
    store.mark_failed(&e.id, "503 service unavailable", 2_000);
    assert!(store.fetch_due(10, 1_999).unwrap().is_empty());
    let due = store.fetch_due(10, 2_000).unwrap();
    assert_eq!(due.first().unwrap().attempts, 1);
    assert_eq!(
        due.first().unwrap().last_error.as_deref(),
        Some("503 service unavailable")
    );
    store.mark_dispatched(&e.id);
    assert!(store.fetch_due(10, u64::MAX).unwrap().is_empty());
    assert_eq!(store.pending_count(), 0);
    assert_eq!(store.parked_count(), 0);
}

/// Append idempotency on a durable store: the crash-retry story.
#[test]
fn sqlite_outbox_append_is_idempotent_on_id() {
    let store = Table::open();
    let e = event("payments.settled", 1_000);
    for _ in 0..3 {
        store.append(&e).unwrap();
    }
    assert_eq!(store.pending_count(), 1);
}

/// Parked events disappear from `fetch_due/pending` and show up in parked.
#[test]
fn parking_keeps_events_replayable() {
    let store = Table::open();
    let e = event("orders", 1_000);
    store.append(&e).unwrap();
    store.mark_failed(&e.id, "exhausted retries", NEVER);
    assert_eq!(store.pending_count(), 0);
    assert_eq!(store.parked_count(), 1);
    assert!(store.fetch_due(10, u64::MAX).unwrap().is_empty());

    // Operator replay: reschedule (mark_failed with a real timestamp) brings
    // it back.
    store.mark_failed(&e.id, "operator replay", 5_000);
    let due = store.fetch_due(10, 5_000).unwrap();
    assert_eq!(due.len(), 1);
    assert_eq!(due.first().unwrap().attempts, 2);
}

/// Deterministic ordering across id ties, straight from SQL.
#[test]
fn fetch_due_orders_by_next_attempt_then_id() {
    let store = Table::open();
    for created_at in [4_000_u64, 2_000, 4_000, 3_000] {
        store.append(&event("orders", created_at)).unwrap();
    }
    let due = store.fetch_due(10, 4_000).unwrap();
    assert_eq!(due.len(), 4);
    let stamps: Vec<u64> = due.iter().map(|e| e.created_at).collect();
    let mut sorted = stamps.clone();
    sorted.sort_unstable();
    assert_eq!(stamps, sorted);
}

/// A failing sender drives attempts up and parks.
#[test]
fn dispatcher_failure_parks_on_sqlite() {
    let store = Table::open();
    let e = event("orders", 0);
    store.append(&e).unwrap();
    let config = DispatcherConfig {
        poll_interval: Delay::from_millis(10),
        backoff: BackoffPolicy {
            base: Delay::from_millis(5),
            factor: GrowthFactor::from_bits(2.0_f64.to_bits()),
            cap: Delay::from_millis(20),
            max_attempts: 3,
        },
        ..DispatcherConfig::default()
    };
    let dispatcher = Dispatcher::with_config(config);
    let deadline = Instant::now() + Duration::from_secs(5);
    while store.parked_count() < 1 {
        assert!(Instant::now() < deadline, "event never parked");
        for due in store.fetch_due(dispatcher.batch_limit(), now_millis()).unwrap() {
            let outcome = SendOutcome::Failure(DispatchError::Delivery("down".into()));
            match dispatcher.settle(&due, outcome) {
                Recording::Failed { error, retry_at_ms } => {
                    store.mark_failed(&due.id, &error, retry_at_ms)
                }
                other => panic!("unexpected recording {other:?}"),
            }
        }
    }
    assert_eq!(store.pending_count(), 0);
}

/// A corrupt id in the table surfaces as a typed Backend error rather than a
/// panic: the durable store must degrade gracefully.
#[test]
fn corrupt_state_surfaces_as_backend_error() {
    let store = Table::open();
    store
        .conn
        .execute_batch(
            "INSERT INTO outbox_events
                 (id, topic, payload, headers, created_at, attempts, next_attempt_at)
             VALUES ('not-a-uuid', 'orders', x'00', x'00000000', 0, 0, 0)",
        )
        .unwrap();
    let err = store.fetch_due(10, 1_000).unwrap_err();
    assert!(
        matches!(err, StoreError::Backend(ref message) if message.contains("corrupt event id")),
        "unexpected error: {err:?}"
    );
    assert_eq!(
        err,
        StoreError::Backend("corrupt event id in store: not-a-uuid".into())
    );
}

#[test]
fn stamps_clamp_into_integers() {
    assert_eq!(clamp_i64(0), 0);
    assert_eq!(clamp_i64(i64::MAX as u64), i64::MAX);
    assert_eq!(clamp_i64(i64::MAX as u64 + 1), i64::MAX);
    assert_eq!(clamp_i64(NEVER), PARKED_AS_I64);
    assert_eq!(unclamp_u64(17), 17);
    assert_eq!(unclamp_u64(i64::MAX), i64::MAX as u64);
    assert_eq!(unclamp_u64(-1), u64::MAX);
    assert_eq!(unclamp_u64(clamp_i64(1_700_000_000_000)), 1_700_000_000_000);
}

#[test]
fn headers_have_the_documented_bytes() {
    let mut headers = Headers::new();
    assert_eq!(encode_headers(&headers).unwrap(), [0, 0, 0, 0]);
    headers.insert("k".to_owned(), "é".to_owned());
    headers.insert("a".to_owned(), String::new());
    let bytes = encode_headers(&headers).unwrap();
    assert_eq!(
        bytes,
        [
            2, 0, 0, 0, // count
            1, 0, 0, 0, b'a', 0, 0, 0, 0, // a, empty
            1, 0, 0, 0, b'k', 2, 0, 0, 0, 0xC3, 0xA9, // k, é
        ]
    );
    assert_eq!(decode_headers(&bytes).unwrap(), headers);
    // Bytes after the last entry are ignored.
    let mut longer = bytes.clone();
    longer.extend_from_slice(b"junk");
    assert_eq!(decode_headers(&longer).unwrap(), headers);
    // Every cut is corrupt.
    for len in 0..bytes.len() {
        assert_eq!(
            decode_headers(&bytes[..len]),
            Err(StoreError::Backend("corrupt headers blob".into())),
            "{len} bytes"
        );
    }
}

#[test]
fn each_corruption_has_its_diagnostic() {
    let entry = |key: &[u8], value: &[u8]| {
        let mut bytes = 1_u32.to_le_bytes().to_vec();
        for blob in [key, value] {
            bytes.extend_from_slice(&(blob.len() as u32).to_le_bytes());
            bytes.extend_from_slice(blob);
        }
        bytes
    };
    let diagnostic = |bytes: &[u8]| match decode_headers(bytes) {
        Err(StoreError::Backend(text)) => text,
        other => panic!("unexpected {other:?}"),
    };
    assert_eq!(diagnostic(&[]), "corrupt headers blob");
    assert_eq!(diagnostic(&entry(&[0xFF], b"v")), "corrupt header key");
    assert_eq!(diagnostic(&entry(b"k", &[0xC3])), "corrupt header value");
    assert_eq!(diagnostic(&entry(&[0xFF], &[0xFF])), "corrupt header key");
    // A truncated value is found before its key's encoding is looked at.
    let mut cut = entry(&[0xFF], b"vv");
    cut.pop();
    assert_eq!(diagnostic(&cut), "corrupt headers blob");
    // A later entry of the same name wins.
    let mut twice = 2_u32.to_le_bytes().to_vec();
    twice.extend_from_slice(&entry(b"k", b"1")[4..]);
    twice.extend_from_slice(&entry(b"k", b"2")[4..]);
    let headers = decode_headers(&twice).unwrap();
    assert_eq!(headers.len(), 1);
    assert_eq!(headers.get("k").map(String::as_str), Some("2"));
}

#[test]
fn cursors_advance_past_what_was_read() {
    let bytes = [3, 0, 0, 0, 7, 8, 9, 10, 1];
    let mut cursor: &[u8] = &bytes;
    assert_eq!(read_u32(&mut cursor), Ok(3));
    assert_eq!(cursor, &bytes[4..]);
    let mut cursor: &[u8] = &bytes;
    assert_eq!(read_blob(&mut cursor), Ok(&bytes[4..7]));
    assert_eq!(cursor, &bytes[7..]);
    assert_eq!(
        read_u32(&mut cursor),
        Err(StoreError::Backend("corrupt headers blob".into()))
    );
    assert_eq!(cursor, &bytes[7..]);
    let mut cursor: &[u8] = &[9, 0, 0, 0, 1];
    assert!(read_blob(&mut cursor).is_err());
    assert_eq!(cursor, &[1]);
    let mut cursor: &[u8] = &[0x78, 0x56, 0x34, 0x12];
    assert_eq!(read_u32(&mut cursor), Ok(0x1234_5678));
}

#[test]
fn rows_round_trip_events() {
    let mut e = event("orders", 1_700_000_000_123);
    e.headers.insert("k".to_owned(), "v".to_owned());
    e.attempts = 3;
    e.last_error = Some("boom".to_owned());
    let row = row_for(&e).unwrap();
    assert_eq!(row.id, e.id.to_string());
    assert_eq!(row.created_at, 1_700_000_000_123);
    assert_eq!(row.next_attempt_at, 1_700_000_000_123);
    assert_eq!(row.attempts, 3);
    assert_eq!(event_from_row(row).unwrap(), e);
    // A creation time beyond an INTEGER is clamped.
    e.created_at = u64::MAX - 1;
    let row = row_for(&e).unwrap();
    assert_eq!((row.created_at, row.next_attempt_at), (i64::MAX, i64::MAX - 1));
    let back = event_from_row(row).unwrap();
    assert_eq!(back.created_at, i64::MAX as u64);
}

#[test]
fn only_never_is_stored_as_parked() {
    assert_eq!(clamp_attempt(0), 0);
    assert_eq!(clamp_attempt(i64::MAX as u64 - 1), i64::MAX - 1);
    assert_eq!(clamp_attempt(i64::MAX as u64), i64::MAX - 1);
    assert_eq!(clamp_attempt(u64::MAX - 1), i64::MAX - 1);
    assert_eq!(clamp_attempt(NEVER), PARKED_AS_I64);
    for late in [i64::MAX as u64 - 1, i64::MAX as u64, i64::MAX as u64 + 1, u64::MAX - 1] {
        let store = Table::open();
        let e = event("orders", late);
        store.append(&e).unwrap();
        assert_eq!((store.pending_count(), store.parked_count()), (1, 0));
        assert!(store.fetch_due(10, i64::MAX as u64 - 2).unwrap().is_empty());
        assert_eq!(store.fetch_due(10, u64::MAX).unwrap().len(), 1);
        store.mark_failed(&e.id, "exhausted", NEVER);
        assert_eq!((store.pending_count(), store.parked_count()), (0, 1));
        store.mark_failed(&e.id, "replay", late);
        assert_eq!((store.pending_count(), store.parked_count()), (1, 0));
    }
    let store = Table::open();
    store.append(&event("orders", NEVER)).unwrap();
    assert_eq!((store.pending_count(), store.parked_count()), (0, 1));
}

#[test]
fn the_first_dispatch_stamp_is_kept() {
    let store = Table::open();
    let e = event("orders", 5);
    let other = event("orders", 6);
    store.append(&e).unwrap();
    store.append(&other).unwrap();
    let stamp = |id: &EventId| -> Option<i64> {
        store
            .conn
            .query_row(
                "SELECT dispatched_at FROM outbox_events WHERE id = ?1",
                [id.to_string()],
                |row| row.get(0),
            )
            .unwrap()
    };
    let before = clamp_i64(now_millis());
    store.mark_dispatched(&e.id);
    let after = clamp_i64(now_millis());
    let first = stamp(&e.id).expect("the row is kept and stamped");
    assert!(before <= first && first <= after);
    while clamp_i64(now_millis()) == after {}
    store.mark_dispatched(&e.id);
    assert_eq!(stamp(&e.id), Some(first), "a second dispatch keeps the first stamp");
    store.mark_dispatched(&EventId::from_uuid(1));
    assert_eq!(stamp(&other.id), None);
    let rows: i64 = store
        .conn
        .query_row("SELECT COUNT(*) FROM outbox_events", [], |row| row.get(0))
        .unwrap();
    assert_eq!(rows, 2, "an unknown id adds no row");
}

#[test]
fn the_first_bad_row_decides() {
    let good = || row_for(&event("orders", 5)).unwrap();
    let bad_headers = || EventRow {
        headers: vec![1],
        ..good()
    };
    let bad_id = || EventRow {
        id: "x".to_owned(),
        headers: vec![1],
        ..good()
    };
    let odd_attempts = |attempts| EventRow { attempts, ..good() };
    assert_eq!(events_from_rows(Vec::new()), Ok(Vec::new()));
    assert_eq!(events_from_rows(vec![Ok(good()), Ok(good())]).unwrap().len(), 2);
    assert_eq!(
        events_from_rows(vec![Ok(good()), Ok(bad_headers()), Err("disk".to_owned())]),
        Err(StoreError::Backend("corrupt headers blob".into()))
    );
    assert_eq!(
        events_from_rows(vec![Ok(good()), Err("disk".to_owned()), Ok(bad_headers())]),
        Err(StoreError::Backend("disk".into()))
    );
    assert_eq!(
        event_from_row(bad_id()),
        Err(StoreError::Backend("corrupt event id in store: x".into()))
    );
    assert_eq!(event_from_row(odd_attempts(-1)).unwrap().attempts, u32::MAX);
    assert_eq!(
        event_from_row(odd_attempts(i64::from(u32::MAX) + 1)).unwrap().attempts,
        u32::MAX
    );
}

#[test]
fn queries_clamp_their_bounds() {
    let query = due_query(usize::MAX, u64::MAX);
    assert_eq!(query.now, i64::MAX);
    assert_eq!(query.parked, i64::MAX);
    assert_eq!(query.limit, i64::MAX);
    let query = due_query(7, 1_234);
    assert_eq!((query.now, query.limit), (1_234, 7));
    let (error, at) = failure_columns(&"x".repeat(2_000), NEVER);
    assert_eq!((error.len(), at), (1024, PARKED_AS_I64));
    assert_eq!(failure_columns("late", u64::MAX - 1).1, i64::MAX - 1);
    assert_eq!(failure_columns("soon", 17).1, 17);
}

/// Both stores, told the same, hold and fetch the same.
#[test]
fn both_stores_agree() {
    let mut memory = MemoryStore::new();
    let table = Table::open();
    let mut ids = Vec::new();
    let mut state = 11_u64;
    for n in 0..400_u64 {
        state = outbox_kit::mix64(state);
        match state % 5 {
            0 | 1 => {
                let mut e = event("orders", state % 60);
                e.payload = n.to_le_bytes().to_vec();
                e.headers.insert(format!("h{}", state % 3), format!("{n}"));
                ids.push(e.id);
                memory.append(&e).unwrap();
                table.append(&e).unwrap();
            }
            2 | 3 if !ids.is_empty() => {
                let id = ids[(state / 8) as usize % ids.len()];
                let at = match state % 7 {
                    0 | 1 => NEVER,
                    2 => i64::MAX as u64 - 1,
                    _ => state % 60,
                };
                let error = format!("failure {n}");
                memory.mark_failed(&id, &error, at).unwrap();
                table.mark_failed(&id, &error, at);
            }
            4 if !ids.is_empty() && state % 2 == 0 => {
                let id = ids[(state / 8) as usize % ids.len()];
                memory.mark_dispatched(&id).unwrap();
                table.mark_dispatched(&id);
            }
            _ => {}
        }
        assert_eq!(memory.pending_count().unwrap(), table.pending_count());
        assert_eq!(memory.parked_count().unwrap(), table.parked_count());
        for (limit, now) in [(3, state % 60), (1_000, 59), (1_000, u64::MAX)] {
            assert_eq!(memory.fetch_due(limit, now), table.fetch_due(limit, now));
        }
    }
}
