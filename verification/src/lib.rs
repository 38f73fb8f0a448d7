//! Transactional outbox: durable event envelopes, at-least-once dispatch with
//! breaker-aware backoff, replay after restart.
//!
//! Instead of publishing an event and committing a transaction and hoping both
//! happen, a service appends an [`OutboxEvent`] to a store and lets a
//! dispatcher deliver it in the background. A crash between "the thing
//! happened" and "everyone was told" replays from the store: at least once,
//! never silently lost.
//!
//! - **Time-ordered envelopes.** [`EventId`] is a UUID of version 7.
//! - **Deterministic scheduling.** The store owns each event's
//!   `next_attempt_at`; `fetch_due` returns events ordered by
//!   `(next_attempt_at, id)`. Retries use exponential backoff with full jitter
//!   ([`BackoffPolicy`]); after `max_attempts` failures the event is parked at
//!   [`NEVER`]: countable, replayable, never dropped.
//! - **Breaker-aware dispatch.** Every send goes through a circuit breaker; a
//!   paused event's attempt budget is not consumed while the circuit is open.
//! - **Pluggable stores.** One [`OutboxStore`] trait, whose contract is stated
//!   over what a store holds ([`store::Outbox`]).
pub mod backoff;
pub mod clock;
pub mod delay;
pub mod dispatch;
pub mod error;
pub mod event;
pub mod event_id;
pub mod growth;
pub mod headers;
pub mod memory;
pub mod sqlite;
pub mod store;
pub mod table;

pub use crate::backoff::{mix64, seed_at, BackoffPolicy, NEVER};
pub use crate::clock::{millis_at, now_millis, read_clock};
pub use crate::delay::Delay;
pub use crate::dispatch::{
    BreakerShape, BreakerWait, Dispatcher, DispatcherConfig, LoopAction, LoopEvent, Phase,
    Recording, RunLoop, SendOutcome, DEFAULT_BATCH_SIZE, DEFAULT_CONCURRENCY, DEFAULT_POLL_INTERVAL,
};
pub use crate::error::{id_message, topic_message, DispatchError, EventError, StoreError};
pub use crate::event::{validate_topic, OutboxEvent};
pub use crate::event_id::EventId;
pub use crate::growth::GrowthFactor;
pub use crate::headers::Headers;
pub use crate::memory::MemoryStore;
pub use crate::sqlite::{
    clamp_attempt, clamp_i64, decode_headers, dispatch_column, due_query, encode_headers,
    event_from_row, events_from_rows, failure_columns, read_blob, read_u32, row_for, unclamp_u64,
    DueQuery, EventRow, PARKED_AS_I64,
};
pub use crate::store::{truncate_error, OutboxStore, MAX_ERROR_BYTES};
