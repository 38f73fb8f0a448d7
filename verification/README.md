# outbox-kit

Transactional outbox, verified with Verus: durable event envelopes,
at-least-once dispatch with breaker-aware backoff, replay after restart.

- `src/` is the library. Every function states what it returns or changes, and
  Verus proves it.
- `app/` is ordinary Rust around it: the asynchronous store trait, the mutex
  around the in-process store, the SQLite statements, the tokio dispatch loop,
  serde and `std::error::Error` on copies of the library's types.
- `tests/` runs the library, with the real `uuid`, `rand`, `breaker` and
  `rusqlite`.

## Modules

| Module | Holds |
|---|---|
| `delay` | spans of time with nanosecond resolution |
| `growth` | binary64 scaling of whole counts, in exact integers |
| `backoff` | the retry schedule, its jitter and its seeds |
| `clock` | the wall clock |
| `error` | errors and their messages |
| `event_id` | event ids and their text form |
| `headers` | event headers, a map with a fixed order |
| `event` | the envelope and its topic |
| `store` | what a store holds (`Outbox`), the `OutboxStore` trait, truncation |
| `memory` | the in-process store |
| `sqlite` | the stored form of events: header codec, rows, query bounds |
| `table` | what the statements on the SQLite table do |
| `dispatch` | what to record of a send, and the poll loop as a state machine |

## What is proved

The contract of a store is stated over an `Outbox`: the live events with their
next attempt, and the dispatched ids. On it stand the promises of the kit:
appending is idempotent on the id; dispatched is terminal; only its own
`mark_dispatched` ends an event's life; `NEVER` parks and a real timestamp
replays; the due batch for a state, a limit and a time is unique and ordered by
`(next_attempt_at, id)`. The in-process store implements it. For the SQLite
store it is proved that rows round-trip events, that equal headers have equal
bytes, that a dispatch stamps its row once, and that each statement, as SQL
defines it, does to the table what the operation does to the `Outbox`. Times
that an SQLite `INTEGER` cannot hold are kept clamped, and only `NEVER` is kept
as parked. So both stores agree after the same calls, as long as only appended
ids are dispatched: the in-process store remembers other ids too.

The retry schedule grows by a binary64 factor in nanoseconds. A step that gives
a whole number of them is exact; any other is rounded as a binary64 product and
truncated. The schedule never exceeds its cap, does not shrink for factors of at
least one, and is geometric for whole factors. Jitter stays within it.

The dispatcher consumes no attempt while the breaker pauses it, loses nothing
to a failure, and parks an event with its `max_attempts`-th failure. A poll loop
of it starts every fetched event once and in order, with no more than
`concurrency` in flight, polls only when the batch in flight has drained, and
returns only on a shutdown. A breaker is made only with a configuration that can
make one.

## What is trusted

`uuid` mints, parses and prints ids; `rand` draws the jitter; `breaker` carries
the circuit; the standard library reads the clock, quotes text and decodes
UTF-8. What is taken from each stands at the item that calls it.
