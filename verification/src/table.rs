//! What the statements of the SQLite store do to its table.
//!
//! The table is modelled as SQL defines it: rows under their primary key, the
//! text form of the id. Of each statement it is proved that what it does is
//! what the operation of the store is to do, up to the times that an `INTEGER`
//! cannot hold, which are kept clamped.
use crate::backoff::NEVER;
use crate::event::{Envelope, OutboxEvent};
use crate::sqlite::{DueQuery, EventRow, PARKED_AS_I64};
use crate::store::{Outbox, Slot, StoreCall};
use vstd::prelude::*;

verus! {

/// A row of the table, without its key.
#[verifier::ext_equal]
pub struct StoredEvent {
    /// The topic.
    pub topic: Seq<char>,
    /// The payload.
    pub payload: Seq<u8>,
    /// The encoded headers.
    pub headers: Seq<u8>,
    /// The clamped creation time.
    pub created_at: i64,
    /// Failed attempts so far.
    pub attempts: int,
    /// The clamped time of the next attempt.
    pub next_attempt_at: i64,
    /// The last failure's diagnostic.
    pub last_error: Option<Seq<char>>,
    /// The clamped time of the dispatch, once there was one.
    pub dispatched_at: Option<i64>,
}

/// The table: its rows under the text form of their ids.
#[verifier::ext_equal]
pub struct Table {
    /// The rows.
    pub rows: Map<Seq<char>, StoredEvent>,
}

/// A stored time of the next attempt as a stamp.
pub open spec fn stamp(next_attempt_at: i64) -> u64 {
    if next_attempt_at >= PARKED_AS_I64 {
        NEVER
    } else {
        crate::sqlite::unclamped(next_attempt_at)
    }
}

impl StoredEvent {
    /// Whether the columns hold what the store writes into them.
    pub open spec fn sound(self) -> bool {
        &&& crate::sqlite::decoded(self.headers) is Ok
        &&& self.created_at >= 0
        &&& self.attempts >= 0
        &&& self.next_attempt_at >= 0
    }

    /// The envelope that the row stores under an id.
    pub open spec fn envelope(self, id: u128) -> Envelope {
        Envelope {
            id,
            topic: self.topic,
            payload: self.payload,
            headers: crate::headers::map_of(crate::sqlite::decoded(self.headers)->Ok_0),
            created_at: crate::sqlite::unclamped(self.created_at),
            attempts: crate::sqlite::attempts_of(self.attempts),
            last_error: self.last_error,
        }
    }

    /// The live event that an undispatched row stores under an id.
    pub open spec fn slot(self, id: u128) -> Slot {
        Slot { next_attempt_at: stamp(self.next_attempt_at), event: self.envelope(id) }
    }

    /// Whether a fetched row shows this row's columns.
    pub open spec fn shown_by(self, row: EventRow) -> bool {
        &&& row.topic@ == self.topic
        &&& row.payload@ == self.payload
        &&& row.headers@ == self.headers
        &&& row.created_at == self.created_at
        &&& row.attempts == self.attempts
        &&& row.next_attempt_at == self.next_attempt_at
        &&& crate::sqlite::optional_text(row.last_error) == self.last_error
    }
}

/// The row that an `INSERT` writes.
pub open spec fn inserted(row: EventRow) -> StoredEvent {
    StoredEvent {
        topic: row.topic@,
        payload: row.payload@,
        headers: row.headers@,
        created_at: row.created_at,
        attempts: row.attempts as int,
        next_attempt_at: row.next_attempt_at,
        last_error: crate::sqlite::optional_text(row.last_error),
        dispatched_at: None,
    }
}

impl Table {
    /// Keys are the text forms of ids, and the rows are sound.
    pub open spec fn wf(self) -> bool {
        &&& self.rows.dom().finite()
        &&& forall|key: Seq<char>| #[trigger]
            self.rows.contains_key(key) ==> self.rows[key].sound() && is_key(key)
    }

    /// Whether the id has a row.
    pub open spec fn has(self, id: u128) -> bool {
        self.rows.contains_key(crate::event_id::hyphenated_text(id))
    }

    /// The row of an id.
    pub open spec fn row(self, id: u128) -> StoredEvent {
        self.rows[crate::event_id::hyphenated_text(id)]
    }

    /// What the table holds: undispatched rows are live events.
    pub open spec fn outbox(self) -> Outbox {
        Outbox {
            live: Map::new(
                |id: u128| self.has(id) && self.row(id).dispatched_at is None,
                |id: u128| self.row(id).slot(id),
            ),
            dispatched: Set::new(|id: u128| self.has(id) && self.row(id).dispatched_at is Some),
        }
    }

    /// `INSERT OR IGNORE`.
    pub open spec fn insert_or_ignore(self, row: EventRow) -> Table {
        if self.rows.contains_key(row.id@) {
            self
        } else {
            Table { rows: self.rows.insert(row.id@, inserted(row)) }
        }
    }

    /// `UPDATE ... SET dispatched_at WHERE id AND dispatched_at IS NULL`.
    pub open spec fn set_dispatched(self, key: Seq<char>, at: i64) -> Table {
        if self.rows.contains_key(key) && self.rows[key].dispatched_at is None {
            Table {
                rows: self.rows.insert(
                    key,
                    StoredEvent { dispatched_at: Some(at), ..self.rows[key] },
                ),
            }
        } else {
            self
        }
    }

    /// `UPDATE ... SET attempts = attempts + 1, last_error, next_attempt_at
    /// WHERE id`.
    pub open spec fn set_failed(
        self,
        key: Seq<char>,
        error: Seq<char>,
        next_attempt_at: i64,
    ) -> Table {
        if self.rows.contains_key(key) {
            Table {
                rows: self.rows.insert(
                    key,
                    StoredEvent {
                        attempts: self.rows[key].attempts + 1,
                        last_error: Some(error),
                        next_attempt_at,
                        ..self.rows[key]
                    },
                ),
            }
        } else {
            self
        }
    }

    /// Whether the query takes the row under this key.
    pub open spec fn selected(self, query: DueQuery, key: Seq<char>) -> bool {
        &&& self.rows.contains_key(key)
        &&& self.rows[key].dispatched_at is None
        &&& query.selects(self.rows[key].next_attempt_at)
    }

    /// `ORDER BY next_attempt_at, id`.
    pub open spec fn precedes(self, key: Seq<char>, other: Seq<char>) -> bool {
        let at = self.rows[key].next_attempt_at;
        let other_at = self.rows[other].next_attempt_at;
        at < other_at || (at == other_at && crate::event_id::text_before(key, other))
    }

    /// Whether these rows are the answer to the query: the first `limit`
    /// selected rows in order.
    pub open spec fn answers(self, query: DueQuery, rows: Seq<EventRow>) -> bool {
        &&& rows.len() <= query.limit
        &&& forall|i: int|
            0 <= i < rows.len() ==> self.selected(query, (#[trigger] rows[i]).id@)
                && self.rows[rows[i].id@].shown_by(rows[i])
        &&& forall|i: int, j: int|
            #![trigger rows[i], rows[j]]
            0 <= i < j < rows.len() ==> self.precedes(rows[i].id@, rows[j].id@)
        &&& forall|key: Seq<char>| #[trigger]
            self.selected(query, key) ==> (exists|i: int|
                0 <= i < rows.len() && (#[trigger] rows[i]).id@ == key) || (rows.len()
                == query.limit && forall|i: int|
                0 <= i < rows.len() ==> self.precedes((#[trigger] rows[i]).id@, key))
    }

    /// The keys that `COUNT(*)` counts: undispatched rows with a time of the
    /// next attempt below the parking one, or not below it.
    pub open spec fn counted(self, parked: bool) -> Set<Seq<char>> {
        self.rows.dom().filter(
            |key: Seq<char>|
                self.rows[key].dispatched_at is None && (self.rows[key].next_attempt_at >= PARKED_AS_I64)
                    == parked,
        )
    }
}

/// Whether the text is the text form of an id.
pub open spec fn is_key(key: Seq<char>) -> bool {
    exists|id: u128| key == #[trigger] crate::event_id::hyphenated_text(id)
}

/// Two ids with one text form are one.
proof fn lemma_same_key(id: u128, other: u128)
    requires
        crate::event_id::hyphenated_text(id) == crate::event_id::hyphenated_text(other),
    ensures
        id == other,
{
    crate::event_id::text_round_trips(id);
    crate::event_id::text_round_trips(other);
}

/// What the table holds after the row of one id was written.
proof fn lemma_written(table: Table, id: u128, row: StoredEvent)
    ensures
        ({
            let after = Table {
                rows: table.rows.insert(crate::event_id::hyphenated_text(id), row),
            };
            after.outbox() == if row.dispatched_at is Some {
                Outbox {
                    live: table.outbox().live.remove(id),
                    dispatched: table.outbox().dispatched.insert(id),
                }
            } else {
                Outbox {
                    live: table.outbox().live.insert(id, row.slot(id)),
                    dispatched: table.outbox().dispatched.remove(id),
                }
            }
        }),
{
    let key = crate::event_id::hyphenated_text(id);
    let after = Table { rows: table.rows.insert(key, row) };
    let live = if row.dispatched_at is Some {
        table.outbox().live.remove(id)
    } else {
        table.outbox().live.insert(id, row.slot(id))
    };
    let dispatched = if row.dispatched_at is Some {
        table.outbox().dispatched.insert(id)
    } else {
        table.outbox().dispatched.remove(id)
    };
    assert forall|other: u128|
        (#[trigger] after.outbox().live.contains_key(other) <==> live.contains_key(other)) && (
        live.contains_key(other) ==> after.outbox().live[other] == live[other]) && (
        after.outbox().dispatched.contains(other) <==> dispatched.contains(other)) by {
        if other == id {
            assert(after.has(id) && after.row(id) == row);
        } else {
            if crate::event_id::hyphenated_text(other) == key {
                lemma_same_key(id, other);
            }
            assert(after.has(other) == table.has(other));
            assert(table.has(other) ==> after.row(other) == table.row(other));
        }
    }
    assert(after.outbox().live =~= live);
    assert forall|other: u128| #[trigger]
        after.outbox().dispatched.contains(other) <==> dispatched.contains(other) by {
        assert(after.outbox().live.contains_key(other) <==> live.contains_key(other));
    }
    assert(after.outbox().dispatched =~= dispatched);
}

/// Writing a sound row keeps the table well-formed.
proof fn lemma_written_wf(table: Table, id: u128, row: StoredEvent)
    requires
        table.wf(),
        row.sound(),
    ensures
        (Table { rows: table.rows.insert(crate::event_id::hyphenated_text(id), row) }).wf(),
{
    assert(is_key(crate::event_id::hyphenated_text(id)));
}

/// What a table keeps of an envelope: its creation time clamped.
pub open spec fn kept_envelope(event: Envelope) -> Envelope {
    Envelope {
        created_at: crate::sqlite::unclamped(crate::sqlite::clamped(event.created_at)),
        ..event
    }
}

/// What a table keeps of the time of an attempt: a time that is too late for an
/// `INTEGER` becomes the latest one that is not parked.
pub open spec fn kept_time(at_ms: u64) -> u64 {
    stamp(crate::sqlite::attempt_column(at_ms))
}

/// What a table keeps of an outbox: everything, its times clamped.
pub open spec fn kept(outbox: Outbox) -> Outbox {
    Outbox {
        live: outbox.live.map_values(
            |slot: Slot|
                Slot {
                    next_attempt_at: kept_time(slot.next_attempt_at),
                    event: kept_envelope(slot.event),
                },
        ),
        dispatched: outbox.dispatched,
    }
}

/// Whether a table has room for every time of an outbox.
pub open spec fn times_fit(outbox: Outbox) -> bool {
    forall|id: u128| #[trigger]
        outbox.live.contains_key(id) ==> outbox.live[id].event.created_at <= i64::MAX && (
        outbox.live[id].next_attempt_at < i64::MAX || outbox.live[id].next_attempt_at == NEVER)
}

/// Clamping loses no event and moves none between pending and parked: the same
/// ids are live, dispatched, pending and parked. Where every time fits an
/// `INTEGER`, the table keeps the outbox as it is.
pub proof fn clamping_loses_nothing(outbox: Outbox)
    ensures
        kept(outbox).live.dom() == outbox.live.dom(),
        kept(outbox).dispatched == outbox.dispatched,
        kept(outbox).pending() == outbox.pending(),
        kept(outbox).parked() == outbox.parked(),
        times_fit(outbox) ==> kept(outbox) == outbox,
{
    assert(kept(outbox).live.dom() =~= outbox.live.dom());
    assert(kept(outbox).pending() =~= outbox.pending());
    assert(kept(outbox).parked() =~= outbox.parked());
    if times_fit(outbox) {
        assert forall|id: u128| #[trigger] outbox.live.contains_key(id) implies kept(outbox).live[id]
            == outbox.live[id] by {
            assert(kept_envelope(outbox.live[id].event) =~= outbox.live[id].event);
        }
        assert(kept(outbox).live =~= outbox.live);
    }
}

/// Clamping makes no event due before the latest time of an attempt that a table
/// keeps, and none ever late.
pub proof fn clamping_keeps_due_times(outbox: Outbox, id: u128, now_ms: u64)
    ensures
        outbox.due(id, now_ms) ==> kept(outbox).due(id, now_ms),
        now_ms < i64::MAX - 1 ==> (kept(outbox).due(id, now_ms) <==> outbox.due(id, now_ms)),
{
}

/// The row of an event stores its envelope.
proof fn lemma_inserted(row: EventRow, event: OutboxEvent)
    requires
        crate::sqlite::stores(row, event),
        event.headers.pairs().len() <= u32::MAX,
        crate::sqlite::entries_fit(event.headers.pairs()),
    ensures
        inserted(row).sound(),
        inserted(row).slot(event.id@) == (Slot {
            next_attempt_at: kept_time(event.created_at),
            event: kept_envelope(event@),
        }),
{
    crate::sqlite::headers_round_trip(event.headers.pairs(), Seq::empty());
    assert(crate::sqlite::encoded(event.headers.pairs()) + Seq::<u8>::empty()
        =~= crate::sqlite::encoded(event.headers.pairs()));
    assert(inserted(row).envelope(event.id@) =~= kept_envelope(event@));
}

/// The insert is the append, for every time: it records the event unless its id
/// is known, due from its creation.
pub proof fn insert_is_append(table: Table, outbox: Outbox, row: EventRow, event: OutboxEvent)
    requires
        table.wf(),
        table.outbox() == kept(outbox),
        crate::sqlite::stores(row, event),
        event.headers.pairs().len() <= u32::MAX,
        crate::sqlite::entries_fit(event.headers.pairs()),
    ensures
        table.insert_or_ignore(row).wf(),
        table.insert_or_ignore(row).outbox() == kept(outbox.append(event@)),
{
    let id = event.id@;
    lemma_inserted(row, event);
    assert(table.has(id) <==> table.outbox().knows(id));
    assert(kept(outbox).knows(id) <==> outbox.knows(id));
    if !table.has(id) {
        lemma_written(table, id, inserted(row));
        lemma_written_wf(table, id, inserted(row));
        assert(table.outbox().dispatched.remove(id) =~= table.outbox().dispatched);
        assert(kept(outbox.append(event@)).live =~= kept(outbox).live.insert(
            id,
            inserted(row).slot(id),
        ));
    }
}

/// The update is the failure, for every time: it counts an attempt, keeps the
/// truncated diagnostic and reschedules.
pub proof fn update_is_mark_failed(
    table: Table,
    outbox: Outbox,
    id: u128,
    error: Seq<char>,
    retry_at_ms: u64,
)
    requires
        table.wf(),
        table.outbox() == kept(outbox),
    ensures
        ({
            let after = table.set_failed(
                crate::event_id::hyphenated_text(id),
                crate::store::truncated(error),
                crate::sqlite::attempt_column(retry_at_ms),
            );
            after.wf() && after.outbox() == kept(outbox.mark_failed(id, error, retry_at_ms))
        }),
{
    let key = crate::event_id::hyphenated_text(id);
    assert(kept(outbox).live.contains_key(id) <==> outbox.live.contains_key(id));
    if table.has(id) {
        let before = table.row(id);
        let row = StoredEvent {
            attempts: before.attempts + 1,
            last_error: Some(crate::store::truncated(error)),
            next_attempt_at: crate::sqlite::attempt_column(retry_at_ms),
            ..before
        };
        assert(table.rows[key].sound());
        lemma_written(table, id, row);
        lemma_written_wf(table, id, row);
        if before.dispatched_at is Some {
            assert(!table.outbox().live.contains_key(id));
            assert(table.outbox().live.remove(id) =~= table.outbox().live);
            assert(table.outbox().dispatched.insert(id) =~= table.outbox().dispatched);
        } else {
            assert(table.outbox().live.contains_key(id));
            assert(row.envelope(id) =~= Outbox::failed(before.envelope(id), error));
            assert(kept(outbox).live[id].event == before.envelope(id));
            assert(row.envelope(id) =~= kept_envelope(
                Outbox::failed(outbox.live[id].event, error),
            ));
            assert(table.outbox().dispatched.remove(id) =~= table.outbox().dispatched);
            assert(kept(outbox.mark_failed(id, error, retry_at_ms)).live =~= kept(
                outbox,
            ).live.insert(id, row.slot(id)));
        }
    } else {
        assert(!table.outbox().live.contains_key(id));
    }
}

/// The update is the dispatch: it is terminal for a row, and nothing for an
/// unknown id.
pub proof fn update_is_mark_dispatched(table: Table, outbox: Outbox, id: u128, at: i64)
    requires
        table.wf(),
        table.outbox() == kept(outbox),
    ensures
        ({
            let after = table.set_dispatched(crate::event_id::hyphenated_text(id), at);
            after.wf() && if outbox.knows(id) {
                after.outbox() == kept(outbox.mark_dispatched(id))
            } else {
                after == table
            }
        }),
{
    let key = crate::event_id::hyphenated_text(id);
    assert(table.has(id) <==> table.outbox().knows(id));
    assert(kept(outbox).knows(id) <==> outbox.knows(id));
    assert(kept(outbox.mark_dispatched(id)).live =~= kept(outbox).live.remove(id));
    if table.has(id) {
        assert(table.rows[key].sound());
        if table.row(id).dispatched_at is Some {
            assert(!table.outbox().live.contains_key(id));
            assert(table.outbox().live.remove(id) =~= table.outbox().live);
            assert(table.outbox().dispatched.insert(id) =~= table.outbox().dispatched);
        } else {
            let row = StoredEvent { dispatched_at: Some(at), ..table.row(id) };
            lemma_written(table, id, row);
            lemma_written_wf(table, id, row);
        }
    }
}

/// Dispatched events are retained under their first stamp: a dispatch sets the
/// stamp of a row that has none and nothing else of it, keeps a stamp that is
/// there, adds no row for an unknown id, and leaves every other row alone.
pub proof fn dispatch_stamps_once(table: Table, id: u128, at: i64, again: i64, other: Seq<char>)
    ensures
        ({
            let key = crate::event_id::hyphenated_text(id);
            let after = table.set_dispatched(key, at);
            &&& after.rows.dom() == table.rows.dom()
            &&& after.set_dispatched(key, again) == after
            &&& table.has(id) ==> after.row(id) == (StoredEvent {
                dispatched_at: if table.row(id).dispatched_at is Some {
                    table.row(id).dispatched_at
                } else {
                    Some(at)
                },
                ..table.row(id)
            })
            &&& !table.has(id) ==> after == table
            &&& other != key && table.rows.contains_key(other) ==> after.rows[other]
                == table.rows[other]
        }),
{
    let key = crate::event_id::hyphenated_text(id);
    let after = table.set_dispatched(key, at);
    assert(after.rows.dom() =~= table.rows.dom());
    if table.has(id) {
        assert(after.row(id) =~= (StoredEvent {
            dispatched_at: if table.row(id).dispatched_at is Some {
                table.row(id).dispatched_at
            } else {
                Some(at)
            },
            ..table.row(id)
        }));
    }
}

/// The id of a key.
proof fn lemma_key(key: Seq<char>) -> (id: u128)
    requires
        is_key(key),
    ensures
        key == crate::event_id::hyphenated_text(id),
        crate::event_id::uuid_value(key) == Some(id as nat),
{
    let id = choose|id: u128| key == #[trigger] crate::event_id::hyphenated_text(id);
    crate::event_id::text_round_trips(id);
    id
}

/// The order of the rows is the dispatch order of their events.
proof fn lemma_order(table: Table, id: u128, other: u128)
    requires
        table.wf(),
        table.has(id),
        table.has(other),
        table.row(id).dispatched_at is None,
        table.row(other).dispatched_at is None,
        table.row(id).next_attempt_at < PARKED_AS_I64,
        table.row(other).next_attempt_at < PARKED_AS_I64,
    ensures
        table.precedes(
            crate::event_id::hyphenated_text(id),
            crate::event_id::hyphenated_text(other),
        ) <==> table.outbox().before(id, other),
{
    assert(table.row(id).sound() && table.row(other).sound());
    crate::event_id::text_order_is_id_order(id, other);
}

/// The query is the fetch: the events of its answer are the first `limit` due
/// events in dispatch order. Limits beyond an `INTEGER` are left out.
pub proof fn select_is_due_batch(
    table: Table,
    query: DueQuery,
    limit: nat,
    now_ms: u64,
    rows: Seq<EventRow>,
    events: Seq<OutboxEvent>,
)
    requires
        table.wf(),
        query.now == crate::sqlite::clamped(now_ms),
        query.parked == PARKED_AS_I64,
        query.limit == limit,
        table.answers(query, rows),
        events.len() == rows.len(),
        forall|i: int|
            0 <= i < rows.len() ==> crate::sqlite::restores(#[trigger] events[i], rows[i]),
    ensures
        table.outbox().is_due_batch(crate::store::envelopes(events), limit, now_ms),
{
    let outbox = table.outbox();
    let batch = crate::store::envelopes(events);
    assert forall|i: int| 0 <= i < rows.len() implies (#[trigger] rows[i]).id@
        == crate::event_id::hyphenated_text(batch[i].id) && outbox.due(batch[i].id, now_ms)
        && outbox.live[batch[i].id].event == batch[i] by {
        assert(crate::sqlite::restores(events[i], rows[i]));
        let key = rows[i].id@;
        assert(table.selected(query, key));
        assert(table.rows[key].sound());
        let id = lemma_key(key);
        assert(batch[i].id == id);
        assert(table.row(id).envelope(id) =~= batch[i]);
    }
    assert forall|i: int, j: int|
        #![trigger batch[i], batch[j]]
        0 <= i < j < batch.len() implies outbox.before(batch[i].id, batch[j].id) by {
        assert(table.precedes(rows[i].id@, rows[j].id@));
        assert(table.selected(query, rows[i].id@) && table.selected(query, rows[j].id@));
        lemma_order(table, batch[i].id, batch[j].id);
    }
    assert forall|i: int| 0 <= i < batch.len() implies outbox.due(
        #[trigger] batch[i].id,
        now_ms,
    ) && outbox.live[batch[i].id].event == batch[i] by {
        assert(rows[i].id@ == crate::event_id::hyphenated_text(batch[i].id));
    }
    assert forall|id: u128| #[trigger] outbox.due(id, now_ms) implies (exists|i: int|
        0 <= i < batch.len() && #[trigger] batch[i].id == id) || (batch.len() == limit && forall|
        i: int,
    | 0 <= i < batch.len() ==> outbox.before(#[trigger] batch[i].id, id)) by {
        let key = crate::event_id::hyphenated_text(id);
        assert(table.rows[key].sound());
        assert(table.selected(query, key));
        if exists|i: int| 0 <= i < rows.len() && (#[trigger] rows[i]).id@ == key {
            let i = choose|i: int| 0 <= i < rows.len() && (#[trigger] rows[i]).id@ == key;
            lemma_same_key(batch[i].id, id);
            assert(batch[i].id == id);
        } else {
            assert forall|i: int| 0 <= i < batch.len() implies outbox.before(
                #[trigger] batch[i].id,
                id,
            ) by {
                assert(table.precedes(rows[i].id@, key));
                assert(table.selected(query, rows[i].id@));
                lemma_order(table, batch[i].id, id);
            }
        }
    }
}

/// An injective image of a finite set has as many elements.
proof fn lemma_key_count(ids: Set<u128>, keys: Set<Seq<char>>)
    requires
        keys.finite(),
        forall|id: u128| #[trigger]
            ids.contains(id) <==> keys.contains(crate::event_id::hyphenated_text(id)),
        forall|key: Seq<char>| keys.contains(key) ==> #[trigger] is_key(key),
    ensures
        ids.finite(),
        ids.len() == keys.len(),
    decreases keys.len(),
{
    if keys.len() == 0 {
        assert(keys =~= Set::<Seq<char>>::empty());
        assert(ids =~= Set::<u128>::empty());
    } else {
        let key = keys.choose();
        assert(is_key(key));
        let id = lemma_key(key);
        let fewer_keys = keys.remove(key);
        let fewer_ids = ids.remove(id);
        assert forall|other: u128| #[trigger] fewer_ids.contains(other) <==> fewer_keys.contains(
            crate::event_id::hyphenated_text(other),
        ) by {
            if crate::event_id::hyphenated_text(other) == key {
                lemma_same_key(other, id);
            }
        }
        lemma_key_count(fewer_ids, fewer_keys);
        assert(ids.contains(id));
        assert(ids =~= fewer_ids.insert(id));
    }
}

/// The counts are the counts: `COUNT(*)` counts the pending and the parked
/// events.
pub proof fn counts_agree(table: Table)
    requires
        table.wf(),
    ensures
        table.counted(false).len() == table.outbox().pending().len(),
        table.counted(true).len() == table.outbox().parked().len(),
{
    let outbox = table.outbox();
    assert forall|id: u128| #[trigger] outbox.pending().contains(id) <==> table.counted(
        false,
    ).contains(crate::event_id::hyphenated_text(id)) by {
        if table.has(id) {
            assert(table.row(id).sound());
        }
    }
    assert forall|id: u128| #[trigger] outbox.parked().contains(id) <==> table.counted(
        true,
    ).contains(crate::event_id::hyphenated_text(id)) by {
        if table.has(id) {
            assert(table.row(id).sound());
        }
    }
    lemma_key_count(outbox.pending(), table.counted(false));
    lemma_key_count(outbox.parked(), table.counted(true));
}

/// A well-formed table holds a well-formed outbox.
pub proof fn tables_hold_outboxes(table: Table)
    requires
        table.wf(),
    ensures
        table.outbox().wf(),
{
    let live = table.rows.dom().filter(|key: Seq<char>| table.rows[key].dispatched_at is None);
    let dispatched = table.rows.dom().filter(|key: Seq<char>| table.rows[key].dispatched_at is Some);
    lemma_key_count(table.outbox().live.dom(), live);
    lemma_key_count(table.outbox().dispatched, dispatched);
}

impl Table {
    /// Whether the statement of a call, with whatever stamp it sets, takes this
    /// table to that one.
    pub open spec fn steps(self, call: StoreCall, after: Table) -> bool {
        match call {
            StoreCall::Append(event) => if crate::event::topic_ok(event@.topic) {
                exists|row: EventRow| #[trigger]
                    crate::sqlite::stores(row, event) && after == self.insert_or_ignore(row)
            } else {
                after == self
            },
            StoreCall::Read => after == self,
            StoreCall::MarkFailed { id, error, retry_at_ms } => after == self.set_failed(
                crate::event_id::hyphenated_text(id),
                crate::store::truncated(error),
                crate::sqlite::attempt_column(retry_at_ms),
            ),
            StoreCall::MarkDispatched { id } => exists|at: i64|
                after == #[trigger] self.set_dispatched(crate::event_id::hyphenated_text(id), at),
        }
    }
}

/// Whether both stores take the call alike: the codec can write the headers of
/// an appended event, and a dispatched id was appended. The in-process store
/// remembers other dispatched ids too, the table does not.
pub open spec fn shared_call(before: Outbox, call: StoreCall) -> bool {
    match call {
        StoreCall::Append(event) => event.headers.pairs().len() <= u32::MAX
            && crate::sqlite::entries_fit(event.headers.pairs()),
        StoreCall::MarkDispatched { id } => before.knows(id),
        _ => true,
    }
}

/// The stores agree: after the same calls, from empty ones on, the table holds
/// what the in-process store does, up to the clamping of times. So the same
/// events are pending, parked and dispatched, whatever the times.
pub proof fn stores_agree(calls: Seq<StoreCall>, tables: Seq<Table>)
    requires
        tables.len() == calls.len() + 1,
        tables[0].rows == Map::<Seq<char>, StoredEvent>::empty(),
        forall|i: int|
            #![trigger calls[i]]
            0 <= i < calls.len() ==> tables[i].steps(calls[i], tables[i + 1]) && shared_call(
                Outbox::empty().after_calls(calls.take(i)),
                calls[i],
            ),
    ensures
        ({
            let outbox = Outbox::empty().after_calls(calls);
            let table = tables.last();
            &&& table.wf()
            &&& table.outbox() == kept(outbox)
            &&& table.outbox().dispatched == outbox.dispatched
            &&& table.outbox().pending() == outbox.pending()
            &&& table.outbox().parked() == outbox.parked()
        }),
    decreases calls.len(),
{
    let outbox = Outbox::empty().after_calls(calls);
    clamping_loses_nothing(outbox);
    if calls.len() == 0 {
        assert(tables[0].outbox().live =~= kept(Outbox::empty()).live);
        assert(tables[0].outbox().dispatched =~= Set::<u128>::empty());
    } else {
        let earlier = calls.drop_last();
        let call = calls.last();
        let at = earlier.len() as int;
        assert forall|i: int|
            #![trigger earlier[i]]
            0 <= i < earlier.len() implies tables.drop_last()[i].steps(
            earlier[i],
            tables.drop_last()[i + 1],
        ) && shared_call(Outbox::empty().after_calls(earlier.take(i)), earlier[i]) by {
            assert(earlier[i] == calls[i]);
            assert(earlier.take(i) =~= calls.take(i));
        }
        stores_agree(earlier, tables.drop_last());
        assert(calls.take(at) =~= earlier);
        let before = Outbox::empty().after_calls(earlier);
        let table = tables[at];
        assert(table == tables.drop_last().last());
        assert(calls[at] == call);
        assert(table.steps(call, tables.last()));
        match call {
            StoreCall::Append(event) => {
                if crate::event::topic_ok(event@.topic) {
                    let row = choose|row: EventRow| #[trigger]
                        crate::sqlite::stores(row, event) && tables.last()
                            == table.insert_or_ignore(row);
                    insert_is_append(table, before, row, event);
                }
            },
            StoreCall::Read => {},
            StoreCall::MarkFailed { id, error, retry_at_ms } => {
                update_is_mark_failed(table, before, id, error, retry_at_ms);
            },
            StoreCall::MarkDispatched { id } => {
                let stamp = choose|stamp: i64|
                    tables.last() == #[trigger] table.set_dispatched(
                        crate::event_id::hyphenated_text(id),
                        stamp,
                    );
                update_is_mark_dispatched(table, before, id, stamp);
            },
        }
    }
}

} // verus!
