//! The pluggable storage contract: [`OutboxStore`].
use crate::backoff::NEVER;
use crate::error::StoreError;
use crate::event::{Envelope, OutboxEvent};
use crate::event_id::EventId;
use vstd::prelude::*;
use vstd::utf8::*;

verus! {

/// Store-side cap on `last_error`: errors are truncated to 1 KiB so a
/// pathological diagnostic cannot bloat the envelope or its index.
pub const MAX_ERROR_BYTES: usize = 1024;

/// The longest beginning of a text whose UTF-8 form has at most
/// [`MAX_ERROR_BYTES`] bytes.
pub open spec fn truncated(text: Seq<char>) -> Seq<char>
    decreases text.len(),
{
    if encode_utf8(text).len() <= MAX_ERROR_BYTES || text.len() == 0 {
        text
    } else {
        truncated(text.drop_last())
    }
}

/// Truncate a diagnostic to [`MAX_ERROR_BYTES`] on a UTF-8 character boundary.
pub fn truncate_error(error: &str) -> (r: String)
    ensures
        r@ == truncated(error@),
{
    if error.as_bytes().len() <= MAX_ERROR_BYTES {
        return error.to_owned();
    }
    let mut cut: usize = MAX_ERROR_BYTES;
    let ghost bytes = encode_utf8(error@);
    proof {
        encode_utf8_valid_utf8(error@);
        is_char_boundary_start_end_of_seq(bytes);
    }
    while cut > 0 && !error.is_char_boundary(cut)
        invariant
            cut <= MAX_ERROR_BYTES,
            bytes == encode_utf8(error@),
            is_char_boundary(bytes, 0),
            forall|i: int| cut < i <= MAX_ERROR_BYTES ==> !#[trigger] is_char_boundary(bytes, i),
        decreases cut,
    {
        cut = cut - 1;
    }
    let (kept, _) = error.split_at(cut);
    proof {
        let count = lemma_boundary(error@, cut as int);
        let beginning = error@.take(count);
        lemma_encode_concat(beginning, error@.skip(count));
        assert(beginning + error@.skip(count) =~= error@);
        assert(encode_utf8(beginning) =~= bytes.subrange(0, cut as int));
        encode_utf8_decode_utf8(beginning);
        encode_utf8_decode_utf8(kept@);
        if count < error@.len() {
            lemma_prefix_ends_on_boundary(error@, count + 1);
            lemma_prefix_grows(error@, count);
        }
        lemma_truncated(error@, count);
    }
    kept.to_owned()
}

/// The UTF-8 form of two texts in a row.
proof fn lemma_encode_concat(left: Seq<char>, right: Seq<char>)
    ensures
        encode_utf8(left + right) == encode_utf8(left) + encode_utf8(right),
    decreases left.len(),
{
    if left.len() == 0 {
        assert(left + right =~= right);
        assert(encode_utf8(left) + encode_utf8(right) =~= encode_utf8(right));
    } else {
        let rest = left.drop_first();
        assert((left + right).drop_first() =~= rest + right);
        lemma_encode_concat(rest, right);
        assert(encode_utf8(left + right) =~= encode_utf8(left) + encode_utf8(right));
    }
}

/// The bytes of a text without its first character.
proof fn lemma_pop_first(text: Seq<char>)
    requires
        text.len() > 0,
    ensures
        valid_utf8(encode_utf8(text)),
        pop_first_scalar(encode_utf8(text)) == encode_utf8(text.drop_first()),
        length_of_first_scalar(encode_utf8(text)) == encode_utf8(text).len() - encode_utf8(
            text.drop_first(),
        ).len(),
        length_of_first_scalar(encode_utf8(text)) > 0,
{
    encode_utf8_valid_utf8(text);
    encode_utf8_first_scalar(text);
    assert(encode_utf8(text) == encode_scalar(text[0] as u32) + encode_utf8(text.drop_first()));
    assert(pop_first_scalar(encode_utf8(text)) =~= encode_utf8(text.drop_first()));
}

/// A character boundary is the end of a number of characters.
proof fn lemma_boundary(text: Seq<char>, at: int) -> (count: int)
    requires
        is_char_boundary(encode_utf8(text), at),
        0 <= at <= encode_utf8(text).len(),
    ensures
        0 <= count <= text.len(),
        encode_utf8(text.take(count)).len() == at,
    decreases text.len(),
{
    encode_utf8_valid_utf8(text);
    if at == 0 {
        assert(text.take(0) =~= Seq::<char>::empty());
        0
    } else {
        lemma_pop_first(text);
        let rest = text.drop_first();
        let width = length_of_first_scalar(encode_utf8(text));
        encode_utf8_valid_utf8(rest);
        assert(is_char_boundary(encode_utf8(rest), at - width));
        let below = lemma_boundary(rest, at - width);
        let beginning = text.take(below + 1);
        assert(beginning.drop_first() =~= rest.take(below));
        assert(encode_utf8(beginning) == encode_scalar(text[0] as u32) + encode_utf8(
            rest.take(below),
        ));
        assert(encode_utf8(text) == encode_scalar(text[0] as u32) + encode_utf8(rest));
        below + 1
    }
}

/// Characters end on character boundaries.
proof fn lemma_prefix_ends_on_boundary(text: Seq<char>, count: int)
    requires
        0 <= count <= text.len(),
    ensures
        is_char_boundary(encode_utf8(text), encode_utf8(text.take(count)).len() as int),
    decreases text.len(),
{
    encode_utf8_valid_utf8(text);
    let beginning = text.take(count);
    lemma_encode_concat(beginning, text.skip(count));
    assert(beginning + text.skip(count) =~= text);
    if count > 0 {
        lemma_pop_first(text);
        let rest = text.drop_first();
        lemma_prefix_ends_on_boundary(rest, count - 1);
        assert(beginning.drop_first() =~= rest.take(count - 1));
        assert(encode_utf8(beginning) == encode_scalar(text[0] as u32) + encode_utf8(
            rest.take(count - 1),
        ));
        assert(encode_utf8(text) == encode_scalar(text[0] as u32) + encode_utf8(rest));
    }
}

/// One character more takes at least one byte more.
proof fn lemma_prefix_grows(text: Seq<char>, count: int)
    requires
        0 <= count < text.len(),
    ensures
        encode_utf8(text.take(count)).len() < encode_utf8(text.take(count + 1)).len(),
{
    let one = seq![text[count]];
    assert(text.take(count + 1) =~= text.take(count) + one);
    lemma_encode_concat(text.take(count), one);
    lemma_pop_first(one);
}

/// Where truncation ends.
proof fn lemma_truncated(text: Seq<char>, count: int)
    requires
        0 <= count <= text.len(),
        encode_utf8(text.take(count)).len() <= MAX_ERROR_BYTES,
        count < text.len() ==> encode_utf8(text.take(count + 1)).len() > MAX_ERROR_BYTES,
    ensures
        truncated(text) == text.take(count),
    decreases text.len(),
{
    if count == text.len() {
        assert(text.take(count) =~= text);
    } else {
        let shorter = text.drop_last();
        assert(text.take(count + 1) =~= text || shorter.take(count + 1) =~= text.take(count + 1));
        assert(shorter.take(count) =~= text.take(count));
        lemma_longer(text, count + 1, text.len() as int);
        assert(text.take(text.len() as int) =~= text);
        lemma_truncated(shorter, count);
    }
}

proof fn lemma_longer(text: Seq<char>, i: int, j: int)
    requires
        0 <= i <= j <= text.len(),
    ensures
        encode_utf8(text.take(i)).len() <= encode_utf8(text.take(j)).len(),
    decreases j - i,
{
    if i < j {
        lemma_prefix_grows(text, i);
        lemma_longer(text, i + 1, j);
    }
}

/// A truncated diagnostic fits the cap, is a beginning of the diagnostic, and
/// one character more would not fit; one that fits is kept whole.
pub proof fn truncation_is_longest_prefix(text: Seq<char>)
    ensures
        encode_utf8(truncated(text)).len() <= MAX_ERROR_BYTES,
        truncated(text).len() <= text.len(),
        truncated(text) == text.take(truncated(text).len() as int),
        truncated(text).len() < text.len() ==> encode_utf8(
            text.take(truncated(text).len() as int + 1),
        ).len() > MAX_ERROR_BYTES,
        encode_utf8(text).len() <= MAX_ERROR_BYTES ==> truncated(text) == text,
    decreases text.len(),
{
    if encode_utf8(text).len() <= MAX_ERROR_BYTES || text.len() == 0 {
        assert(text.take(text.len() as int) =~= text);
    } else {
        let shorter = text.drop_last();
        truncation_is_longest_prefix(shorter);
        let count = truncated(text).len() as int;
        assert(text.take(count) =~= shorter.take(count));
        assert(text.take(count + 1) =~= if count < shorter.len() {
            shorter.take(count + 1)
        } else {
            text
        });
    }
}

/// A live event and when it is next attempted, in unix milliseconds.
#[verifier::ext_equal]
pub struct Slot {
    /// When the event is next attempted; [`NEVER`] for a parked event.
    pub next_attempt_at: u64,
    /// The envelope.
    pub event: Envelope,
}

/// What a store holds.
///
/// An event is live from its `append` to its `mark_dispatched`, which is
/// terminal. A live event is pending, or parked at [`NEVER`].
#[verifier::ext_equal]
pub struct Outbox {
    /// The live events by id.
    pub live: Map<u128, Slot>,
    /// The ids that were dispatched.
    pub dispatched: Set<u128>,
}

impl Outbox {
    /// Nothing recorded.
    pub open spec fn empty() -> Outbox {
        Outbox { live: Map::empty(), dispatched: Set::empty() }
    }

    /// Events stand under their own id, finitely many, and none is both live
    /// and dispatched.
    pub open spec fn wf(self) -> bool {
        &&& self.live.dom().finite()
        &&& self.dispatched.finite()
        &&& forall|id: u128| #[trigger]
            self.live.contains_key(id) ==> self.live[id].event.id == id && !self.dispatched.contains(
                id,
            )
    }

    /// Whether the id was ever recorded.
    pub open spec fn knows(self, id: u128) -> bool {
        self.live.contains_key(id) || self.dispatched.contains(id)
    }

    /// Record an event unless its id is known; it is due from its creation.
    pub open spec fn append(self, event: Envelope) -> Outbox {
        if self.knows(event.id) {
            self
        } else {
            Outbox {
                live: self.live.insert(
                    event.id,
                    Slot { next_attempt_at: event.created_at, event },
                ),
                dispatched: self.dispatched,
            }
        }
    }

    /// Take an event out of the live ones for good.
    pub open spec fn mark_dispatched(self, id: u128) -> Outbox {
        Outbox { live: self.live.remove(id), dispatched: self.dispatched.insert(id) }
    }

    /// An event after one more failure.
    pub open spec fn failed(event: Envelope, error: Seq<char>) -> Envelope {
        Envelope {
            attempts: if event.attempts < u32::MAX {
                (event.attempts + 1) as u32
            } else {
                u32::MAX
            },
            last_error: Some(truncated(error)),
            ..event
        }
    }

    /// Record a failure of a live event and reschedule it; nothing happens to
    /// other ids.
    pub open spec fn mark_failed(self, id: u128, error: Seq<char>, retry_at_ms: u64) -> Outbox {
        if self.live.contains_key(id) {
            Outbox {
                live: self.live.insert(
                    id,
                    Slot {
                        next_attempt_at: retry_at_ms,
                        event: Outbox::failed(self.live[id].event, error),
                    },
                ),
                dispatched: self.dispatched,
            }
        } else {
            self
        }
    }

    /// The live events that are not parked.
    pub open spec fn pending(self) -> Set<u128> {
        self.live.dom().filter(|id: u128| self.live[id].next_attempt_at != NEVER)
    }

    /// The live events that are parked.
    pub open spec fn parked(self) -> Set<u128> {
        self.live.dom().filter(|id: u128| self.live[id].next_attempt_at == NEVER)
    }

    /// Whether the event is live, its time has come, and it is not parked.
    pub open spec fn due(self, id: u128, now_ms: u64) -> bool {
        &&& self.live.contains_key(id)
        &&& self.live[id].next_attempt_at <= now_ms
        &&& self.live[id].next_attempt_at != NEVER
    }

    /// The dispatch order: by time of the next attempt, then by id.
    pub open spec fn before(self, left: u128, right: u128) -> bool {
        let at = self.live[left].next_attempt_at;
        let other = self.live[right].next_attempt_at;
        at < other || (at == other && left < right)
    }

    /// Whether the batch is the first `limit` due events in dispatch order.
    pub open spec fn is_due_batch(self, batch: Seq<Envelope>, limit: nat, now_ms: u64) -> bool {
        &&& batch.len() <= limit
        &&& forall|i: int|
            0 <= i < batch.len() ==> self.due(#[trigger] batch[i].id, now_ms)
                && self.live[batch[i].id].event == batch[i]
        &&& forall|i: int, j: int|
            #![trigger batch[i], batch[j]]
            0 <= i < j < batch.len() ==> self.before(batch[i].id, batch[j].id)
        &&& forall|id: u128| #[trigger]
            self.due(id, now_ms) ==> (exists|i: int|
                0 <= i < batch.len() && #[trigger] batch[i].id == id) || (batch.len() == limit
                && forall|i: int|
                0 <= i < batch.len() ==> self.before(#[trigger] batch[i].id, id))
    }
}

/// A call of a store.
pub enum StoreCall {
    /// `append`.
    Append(OutboxEvent),
    /// `fetch_due`, `pending_count` or `parked_count`.
    Read,
    /// `mark_failed`.
    MarkFailed {
        /// The id.
        id: u128,
        /// The diagnostic.
        error: Seq<char>,
        /// When to retry, unix milliseconds.
        retry_at_ms: u64,
    },
    /// `mark_dispatched`.
    MarkDispatched {
        /// The id.
        id: u128,
    },
}

impl Outbox {
    /// The store after a call. One that appends an invalid topic is refused.
    pub open spec fn after_call(self, call: StoreCall) -> Outbox {
        match call {
            StoreCall::Append(event) => if crate::event::topic_ok(event@.topic) {
                self.append(event@)
            } else {
                self
            },
            StoreCall::Read => self,
            StoreCall::MarkFailed { id, error, retry_at_ms } => self.mark_failed(
                id,
                error,
                retry_at_ms,
            ),
            StoreCall::MarkDispatched { id } => self.mark_dispatched(id),
        }
    }

    /// The store after calls, one after the other.
    pub open spec fn after_calls(self, calls: Seq<StoreCall>) -> Outbox
        decreases calls.len(),
    {
        if calls.len() == 0 {
            self
        } else {
            self.after_calls(calls.drop_last()).after_call(calls.last())
        }
    }

    /// The number of ids on record, live or dispatched.
    pub open spec fn id_count(self) -> nat {
        self.live.dom().len() + self.dispatched.len()
    }
}

/// The ids that calls put on record: those of accepted events and of dispatches.
pub open spec fn recorded_ids(calls: Seq<StoreCall>) -> Set<u128>
    decreases calls.len(),
{
    if calls.len() == 0 {
        Set::empty()
    } else {
        let earlier = recorded_ids(calls.drop_last());
        match calls.last() {
            StoreCall::Append(event) => if crate::event::topic_ok(event@.topic) {
                earlier.insert(event@.id)
            } else {
                earlier
            },
            StoreCall::MarkDispatched { id } => earlier.insert(id),
            _ => earlier,
        }
    }
}

/// The ids that calls dispatch.
pub open spec fn dispatched_ids(calls: Seq<StoreCall>) -> Set<u128>
    decreases calls.len(),
{
    if calls.len() == 0 {
        Set::empty()
    } else {
        let earlier = dispatched_ids(calls.drop_last());
        match calls.last() {
            StoreCall::MarkDispatched { id } => earlier.insert(id),
            _ => earlier,
        }
    }
}

/// The envelopes of a list of events.
pub open spec fn envelopes(events: Seq<OutboxEvent>) -> Seq<Envelope> {
    Seq::new(events.len(), |i: int| events[i]@)
}

/// Durable, idempotent outbox storage.
///
/// The store owns each event's scheduling metadata, keyed by the event's id:
/// `append` makes an event due at its `created_at`, `mark_failed` reschedules
/// it, [`NEVER`] parks it, and `mark_dispatched` is terminal. What a store
/// holds is its [`Outbox`].
pub trait OutboxStore {
    /// What the store holds.
    spec fn outbox(&self) -> Outbox;

    /// Record an event. Idempotent on the id: appending the same id twice
    /// leaves one event and returns `Ok(())` both times.
    ///
    /// [`StoreError::InvalidTopic`] if and only if the topic is invalid;
    /// [`StoreError::Backend`] if the backend failed. Neither records the
    /// event.
    fn append(&mut self, event: &OutboxEvent) -> (r: Result<(), StoreError>)
        ensures
            final(self).outbox().wf(),
            match r {
                Ok(()) => {
                    &&& crate::event::topic_ok(event@.topic)
                    &&& final(self).outbox() == old(self).outbox().append(event@)
                },
                Err(e) => {
                    &&& final(self).outbox() == old(self).outbox()
                    &&& if crate::event::topic_ok(event@.topic) {
                        e is Backend
                    } else {
                        e matches StoreError::InvalidTopic { topic } && topic@ == event@.topic
                    }
                },
            },
    ;

    /// Return up to `limit` events whose `next_attempt_at <= now_ms`, ordered
    /// by `(next_attempt_at, id)`. Parked events are never returned.
    ///
    /// [`StoreError::Backend`] if the backend failed.
    fn fetch_due(&self, limit: usize, now_ms: u64) -> (r: Result<Vec<OutboxEvent>, StoreError>)
        ensures
            self.outbox().wf(),
            r matches Ok(batch) ==> self.outbox().is_due_batch(
                envelopes(batch@),
                limit as nat,
                now_ms,
            ),
            r matches Err(e) ==> e is Backend,
    ;

    /// Mark an event dispatched (terminal). For an id that is not live no
    /// live event changes; a store may remember such an id as dispatched.
    ///
    /// [`StoreError::Backend`] if the backend failed.
    fn mark_dispatched(&mut self, id: &EventId) -> (r: Result<(), StoreError>)
        ensures
            final(self).outbox().wf(),
            r is Ok ==> final(self).outbox() == old(self).outbox().mark_dispatched(id@) || (
            final(self).outbox() == old(self).outbox() && !old(self).outbox().live.contains_key(
                id@,
            )),
            r matches Err(e) ==> e is Backend && final(self).outbox() == old(self).outbox(),
    ;

    /// Record a failed dispatch: increment `attempts`, store `error`
    /// (truncated to 1 KiB), and reschedule the event for `retry_at_ms`;
    /// [`NEVER`] parks the event. Ids that are not live are a no-op.
    ///
    /// [`StoreError::Backend`] if the backend failed.
    fn mark_failed(&mut self, id: &EventId, error: &str, retry_at_ms: u64) -> (r: Result<
        (),
        StoreError,
    >)
        ensures
            final(self).outbox().wf(),
            r is Ok ==> final(self).outbox() == old(self).outbox().mark_failed(
                id@,
                error@,
                retry_at_ms,
            ),
            r matches Err(e) ==> e is Backend && final(self).outbox() == old(self).outbox(),
    ;

    /// Events awaiting dispatch: appended, not yet dispatched, and not parked,
    /// including not-yet-due retries.
    ///
    /// [`StoreError::Backend`] if the backend failed.
    fn pending_count(&self) -> (r: Result<u64, StoreError>)
        ensures
            self.outbox().wf(),
            r matches Ok(count) ==> count == self.outbox().pending().len(),
            r matches Err(e) ==> e is Backend,
    ;

    /// Events parked at [`NEVER`]: exhausted retries awaiting manual replay.
    ///
    /// [`StoreError::Backend`] if the backend failed.
    fn parked_count(&self) -> (r: Result<u64, StoreError>)
        ensures
            self.outbox().wf(),
            r matches Ok(count) ==> count == self.outbox().parked().len(),
            r matches Err(e) ==> e is Backend,
    ;
}

/// Every operation keeps a well-formed store well-formed.
pub proof fn operations_keep_wf(
    outbox: Outbox,
    event: Envelope,
    id: u128,
    error: Seq<char>,
    retry_at_ms: u64,
)
    requires
        outbox.wf(),
    ensures
        outbox.append(event).wf(),
        outbox.mark_dispatched(id).wf(),
        outbox.mark_failed(id, error, retry_at_ms).wf(),
{
    assert(outbox.mark_failed(id, error, retry_at_ms).live.dom() =~= outbox.live.dom());
}

/// Appending is idempotent on the id: a second append of an id changes
/// nothing, whatever else the envelope says.
pub proof fn append_is_idempotent(outbox: Outbox, event: Envelope, again: Envelope)
    requires
        event.id == again.id,
    ensures
        outbox.append(event).append(again) == outbox.append(event),
{
}

/// Appending the id of a dispatched event changes nothing.
pub proof fn append_after_dispatch_is_ignored(outbox: Outbox, event: Envelope)
    ensures
        outbox.mark_dispatched(event.id).append(event) == outbox.mark_dispatched(event.id),
{
}

/// A freshly appended event is live and due from its creation time on; one
/// created at [`NEVER`] is parked.
pub proof fn appended_is_due_from_creation(outbox: Outbox, event: Envelope, now_ms: u64)
    requires
        !outbox.knows(event.id),
    ensures
        outbox.append(event).live[event.id].event == event,
        outbox.append(event).due(event.id, now_ms) <==> event.created_at <= now_ms
            && event.created_at != NEVER,
{
}

/// Dispatched is terminal: whatever follows, a dispatched event stays
/// dispatched, is never due, and is in neither count.
pub proof fn dispatched_is_terminal(
    outbox: Outbox,
    id: u128,
    event: Envelope,
    other: u128,
    error: Seq<char>,
    retry_at_ms: u64,
    now_ms: u64,
)
    requires
        outbox.wf(),
        outbox.dispatched.contains(id),
    ensures
        !outbox.due(id, now_ms),
        !outbox.pending().contains(id),
        !outbox.parked().contains(id),
        outbox.append(event).dispatched.contains(id),
        outbox.mark_dispatched(other).dispatched.contains(id),
        outbox.mark_failed(other, error, retry_at_ms).dispatched.contains(id),
        outbox.mark_failed(id, error, retry_at_ms) == outbox,
        outbox.mark_dispatched(id) == outbox,
{
    assert(outbox.live.remove(id) =~= outbox.live);
    assert(outbox.dispatched.insert(id) =~= outbox.dispatched);
}

/// Events are never dropped: only its own `mark_dispatched` ends an event's
/// life. Appending changes nothing of it, and neither does anything done to
/// other ids; a failure keeps what it delivers.
pub proof fn events_are_never_dropped(
    outbox: Outbox,
    id: u128,
    event: Envelope,
    other: u128,
    error: Seq<char>,
    retry_at_ms: u64,
)
    requires
        outbox.live.contains_key(id),
        other != id,
    ensures
        outbox.append(event).live.contains_key(id),
        outbox.append(event).live[id] == outbox.live[id],
        outbox.mark_dispatched(other).live.contains_key(id),
        outbox.mark_dispatched(other).live[id] == outbox.live[id],
        outbox.mark_failed(other, error, retry_at_ms).live.contains_key(id),
        outbox.mark_failed(other, error, retry_at_ms).live[id] == outbox.live[id],
        outbox.mark_failed(id, error, retry_at_ms).live.contains_key(id),
        ({
            let before = outbox.live[id].event;
            let after = outbox.mark_failed(id, error, retry_at_ms).live[id].event;
            &&& after.id == before.id
            &&& after.topic == before.topic
            &&& after.payload == before.payload
            &&& after.headers == before.headers
            &&& after.created_at == before.created_at
            &&& before.attempts < u32::MAX ==> after.attempts == before.attempts + 1
        }),
{
}

/// Parking: an event that failed with [`NEVER`] is due at no time, is not
/// pending, and is counted as parked.
pub proof fn never_parks(outbox: Outbox, id: u128, error: Seq<char>, now_ms: u64)
    requires
        outbox.live.contains_key(id),
    ensures
        !outbox.mark_failed(id, error, NEVER).due(id, now_ms),
        !outbox.mark_failed(id, error, NEVER).pending().contains(id),
        outbox.mark_failed(id, error, NEVER).parked().contains(id),
{
}

/// Replay: a failure with a real timestamp brings an event back, parked or
/// not, and makes it due from that time on.
pub proof fn rescheduling_replays(
    outbox: Outbox,
    id: u128,
    error: Seq<char>,
    retry_at_ms: u64,
    now_ms: u64,
)
    requires
        outbox.live.contains_key(id),
        retry_at_ms != NEVER,
    ensures
        outbox.mark_failed(id, error, retry_at_ms).pending().contains(id),
        !outbox.mark_failed(id, error, retry_at_ms).parked().contains(id),
        outbox.mark_failed(id, error, retry_at_ms).due(id, now_ms) <==> retry_at_ms <= now_ms,
{
}

/// Every live event is pending or parked, and none is both.
pub proof fn live_is_pending_or_parked(outbox: Outbox)
    requires
        outbox.wf(),
    ensures
        outbox.pending().disjoint(outbox.parked()),
        outbox.pending().union(outbox.parked()) == outbox.live.dom(),
        outbox.pending().len() + outbox.parked().len() == outbox.live.dom().len(),
{
    assert(outbox.pending().union(outbox.parked()) =~= outbox.live.dom());
    vstd::set_lib::lemma_set_disjoint_lens(outbox.pending(), outbox.parked());
}

/// What is due is pending, and stays due as time passes.
pub proof fn due_is_pending(outbox: Outbox, id: u128, now_ms: u64, later_ms: u64)
    requires
        outbox.due(id, now_ms),
        now_ms <= later_ms,
    ensures
        outbox.pending().contains(id),
        outbox.due(id, later_ms),
{
}

/// Two batches for the same time agree as far as both go.
proof fn lemma_batches_agree(
    outbox: Outbox,
    left: Seq<Envelope>,
    right: Seq<Envelope>,
    limit: nat,
    other_limit: nat,
    now_ms: u64,
    at: int,
)
    requires
        outbox.wf(),
        outbox.is_due_batch(left, limit, now_ms),
        outbox.is_due_batch(right, other_limit, now_ms),
        0 <= at < left.len(),
        at < right.len(),
    ensures
        left[at] == right[at],
    decreases at,
{
    assert forall|k: int| 0 <= k < at implies left[k] == right[k] by {
        lemma_batches_agree(outbox, left, right, limit, other_limit, now_ms, k);
    }
    let a = left[at].id;
    let b = right[at].id;
    assert(outbox.due(a, now_ms) && outbox.due(b, now_ms));
    if a != b {
        if outbox.before(a, b) {
            lemma_not_earlier(outbox, left, right, other_limit, now_ms, at);
        } else {
            lemma_not_earlier(outbox, right, left, limit, now_ms, at);
        }
    }
}

proof fn lemma_not_earlier(
    outbox: Outbox,
    left: Seq<Envelope>,
    right: Seq<Envelope>,
    limit: nat,
    now_ms: u64,
    at: int,
)
    requires
        outbox.is_due_batch(right, limit, now_ms),
        0 <= at < left.len(),
        at < right.len(),
        outbox.due(left[at].id, now_ms),
        forall|k: int| 0 <= k < at ==> left[k] == right[k],
        forall|i: int, j: int|
            #![trigger left[i], left[j]]
            0 <= i < j < left.len() ==> outbox.before(left[i].id, left[j].id),
    ensures
        !outbox.before(left[at].id, right[at].id),
{
    let a = left[at].id;
    if outbox.before(a, right[at].id) {
        if exists|i: int| 0 <= i < right.len() && #[trigger] right[i].id == a {
            let j = choose|i: int| 0 <= i < right.len() && #[trigger] right[i].id == a;
            if j < at {
                assert(outbox.before(left[j].id, left[at].id));
            } else if j > at {
                assert(outbox.before(right[at].id, right[j].id));
            }
        } else {
            assert(outbox.before(right[at].id, a));
        }
    }
}

/// Fetching is deterministic: for one store state, limit and time there is
/// one due batch.
pub proof fn due_batch_is_unique(
    outbox: Outbox,
    left: Seq<Envelope>,
    right: Seq<Envelope>,
    limit: nat,
    now_ms: u64,
)
    requires
        outbox.wf(),
        outbox.is_due_batch(left, limit, now_ms),
        outbox.is_due_batch(right, limit, now_ms),
    ensures
        left == right,
{
    smaller_batch_is_prefix(outbox, left, right, limit, limit, now_ms);
    smaller_batch_is_prefix(outbox, right, left, limit, limit, now_ms);
    assert(left =~= right);
}

/// A smaller limit fetches a beginning of what a larger one does.
pub proof fn smaller_batch_is_prefix(
    outbox: Outbox,
    small: Seq<Envelope>,
    large: Seq<Envelope>,
    limit: nat,
    larger_limit: nat,
    now_ms: u64,
)
    requires
        outbox.wf(),
        limit <= larger_limit,
        outbox.is_due_batch(small, limit, now_ms),
        outbox.is_due_batch(large, larger_limit, now_ms),
    ensures
        small.len() <= large.len(),
        small == large.take(small.len() as int),
{
    assert forall|k: int| 0 <= k < small.len() && k < large.len() implies small[k] == large[k] by {
        lemma_batches_agree(outbox, small, large, limit, larger_limit, now_ms, k);
    }
    if large.len() < small.len() {
        let at = large.len() as int;
        let id = small[at].id;
        assert(outbox.due(id, now_ms));
        let j = choose|i: int| 0 <= i < large.len() && #[trigger] large[i].id == id;
        assert(outbox.before(small[j].id, small[at].id));
    }
    assert(small =~= large.take(small.len() as int));
}

/// A batch with room left holds every due event.
pub proof fn batch_with_room_is_complete(
    outbox: Outbox,
    batch: Seq<Envelope>,
    limit: nat,
    now_ms: u64,
    id: u128,
)
    requires
        outbox.is_due_batch(batch, limit, now_ms),
        batch.len() < limit,
        outbox.due(id, now_ms),
    ensures
        exists|i: int| 0 <= i < batch.len() && #[trigger] batch[i].id == id,
{
}

/// A fetch whose limit leaves room for every live event holds every due one.
pub proof fn roomy_batch_is_complete(
    outbox: Outbox,
    batch: Seq<Envelope>,
    limit: nat,
    now_ms: u64,
    id: u128,
)
    requires
        outbox.wf(),
        outbox.is_due_batch(batch, limit, now_ms),
        outbox.live.dom().len() <= limit,
    ensures
        outbox.due(id, now_ms) <==> exists|i: int|
            0 <= i < batch.len() && #[trigger] batch[i].id == id,
{
    if outbox.due(id, now_ms) && !exists|i: int|
        0 <= i < batch.len() && #[trigger] batch[i].id == id {
        let ids = Seq::new(batch.len(), |i: int| batch[i].id);
        assert(ids.no_duplicates()) by {
            assert forall|i: int, j: int| 0 <= i < j < ids.len() implies ids[i] != ids[j] by {
                assert(outbox.before(batch[i].id, batch[j].id));
            }
        }
        ids.unique_seq_to_set();
        let others = outbox.live.dom().remove(id);
        assert(ids.to_set().subset_of(others)) by {
            assert forall|other: u128| ids.to_set().contains(other) implies others.contains(
                other,
            ) by {
                let i = choose|i: int| 0 <= i < ids.len() && ids[i] == other;
                assert(batch[i].id == other);
                assert(outbox.due(other, now_ms));
            }
        }
        vstd::set_lib::lemma_len_subset(ids.to_set(), others);
    }
}

/// An accepted event with a new id puts one id on record. A fetch with room for
/// every live event holds it, unchanged, exactly from its creation on, unless it
/// was created at [`NEVER`]. Every other event keeps its fields and schedule.
pub proof fn append_adds_one_event(
    outbox: Outbox,
    event: Envelope,
    other: u128,
    batch: Seq<Envelope>,
    limit: nat,
    now_ms: u64,
)
    requires
        outbox.wf(),
        !outbox.knows(event.id),
        outbox.append(event).is_due_batch(batch, limit, now_ms),
        outbox.append(event).live.dom().len() <= limit,
    ensures
        outbox.append(event).id_count() == outbox.id_count() + 1,
        (exists|i: int| 0 <= i < batch.len() && #[trigger] batch[i] == event)
            <==> event.created_at <= now_ms && event.created_at != NEVER,
        outbox.append(event).dispatched == outbox.dispatched,
        other != event.id ==> (outbox.append(event).live.contains_key(other)
            <==> outbox.live.contains_key(other)),
        other != event.id && outbox.live.contains_key(other) ==> outbox.append(event).live[other]
            == outbox.live[other],
{
    let after = outbox.append(event);
    operations_keep_wf(outbox, event, event.id, Seq::empty(), 0);
    assert(after.live.dom() =~= outbox.live.dom().insert(event.id));
    roomy_batch_is_complete(after, batch, limit, now_ms, event.id);
    if after.due(event.id, now_ms) {
        let i = choose|i: int| 0 <= i < batch.len() && #[trigger] batch[i].id == event.id;
        assert(batch[i] == event);
    }
}

/// The ids on record are the known ones.
proof fn lemma_known(outbox: Outbox)
    requires
        outbox.wf(),
    ensures
        outbox.live.dom().union(outbox.dispatched).finite(),
        outbox.id_count() == outbox.live.dom().union(outbox.dispatched).len(),
{
    vstd::set_lib::lemma_set_disjoint_lens(outbox.live.dom(), outbox.dispatched);
}

/// No call takes an id off the record, and none puts more than one on it.
pub proof fn calls_forget_nothing(outbox: Outbox, call: StoreCall)
    requires
        outbox.wf(),
    ensures
        outbox.after_call(call).wf(),
        outbox.id_count() <= outbox.after_call(call).id_count() <= outbox.id_count() + 1,
        forall|id: u128| #[trigger] outbox.knows(id) ==> outbox.after_call(call).knows(id),
{
    let after = outbox.after_call(call);
    match call {
        StoreCall::Append(event) => {
            operations_keep_wf(outbox, event@, 0, Seq::empty(), 0);
        },
        StoreCall::Read => {},
        StoreCall::MarkFailed { id, error, retry_at_ms } => {
            operations_keep_wf(outbox, arbitrary(), id, error, retry_at_ms);
            assert(after.live.dom() =~= outbox.live.dom());
        },
        StoreCall::MarkDispatched { id } => {
            operations_keep_wf(outbox, arbitrary(), id, Seq::empty(), 0);
        },
    }
    lemma_known(outbox);
    lemma_known(after);
    let before_ids = outbox.live.dom().union(outbox.dispatched);
    let after_ids = after.live.dom().union(after.dispatched);
    let added = match call {
        StoreCall::Append(event) => event@.id,
        StoreCall::MarkDispatched { id } => id,
        _ => 0,
    };
    assert(after_ids =~= before_ids || after_ids =~= before_ids.insert(added));
}

/// What calls put on record: from an empty store on, whatever the calls, the
/// number of ids on record is that of the distinct ids ever accepted or
/// dispatched, and the pending, the parked and the dispatched ones make it up.
/// Only a store on which no call recorded anything is empty.
pub proof fn calls_are_counted(calls: Seq<StoreCall>)
    ensures
        ({
            let outbox = Outbox::empty().after_calls(calls);
            &&& outbox.wf()
            &&& outbox.live.dom().union(outbox.dispatched) == recorded_ids(calls)
            &&& outbox.dispatched == dispatched_ids(calls)
            &&& outbox.id_count() == recorded_ids(calls).len()
            &&& outbox.id_count() == outbox.pending().len() + outbox.parked().len()
                + dispatched_ids(calls).len()
            &&& outbox.id_count() == 0 <==> outbox == Outbox::empty()
        }),
    decreases calls.len(),
{
    let outbox = Outbox::empty().after_calls(calls);
    if calls.len() > 0 {
        calls_are_counted(calls.drop_last());
        calls_forget_nothing(Outbox::empty().after_calls(calls.drop_last()), calls.last());
    }
    assert(outbox.live.dom().union(outbox.dispatched) =~= recorded_ids(calls));
    assert(outbox.dispatched =~= dispatched_ids(calls));
    lemma_known(outbox);
    live_is_pending_or_parked(outbox);
    if outbox.id_count() == 0 {
        assert(outbox.live.dom() =~= Set::<u128>::empty());
        assert(outbox.live =~= Map::<u128, Slot>::empty());
        assert(outbox.dispatched =~= Set::<u128>::empty());
    }
}

/// An append records an event whose id is new, as it is and due at its creation,
/// and nothing for a known id, whether it is live or was dispatched. No other event
/// changes, and nothing is dispatched.
pub proof fn appends_record_new_ids_alone(outbox: Outbox, event: Envelope, other: u128)
    ensures
        ({
            let after = outbox.append(event);
            let known = outbox.live.contains_key(event.id) || outbox.dispatched.contains(event.id);
            &&& outbox.knows(event.id) <==> known
            &&& known ==> after == outbox
            &&& !known ==> {
                &&& after.live.contains_key(event.id)
                &&& after.live[event.id].event == event
                &&& after.live[event.id].next_attempt_at == event.created_at
            }
            &&& after.dispatched == outbox.dispatched
            &&& other != event.id ==> (after.live.contains_key(other)
                <==> outbox.live.contains_key(other))
            &&& other != event.id && outbox.live.contains_key(other) ==> after.live[other]
                == outbox.live[other]
        }),
{
}

/// A failure changes one live event: one attempt more, as far as they are counted,
/// as much of the diagnostic as 1024 bytes hold, and the time of the next attempt.
/// Everything else of it stays, and so does every other event; an id that is not
/// live changes nothing.
pub proof fn failures_change_one_event(
    outbox: Outbox,
    id: u128,
    error: Seq<char>,
    retry_at_ms: u64,
    other: u128,
)
    ensures
        ({
            let after = outbox.mark_failed(id, error, retry_at_ms);
            &&& !outbox.live.contains_key(id) ==> after == outbox
            &&& after.dispatched == outbox.dispatched
            &&& after.live.contains_key(other) <==> outbox.live.contains_key(other)
            &&& other != id && outbox.live.contains_key(other) ==> after.live[other]
                == outbox.live[other]
            &&& outbox.live.contains_key(id) ==> {
                let was = outbox.live[id].event;
                let is = after.live[id].event;
                &&& after.live[id].next_attempt_at == retry_at_ms
                &&& is.id == was.id
                &&& is.topic == was.topic
                &&& is.payload == was.payload
                &&& is.headers == was.headers
                &&& is.created_at == was.created_at
                &&& was.attempts < u32::MAX ==> is.attempts == was.attempts + 1
                &&& was.attempts == u32::MAX ==> is.attempts == u32::MAX
                &&& is.last_error matches Some(kept) && {
                    &&& kept.len() <= error.len()
                    &&& kept == error.take(kept.len() as int)
                    &&& encode_utf8(kept).len() <= 1024
                    &&& kept.len() < error.len() ==> encode_utf8(
                        error.take(kept.len() as int + 1),
                    ).len() > 1024
                }
            }
        }),
{
    truncation_is_longest_prefix(error);
}

/// A dispatch ends one event's life: its id is dispatched and no longer live. No
/// other event changes, and no other id is dispatched.
pub proof fn dispatches_end_one_event(outbox: Outbox, id: u128, other: u128)
    ensures
        ({
            let after = outbox.mark_dispatched(id);
            &&& after.dispatched.contains(id)
            &&& !after.live.contains_key(id)
            &&& other != id ==> (after.dispatched.contains(other) <==> outbox.dispatched.contains(
                other,
            ))
            &&& other != id ==> (after.live.contains_key(other) <==> outbox.live.contains_key(
                other,
            ))
            &&& other != id && outbox.live.contains_key(other) ==> after.live[other]
                == outbox.live[other]
        }),
{
}

/// A live event is parked exactly at the largest time, pending at every other, and
/// due from its time on; an event that is not live is none of these.
pub proof fn schedules_decide_what_is_due(outbox: Outbox, id: u128, now_ms: u64)
    ensures
        outbox.parked().contains(id) <==> outbox.live.contains_key(id)
            && outbox.live[id].next_attempt_at == u64::MAX,
        outbox.pending().contains(id) <==> outbox.live.contains_key(id)
            && outbox.live[id].next_attempt_at < u64::MAX,
        outbox.due(id, now_ms) <==> outbox.live.contains_key(id) && outbox.live[id].next_attempt_at
            <= now_ms && outbox.live[id].next_attempt_at < u64::MAX,
{
}

/// A due batch is the first due events: as many as the limit allows, each due and
/// as it is recorded, ordered by time of the next attempt and then by id, and no due
/// event is passed over for a later one.
pub proof fn due_batches_are_the_first_due_events(
    outbox: Outbox,
    batch: Seq<Envelope>,
    limit: nat,
    now_ms: u64,
)
    requires
        outbox.is_due_batch(batch, limit, now_ms),
    ensures
        batch.len() <= limit,
        forall|i: int|
            0 <= i < batch.len() ==> {
                let id = (#[trigger] batch[i]).id;
                &&& outbox.live.contains_key(id)
                &&& outbox.live[id].event == batch[i]
                &&& outbox.live[id].next_attempt_at <= now_ms
                &&& outbox.live[id].next_attempt_at < u64::MAX
            },
        forall|i: int, j: int|
            #![trigger batch[i], batch[j]]
            0 <= i < j < batch.len() ==> {
                let at = outbox.live[batch[i].id].next_attempt_at;
                let later = outbox.live[batch[j].id].next_attempt_at;
                at < later || (at == later && batch[i].id < batch[j].id)
            },
        forall|id: u128| #[trigger]
            outbox.live.contains_key(id) && outbox.live[id].next_attempt_at <= now_ms
                && outbox.live[id].next_attempt_at < u64::MAX ==> (exists|i: int|
                0 <= i < batch.len() && (#[trigger] batch[i]).id == id) || (batch.len() == limit
                && forall|i: int|
                0 <= i < batch.len() ==> {
                    let at = outbox.live[(#[trigger] batch[i]).id].next_attempt_at;
                    let later = outbox.live[id].next_attempt_at;
                    at < later || (at == later && batch[i].id < id)
                }),
{
    assert forall|i: int| 0 <= i < batch.len() implies outbox.due(
        (#[trigger] batch[i]).id,
        now_ms,
    ) by {}
    assert forall|id: u128| #[trigger]
        outbox.live.contains_key(id) && outbox.live[id].next_attempt_at <= now_ms
            && outbox.live[id].next_attempt_at < u64::MAX implies (exists|i: int|
        0 <= i < batch.len() && (#[trigger] batch[i]).id == id) || (batch.len() == limit && forall|
        i: int,
    |
        0 <= i < batch.len() ==> {
            let at = outbox.live[(#[trigger] batch[i]).id].next_attempt_at;
            let later = outbox.live[id].next_attempt_at;
            at < later || (at == later && batch[i].id < id)
        }) by {
        assert(outbox.due(id, now_ms));
    }
}

/// A list of envelopes is that of its events, one by one.
pub proof fn envelopes_are_the_events(events: Seq<OutboxEvent>, i: int)
    requires
        0 <= i < events.len(),
    ensures
        envelopes(events).len() == events.len(),
        envelopes(events)[i] == events[i]@,
{
}

/// An empty store knows nothing.
pub proof fn empty_stores_know_nothing(id: u128)
    ensures
        !Outbox::empty().live.contains_key(id),
        !Outbox::empty().dispatched.contains(id),
        Outbox::empty().id_count() == 0,
{
}

} // verus!
