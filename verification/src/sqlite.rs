//! The stored form of events in a SQLite table.
//!
//! The headers column is a deterministic length-prefixed codec over the
//! envelope's headers: stable bytes for the same headers on every writer. The
//! other columns are text, bytes and `INTEGER`s, into which unix-millis stamps
//! are clamped.
use crate::backoff::NEVER;
use crate::clock::now_millis;
use crate::delay::Delay;
use crate::error::StoreError;
use crate::event::OutboxEvent;
use crate::event_id::EventId;
use crate::headers::Headers;
use crate::store::truncate_error;
use vstd::prelude::*;
use vstd::slice::*;
use vstd::utf8::*;

verus! {

/// `next_attempt_at` of a parked event in storage: the largest stamp clamps to
/// the largest `INTEGER`, and no other time of an attempt does.
pub const PARKED_AS_I64: i64 = i64::MAX;

/// A stamp as an `INTEGER`.
pub open spec fn clamped(value: u64) -> i64 {
    if value <= i64::MAX {
        value as i64
    } else {
        i64::MAX
    }
}

/// An `INTEGER` as a stamp.
pub open spec fn unclamped(value: i64) -> u64 {
    if value >= 0 {
        value as u64
    } else {
        u64::MAX
    }
}

/// Clamp a unix-millis stamp into SQLite's `INTEGER` (i64).
pub fn clamp_i64(value: u64) -> (r: i64)
    ensures
        r == clamped(value),
{
    if value <= i64::MAX as u64 {
        value as i64
    } else {
        i64::MAX
    }
}

/// The inverse of [`clamp_i64`] for non-parking stamps.
pub fn unclamp_u64(value: i64) -> (r: u64)
    ensures
        r == unclamped(value),
{
    if value >= 0 {
        value as u64
    } else {
        u64::MAX
    }
}

/// The time of an attempt as an `INTEGER`: the parking one for [`NEVER`] alone,
/// and one below it for the times that are too late for an `INTEGER`.
pub open spec fn attempt_column(at_ms: u64) -> i64 {
    if at_ms == NEVER {
        PARKED_AS_I64
    } else if at_ms < PARKED_AS_I64 {
        at_ms as i64
    } else {
        (PARKED_AS_I64 - 1) as i64
    }
}

/// Clamp the time of an attempt into SQLite's `INTEGER` (i64), where only
/// [`NEVER`] becomes the parking one.
pub fn clamp_attempt(at_ms: u64) -> (r: i64)
    ensures
        r == attempt_column(at_ms),
{
    if at_ms == NEVER {
        PARKED_AS_I64
    } else if at_ms < PARKED_AS_I64 as u64 {
        at_ms as i64
    } else {
        PARKED_AS_I64 - 1
    }
}

/// A `u32` in four bytes, least significant first.
pub open spec fn le32(n: u32) -> Seq<u8> {
    seq![
        (n % 0x100) as u8,
        (n / 0x100 % 0x100) as u8,
        (n / 0x1_0000 % 0x100) as u8,
        (n / 0x100_0000) as u8,
    ]
}

/// The `u32` in the first four bytes, least significant first.
pub open spec fn le32_value(bytes: Seq<u8>) -> u32 {
    (bytes[0] + bytes[1] * 0x100 + bytes[2] * 0x1_0000 + bytes[3] * 0x100_0000) as u32
}

/// A byte string behind its length.
pub open spec fn blob(bytes: Seq<u8>) -> Seq<u8> {
    le32(bytes.len() as u32) + bytes
}

/// The encoded entries, without their count.
pub open spec fn encoded_entries(pairs: Seq<(Seq<char>, Seq<char>)>) -> Seq<u8>
    decreases pairs.len(),
{
    if pairs.len() == 0 {
        Seq::empty()
    } else {
        blob(encode_utf8(pairs[0].0)) + blob(encode_utf8(pairs[0].1)) + encoded_entries(
            pairs.drop_first(),
        )
    }
}

/// The encoded headers: the count, then per entry the name and the value.
pub open spec fn encoded(pairs: Seq<(Seq<char>, Seq<char>)>) -> Seq<u8> {
    le32(pairs.len() as u32) + encoded_entries(pairs)
}

/// Whether both parts of an entry have a length that the codec can write.
pub open spec fn entry_fits(pair: (Seq<char>, Seq<char>)) -> bool {
    encode_utf8(pair.0).len() <= u32::MAX && encode_utf8(pair.1).len() <= u32::MAX
}

/// Whether the codec can write all entries.
pub open spec fn entries_fit(pairs: Seq<(Seq<char>, Seq<char>)>) -> bool {
    forall|i: int| 0 <= i < pairs.len() ==> entry_fits(#[trigger] pairs[i])
}

/// Whether the error is a backend failure with this diagnostic.
pub open spec fn is_backend(e: StoreError, diagnostic: Seq<char>) -> bool {
    e matches StoreError::Backend(text) && text@ == diagnostic
}

/// Append a `u32`, least significant byte first.
fn push_le32(out: &mut Vec<u8>, n: u32)
    ensures
        final(out)@ == old(out)@ + le32(n),
{
    out.push((n % 0x100) as u8);
    out.push((n / 0x100 % 0x100) as u8);
    out.push((n / 0x1_0000 % 0x100) as u8);
    out.push((n / 0x100_0000) as u8);
    assert(out@ =~= old(out)@ + le32(n));
}

/// Append a text behind its length in bytes, unless that exceeds a `u32`.
fn push_blob(out: &mut Vec<u8>, text: &str) -> (fits: bool)
    ensures
        fits == (encode_utf8(text@).len() <= u32::MAX),
        fits ==> final(out)@ == old(out)@ + blob(encode_utf8(text@)),
{
    let bytes: &[u8] = text.as_bytes();
    if bytes.len() as u64 > u32::MAX as u64 {
        return false;
    }
    push_le32(out, bytes.len() as u32);
    out.extend_from_slice(bytes);
    assert(out@ =~= old(out)@ + blob(encode_utf8(text@)));
    true
}

/// Encode headers: `u32 LE count`, then per entry `u32 LE key-length`, key
/// bytes, `u32 LE value-length`, value bytes.
pub fn encode_headers(headers: &Headers) -> (r: Result<Vec<u8>, StoreError>)
    ensures
        match r {
            Ok(out) => headers.pairs().len() <= u32::MAX && entries_fit(headers.pairs()) && out@
                == encoded(headers.pairs()),
            Err(e) => if headers.pairs().len() > u32::MAX {
                is_backend(e, "too many headers"@)
            } else {
                !entries_fit(headers.pairs()) && is_backend(e, "header entry too long"@)
            },
        },
        crate::headers::ascending(headers.pairs()),
{
    let entries: &Vec<(String, String)> = headers.entries();
    let ghost pairs = headers.pairs();
    if entries.len() as u64 > u32::MAX as u64 {
        return Err(StoreError::Backend("too many headers".to_owned()));
    }
    let mut out: Vec<u8> = Vec::new();
    push_le32(&mut out, entries.len() as u32);
    let mut i: usize = 0;
    assert(out@ + encoded_entries(pairs.skip(0)) =~= encoded(pairs)) by {
        assert(pairs.skip(0) =~= pairs);
    }
    while i < entries.len()
        invariant
            i <= entries.len() <= u32::MAX,
            pairs == headers.pairs(),
            crate::headers::ascending(pairs),
            entries@.len() == pairs.len(),
            forall|k: int|
                #![trigger entries@[k]]
                #![trigger pairs[k]]
                0 <= k < entries@.len() ==> pairs[k] == (entries@[k].0@, entries@[k].1@),
            forall|k: int| 0 <= k < i ==> entry_fits(#[trigger] pairs[k]),
            out@ + encoded_entries(pairs.skip(i as int)) == encoded(pairs),
        decreases entries.len() - i,
    {
        let ghost before = out@;
        let ghost pair = pairs[i as int];
        if !push_blob(&mut out, entries[i].0.as_str()) || !push_blob(
            &mut out,
            entries[i].1.as_str(),
        ) {
            assert(!entry_fits(pairs[i as int]));
            return Err(StoreError::Backend("header entry too long".to_owned()));
        }
        proof {
            let rest = pairs.skip(i as int);
            assert(rest[0] == pair);
            assert(rest.drop_first() =~= pairs.skip(i + 1));
            assert(before + encoded_entries(rest) =~= out@ + encoded_entries(pairs.skip(i + 1)));
        }
        i = i + 1;
    }
    assert(pairs.skip(i as int) =~= Seq::<(Seq<char>, Seq<char>)>::empty());
    assert(out@ =~= encoded(pairs));
    Ok(out)
}

/// Read a `u32` length prefix, advancing the cursor.
pub fn read_u32(cursor: &mut &[u8]) -> (r: Result<u32, StoreError>)
    ensures
        match r {
            Ok(n) => old(cursor)@.len() >= 4 && n == le32_value(old(cursor)@) && final(cursor)@
                == old(cursor)@.skip(4),
            Err(e) => old(cursor)@.len() < 4 && final(cursor)@ == old(cursor)@ && is_backend(
                e,
                "corrupt headers blob"@,
            ),
        },
{
    let bytes: &[u8] = *cursor;
    if bytes.len() < 4 {
        return Err(StoreError::Backend("corrupt headers blob".to_owned()));
    }
    let n: u32 = bytes[0] as u32 + bytes[1] as u32 * 0x100 + bytes[2] as u32 * 0x1_0000 + bytes[3] as u32
        * 0x100_0000;
    *cursor = slice_subrange(bytes, 4, bytes.len());
    assert(cursor@ =~= old(cursor)@.skip(4));
    Ok(n)
}

/// Whether the bytes begin with a length and as many bytes.
pub open spec fn has_blob(bytes: Seq<u8>) -> bool {
    bytes.len() >= 4 && le32_value(bytes) <= bytes.len() - 4
}

/// The byte string at the beginning.
pub open spec fn first_blob(bytes: Seq<u8>) -> Seq<u8> {
    bytes.subrange(4, 4 + le32_value(bytes))
}

/// What follows the byte string at the beginning.
pub open spec fn after_blob(bytes: Seq<u8>) -> Seq<u8> {
    bytes.skip(4 + le32_value(bytes))
}

/// Read one length-prefixed blob, advancing the cursor.
pub fn read_blob<'a>(cursor: &mut &'a [u8]) -> (r: Result<&'a [u8], StoreError>)
    ensures
        match r {
            Ok(bytes) => {
                &&& has_blob(old(cursor)@)
                &&& bytes@ == first_blob(old(cursor)@)
                &&& final(cursor)@ == after_blob(old(cursor)@)
            },
            Err(e) => {
                &&& !has_blob(old(cursor)@)
                &&& is_backend(e, "corrupt headers blob"@)
                &&& final(cursor)@ == if old(cursor)@.len() < 4 {
                    old(cursor)@
                } else {
                    old(cursor)@.skip(4)
                }
            },
        },
{
    match read_u32(cursor) {
        Ok(n) => {
            let bytes: &'a [u8] = *cursor;
            if n as u64 > bytes.len() as u64 {
                return Err(StoreError::Backend("corrupt headers blob".to_owned()));
            }
            let len: usize = n as usize;
            *cursor = slice_subrange(bytes, len, bytes.len());
            let blob: &'a [u8] = slice_subrange(bytes, 0, len);
            assert(cursor@ =~= after_blob(old(cursor)@));
            assert(blob@ =~= first_blob(old(cursor)@));
            Ok(blob)
        },
        Err(e) => Err(e),
    }
}

/// Calls `String::from_utf8`: a text for valid UTF-8, the one that the bytes
/// encode; nothing for other bytes.
#[verifier::external_body]
fn utf8_text(bytes: Vec<u8>) -> (r: Option<String>)
    ensures
        match r {
            Some(text) => valid_utf8(bytes@) && text@ == decode_utf8(bytes@),
            None => !valid_utf8(bytes@),
        },
{
    match String::from_utf8(bytes) {
        Ok(text) => Some(text),
        Err(_) => None,
    }
}

/// The entries that the bytes encode, or the diagnostic for the first of them
/// that is corrupt.
pub open spec fn decoded_entries(bytes: Seq<u8>, count: nat) -> Result<
    Seq<(Seq<char>, Seq<char>)>,
    Seq<char>,
>
    decreases count,
{
    if count == 0 {
        Ok(Seq::empty())
    } else if !has_blob(bytes) || !has_blob(after_blob(bytes)) {
        Err("corrupt headers blob"@)
    } else if !valid_utf8(first_blob(bytes)) {
        Err("corrupt header key"@)
    } else if !valid_utf8(first_blob(after_blob(bytes))) {
        Err("corrupt header value"@)
    } else {
        let pair = (
            decode_utf8(first_blob(bytes)),
            decode_utf8(first_blob(after_blob(bytes))),
        );
        match decoded_entries(after_blob(after_blob(bytes)), (count - 1) as nat) {
            Ok(rest) => Ok(seq![pair] + rest),
            Err(diagnostic) => Err(diagnostic),
        }
    }
}

/// What the bytes of a headers column encode. Bytes after the last entry are
/// ignored.
pub open spec fn decoded(bytes: Seq<u8>) -> Result<Seq<(Seq<char>, Seq<char>)>, Seq<char>> {
    if bytes.len() < 4 {
        Err("corrupt headers blob"@)
    } else {
        decoded_entries(bytes.skip(4), le32_value(bytes) as nat)
    }
}

/// Decode the headers codec; keys and values must be UTF-8. A later entry
/// replaces an earlier one of the same name.
pub fn decode_headers(bytes: &[u8]) -> (r: Result<Headers, StoreError>)
    ensures
        match r {
            Ok(headers) => decoded(bytes@) matches Ok(pairs) && headers@ == crate::headers::map_of(
                pairs,
            ),
            Err(e) => decoded(bytes@) matches Err(diagnostic) && is_backend(e, diagnostic),
        },
{
    let mut cursor: &[u8] = bytes;
    let count: u32 = match read_u32(&mut cursor) {
        Ok(count) => count,
        Err(e) => {
            return Err(e);
        },
    };
    let mut headers: Headers = Headers::new();
    let ghost mut done: Seq<(Seq<char>, Seq<char>)> = Seq::empty();
    let mut i: u32 = 0;
    proof {
        if decoded(bytes@) is Ok {
            assert(done + decoded_entries(cursor@, count as nat)->Ok_0 =~= decoded(bytes@)->Ok_0);
        }
    }
    while i < count
        invariant
            i <= count,
            headers@ == crate::headers::map_of(done),
            match decoded_entries(cursor@, (count - i) as nat) {
                Ok(rest) => decoded(bytes@) == Ok::<Seq<(Seq<char>, Seq<char>)>, Seq<char>>(
                    done + rest,
                ),
                Err(diagnostic) => decoded(bytes@) == Err::<
                    Seq<(Seq<char>, Seq<char>)>,
                    Seq<char>,
                >(diagnostic),
            },
        decreases count - i,
    {
        let ghost before = cursor@;
        let key: &[u8] = match read_blob(&mut cursor) {
            Ok(key) => key,
            Err(e) => {
                return Err(e);
            },
        };
        let value: &[u8] = match read_blob(&mut cursor) {
            Ok(value) => value,
            Err(e) => {
                return Err(e);
            },
        };
        let key: String = match utf8_text(slice_to_vec(key)) {
            Some(key) => key,
            None => {
                return Err(StoreError::Backend("corrupt header key".to_owned()));
            },
        };
        let value: String = match utf8_text(slice_to_vec(value)) {
            Some(value) => value,
            None => {
                return Err(StoreError::Backend("corrupt header value".to_owned()));
            },
        };
        proof {
            let pair = (key@, value@);
            let rest = decoded_entries(cursor@, (count - i - 1) as nat);
            assert(done.push(pair).drop_last() =~= done);
            if rest is Ok {
                assert(done + (seq![pair] + rest->Ok_0) =~= done.push(pair) + rest->Ok_0);
            }
            done = done.push(pair);
        }
        headers.insert(key, value);
        i = i + 1;
    }
    assert(done + Seq::<(Seq<char>, Seq<char>)>::empty() =~= done);
    Ok(headers)
}

/// The columns of a stored event, its `dispatched_at` apart.
#[derive(Debug, PartialEq, Eq)]
pub struct EventRow {
    /// The id in its hyphenated text form.
    pub id: String,
    /// The topic.
    pub topic: String,
    /// The payload.
    pub payload: Vec<u8>,
    /// The encoded headers.
    pub headers: Vec<u8>,
    /// The clamped creation time.
    pub created_at: i64,
    /// Failed attempts so far.
    pub attempts: i64,
    /// The clamped time of the next attempt; for a new row that of its creation.
    pub next_attempt_at: i64,
    /// The last failure's diagnostic.
    pub last_error: Option<String>,
}

/// The text of an optional string.
pub open spec fn optional_text(text: Option<String>) -> Option<Seq<char>> {
    match text {
        Some(text) => Some(text@),
        None => None,
    }
}

/// Whether the row is the stored form of the event.
pub open spec fn stores(row: EventRow, event: OutboxEvent) -> bool {
    &&& row.id@ == crate::event_id::hyphenated_text(event.id@)
    &&& row.topic@ == event.topic@
    &&& row.payload@ == event.payload@
    &&& row.headers@ == encoded(event.headers.pairs())
    &&& row.created_at == clamped(event.created_at)
    &&& row.attempts == event.attempts
    &&& row.next_attempt_at == attempt_column(event.created_at)
    &&& optional_text(row.last_error) == optional_text(event.last_error)
}

/// The row to insert for an event.
///
/// [`StoreError::InvalidTopic`] for an invalid topic, [`StoreError::Backend`]
/// for headers that the codec cannot write.
pub fn row_for(event: &OutboxEvent) -> (r: Result<EventRow, StoreError>)
    ensures
        match r {
            Ok(row) => {
                &&& crate::event::topic_ok(event@.topic)
                &&& crate::headers::ascending(event.headers.pairs())
                &&& event.headers.pairs().len() <= u32::MAX
                &&& entries_fit(event.headers.pairs())
                &&& stores(row, *event)
            },
            Err(e) => if !crate::event::topic_ok(event@.topic) {
                e matches StoreError::InvalidTopic { topic } && topic@ == event@.topic
            } else if event.headers.pairs().len() > u32::MAX {
                is_backend(e, "too many headers"@)
            } else {
                !entries_fit(event.headers.pairs()) && is_backend(e, "header entry too long"@)
            },
        },
{
    match event.validate() {
        Ok(()) => {},
        Err(_) => {
            return Err(StoreError::InvalidTopic { topic: event.topic.clone() });
        },
    }
    let headers: Vec<u8> = match encode_headers(&event.headers) {
        Ok(headers) => headers,
        Err(e) => {
            return Err(e);
        },
    };
    Ok(
        EventRow {
            id: event.id.to_string(),
            topic: event.topic.clone(),
            payload: slice_to_vec(event.payload.as_slice()),
            headers,
            created_at: clamp_i64(event.created_at),
            attempts: clamp_i64(event.attempts as u64),
            next_attempt_at: clamp_attempt(event.created_at),
            last_error: match &event.last_error {
                Some(text) => Some(text.clone()),
                None => None,
            },
        },
    )
}

/// An `INTEGER` as a count of attempts.
pub open spec fn attempts_of(value: int) -> u32 {
    if 0 <= value <= u32::MAX {
        value as u32
    } else {
        u32::MAX
    }
}

/// Whether the event is what the row stores.
pub open spec fn restores(event: OutboxEvent, row: EventRow) -> bool {
    &&& crate::event_id::uuid_value(row.id@) == Some(event.id@ as nat)
    &&& event.topic@ == row.topic@
    &&& event.payload@ == row.payload@
    &&& decoded(row.headers@) matches Ok(pairs) && event.headers@ == crate::headers::map_of(pairs)
    &&& event.created_at == unclamped(row.created_at)
    &&& event.attempts == attempts_of(row.attempts as int)
    &&& optional_text(event.last_error) == optional_text(row.last_error)
}

/// The diagnostic for a row that stores no event, if it does not.
pub open spec fn corruption(row: EventRow) -> Option<Seq<char>> {
    if crate::event_id::uuid_value(row.id@) is None {
        Some("corrupt event id in store: "@ + row.id@)
    } else {
        match decoded(row.headers@) {
            Ok(_) => None,
            Err(diagnostic) => Some(diagnostic),
        }
    }
}

/// The event that a row stores.
///
/// [`StoreError::Backend`] for a corrupt id or corrupt headers.
pub fn event_from_row(row: EventRow) -> (r: Result<OutboxEvent, StoreError>)
    ensures
        match r {
            Ok(event) => corruption(row) is None && restores(event, row),
            Err(e) => corruption(row) matches Some(diagnostic) && is_backend(e, diagnostic),
        },
{
    let id: EventId = match EventId::parse(row.id.as_str()) {
        Ok(id) => id,
        Err(_) => {
            return Err(
                StoreError::Backend(
                    "corrupt event id in store: ".to_owned().concat(row.id.as_str()),
                ),
            );
        },
    };
    let headers: Headers = match decode_headers(row.headers.as_slice()) {
        Ok(headers) => headers,
        Err(e) => {
            return Err(e);
        },
    };
    let attempts: u32 = if 0 <= row.attempts && row.attempts <= u32::MAX as i64 {
        row.attempts as u32
    } else {
        u32::MAX
    };
    Ok(
        OutboxEvent {
            id,
            topic: row.topic,
            payload: row.payload,
            headers,
            created_at: unclamp_u64(row.created_at),
            attempts,
            last_error: row.last_error,
        },
    )
}

/// The diagnostic of a fetched row: its own failure, or what is corrupt in it.
pub open spec fn row_failure(row: Result<EventRow, String>) -> Option<Seq<char>> {
    match row {
        Ok(row) => corruption(row),
        Err(diagnostic) => Some(diagnostic@),
    }
}

/// The events that fetched rows store, in their order; a row that could not be
/// read stands with its diagnostic.
///
/// [`StoreError::Backend`] with the diagnostic of the first row that failed or
/// is corrupt.
pub fn events_from_rows(rows: Vec<Result<EventRow, String>>) -> (r: Result<
    Vec<OutboxEvent>,
    StoreError,
>)
    ensures
        match r {
            Ok(events) => {
                &&& events@.len() == rows@.len()
                &&& forall|i: int|
                    0 <= i < rows@.len() ==> row_failure(#[trigger] rows@[i]) is None && restores(
                        events@[i],
                        rows@[i]->Ok_0,
                    )
            },
            Err(e) => exists|i: int|
                #![trigger rows@[i]]
                {
                    &&& 0 <= i < rows@.len()
                    &&& row_failure(rows@[i]) matches Some(diagnostic) && is_backend(e, diagnostic)
                    &&& forall|k: int| 0 <= k < i ==> row_failure(#[trigger] rows@[k]) is None
                },
        },
{
    let ghost all = rows@;
    let mut events: Vec<OutboxEvent> = Vec::new();
    for row in it: rows.into_iter()
        invariant
            it.seq() == all,
            events@.len() == it.index(),
            forall|k: int|
                0 <= k < events@.len() ==> row_failure(#[trigger] all[k]) is None && restores(
                    events@[k],
                    all[k]->Ok_0,
                ),
    {
        assert(row == all[it.index()]);
        match row {
            Ok(row) => match event_from_row(row) {
                Ok(event) => {
                    events.push(event);
                },
                Err(e) => {
                    return Err(e);
                },
            },
            Err(diagnostic) => {
                return Err(StoreError::Backend(diagnostic));
            },
        }
    }
    Ok(events)
}

/// The bounds of the query for due events: `next_attempt_at <= now` and
/// `next_attempt_at < parked`, at most `limit` rows.
#[derive(Debug, Clone, Copy, PartialEq, Eq)]
pub struct DueQuery {
    /// The clamped current time.
    pub now: i64,
    /// The stored form of a parked event's time.
    pub parked: i64,
    /// The most rows to fetch.
    pub limit: i64,
}

impl DueQuery {
    /// Whether the query takes an undispatched row with this
    /// `next_attempt_at`.
    pub open spec fn selects(self, next_attempt_at: i64) -> bool {
        next_attempt_at <= self.now && next_attempt_at < self.parked
    }
}

/// The bounds of the query for up to `limit` events that are due at `now_ms`.
pub fn due_query(limit: usize, now_ms: u64) -> (r: DueQuery)
    ensures
        r.now == clamped(now_ms),
        r.parked == PARKED_AS_I64,
        r.limit == clamped(limit as u64),
{
    DueQuery { now: clamp_i64(now_ms), parked: PARKED_AS_I64, limit: clamp_i64(limit as u64) }
}

/// The columns that a failure sets: the truncated diagnostic and the clamped
/// time of the next attempt.
pub fn failure_columns(error: &str, retry_at_ms: u64) -> (r: (String, i64))
    ensures
        r.0@ == crate::store::truncated(error@),
        r.1 == attempt_column(retry_at_ms),
{
    (truncate_error(error), clamp_attempt(retry_at_ms))
}

/// The column that a dispatch sets: the clamped current time.
pub fn dispatch_column() -> (r: i64)
    ensures
        exists|reading: Option<Delay>|
            crate::clock::clock_reading(reading) && r == clamped(
                #[trigger] crate::clock::epoch_millis(reading),
            ),
{
    clamp_i64(now_millis())
}

/// A number written in four bytes reads back.
proof fn lemma_le32(n: u32, rest: Seq<u8>)
    ensures
        le32_value(le32(n) + rest) == n,
        le32(n).len() == 4,
{
}

/// A byte string behind its length reads back.
proof fn lemma_blob(bytes: Seq<u8>, rest: Seq<u8>)
    requires
        bytes.len() <= u32::MAX,
    ensures
        has_blob(blob(bytes) + rest),
        first_blob(blob(bytes) + rest) == bytes,
        after_blob(blob(bytes) + rest) == rest,
{
    let all = blob(bytes) + rest;
    lemma_le32(bytes.len() as u32, bytes + rest);
    assert(all =~= le32(bytes.len() as u32) + (bytes + rest));
    assert(first_blob(all) =~= bytes);
    assert(after_blob(all) =~= rest);
}

/// Concatenation of four byte strings associates.
proof fn lemma_regroup(a: Seq<u8>, b: Seq<u8>, c: Seq<u8>, d: Seq<u8>)
    ensures
        a + b + c + d == a + (b + (c + d)),
{
    assert(a + b + c + d =~= a + (b + (c + d)));
}

/// The first entry reads back, and the rest is read on.
proof fn lemma_first_entry(name: Seq<u8>, value: Seq<u8>, tail: Seq<u8>, count: nat)
    requires
        name.len() <= u32::MAX,
        value.len() <= u32::MAX,
        valid_utf8(name),
        valid_utf8(value),
        count > 0,
    ensures
        decoded_entries(blob(name) + (blob(value) + tail), count) == match decoded_entries(
            tail,
            (count - 1) as nat,
        ) {
            Ok(rest) => Ok::<Seq<(Seq<char>, Seq<char>)>, Seq<char>>(
                seq![(decode_utf8(name), decode_utf8(value))] + rest,
            ),
            Err(diagnostic) => Err(diagnostic),
        },
{
    lemma_blob(name, blob(value) + tail);
    lemma_blob(value, tail);
}

proof fn lemma_entries_round_trip(pairs: Seq<(Seq<char>, Seq<char>)>, extra: Seq<u8>)
    requires
        entries_fit(pairs),
    ensures
        decoded_entries(encoded_entries(pairs) + extra, pairs.len()) == Ok::<
            Seq<(Seq<char>, Seq<char>)>,
            Seq<char>,
        >(pairs),
    decreases pairs.len(),
{
    if pairs.len() == 0 {
        assert(pairs =~= Seq::<(Seq<char>, Seq<char>)>::empty());
    } else {
        let rest = pairs.drop_first();
        let tail = encoded_entries(rest) + extra;
        let name = encode_utf8(pairs[0].0);
        let value = encode_utf8(pairs[0].1);
        assert(entry_fits(pairs[0]));
        assert forall|i: int| 0 <= i < rest.len() implies entry_fits(#[trigger] rest[i]) by {
            assert(rest[i] == pairs[i + 1]);
        }
        lemma_entries_round_trip(rest, extra);
        lemma_regroup(blob(name), blob(value), encoded_entries(rest), extra);
        encode_utf8_valid_utf8(pairs[0].0);
        encode_utf8_valid_utf8(pairs[0].1);
        encode_utf8_decode_utf8(pairs[0].0);
        encode_utf8_decode_utf8(pairs[0].1);
        lemma_first_entry(name, value, tail, pairs.len());
        assert(seq![pairs[0]] + rest =~= pairs);
    }
}

/// Headers round-trip through their stored bytes, whatever follows them.
pub proof fn headers_round_trip(pairs: Seq<(Seq<char>, Seq<char>)>, extra: Seq<u8>)
    requires
        pairs.len() <= u32::MAX,
        entries_fit(pairs),
    ensures
        decoded(encoded(pairs) + extra) == Ok::<Seq<(Seq<char>, Seq<char>)>, Seq<char>>(pairs),
{
    let bytes = encoded(pairs) + extra;
    lemma_le32(pairs.len() as u32, encoded_entries(pairs) + extra);
    assert(bytes =~= le32(pairs.len() as u32) + (encoded_entries(pairs) + extra));
    assert(bytes.skip(4) =~= encoded_entries(pairs) + extra);
    lemma_entries_round_trip(pairs, extra);
}

/// The codec is deterministic: equal headers have identical bytes.
pub proof fn equal_headers_encode_equally(
    left: Seq<(Seq<char>, Seq<char>)>,
    right: Seq<(Seq<char>, Seq<char>)>,
)
    requires
        crate::headers::ascending(left),
        crate::headers::ascending(right),
        crate::headers::map_of(left) == crate::headers::map_of(right),
    ensures
        encoded(left) == encoded(right),
{
    crate::headers::order_is_canonical(left, right);
}

/// Bytes cut off before the end of their last entry never decode.
pub proof fn truncated_headers_are_rejected(pairs: Seq<(Seq<char>, Seq<char>)>, len: int)
    requires
        pairs.len() <= u32::MAX,
        entries_fit(pairs),
        0 <= len < encoded(pairs).len(),
    ensures
        decoded(encoded(pairs).take(len)) == Err::<Seq<(Seq<char>, Seq<char>)>, Seq<char>>(
            "corrupt headers blob"@,
        ),
{
    let bytes = encoded(pairs).take(len);
    if len >= 4 {
        lemma_le32(pairs.len() as u32, encoded_entries(pairs));
        assert(bytes.take(4) =~= le32(pairs.len() as u32));
        assert(forall|i: int| 0 <= i < 4 ==> bytes[i] == #[trigger] encoded(pairs)[i]);
        assert(bytes.skip(4) =~= encoded_entries(pairs).take(len - 4));
        lemma_truncated_entries(pairs, len - 4);
    }
}

proof fn lemma_truncated_entries(pairs: Seq<(Seq<char>, Seq<char>)>, len: int)
    requires
        entries_fit(pairs),
        0 <= len < encoded_entries(pairs).len(),
    ensures
        decoded_entries(encoded_entries(pairs).take(len), pairs.len()) == Err::<
            Seq<(Seq<char>, Seq<char>)>,
            Seq<char>,
        >("corrupt headers blob"@),
    decreases pairs.len(),
{
    let name = encode_utf8(pairs[0].0);
    let value = encode_utf8(pairs[0].1);
    let rest = pairs.drop_first();
    let all = encoded_entries(pairs);
    let bytes = all.take(len);
    assert(entry_fits(pairs[0]));
    assert(all =~= blob(name) + (blob(value) + encoded_entries(rest)));
    if len < blob(name).len() {
        lemma_truncated_blob(name, len);
        assert(bytes =~= blob(name).take(len));
    } else if len < blob(name).len() + blob(value).len() {
        let left = len - blob(name).len();
        lemma_blob(name, blob(value).take(left));
        lemma_truncated_blob(value, left);
        assert(bytes =~= blob(name) + blob(value).take(left));
    } else {
        let left = len - blob(name).len() - blob(value).len();
        assert forall|i: int| 0 <= i < rest.len() implies entry_fits(#[trigger] rest[i]) by {
            assert(rest[i] == pairs[i + 1]);
        }
        lemma_truncated_entries(rest, left);
        let tail = encoded_entries(rest).take(left);
        assert(bytes =~= blob(name) + (blob(value) + tail));
        encode_utf8_valid_utf8(pairs[0].0);
        encode_utf8_valid_utf8(pairs[0].1);
        lemma_first_entry(name, value, tail, pairs.len());
    }
}

proof fn lemma_truncated_blob(bytes: Seq<u8>, len: int)
    requires
        bytes.len() <= u32::MAX,
        0 <= len < blob(bytes).len(),
    ensures
        !has_blob(blob(bytes).take(len)),
{
    lemma_le32(bytes.len() as u32, bytes);
    let cut = blob(bytes).take(len);
    if len >= 4 {
        assert(forall|i: int| 0 <= i < 4 ==> cut[i] == #[trigger] blob(bytes)[i]);
    }
}

/// An event round-trips through its row: what the row restores is the event
/// that it stores, for creation times that an `INTEGER` holds.
pub proof fn rows_round_trip(event: OutboxEvent, row: EventRow, back: OutboxEvent)
    requires
        event.headers.pairs().len() <= u32::MAX,
        entries_fit(event.headers.pairs()),
        event.created_at <= i64::MAX,
        stores(row, event),
        restores(back, row),
    ensures
        back@ == event@,
{
    crate::event_id::text_round_trips(event.id@);
    headers_round_trip(event.headers.pairs(), Seq::empty());
    assert(encoded(event.headers.pairs()) + Seq::<u8>::empty() =~= encoded(event.headers.pairs()));
}

/// The row of an event is never corrupt.
pub proof fn stored_rows_are_sound(event: OutboxEvent, row: EventRow)
    requires
        event.headers.pairs().len() <= u32::MAX,
        entries_fit(event.headers.pairs()),
        stores(row, event),
    ensures
        corruption(row) is None,
{
    crate::event_id::text_round_trips(event.id@);
    headers_round_trip(event.headers.pairs(), Seq::empty());
    assert(encoded(event.headers.pairs()) + Seq::<u8>::empty() =~= encoded(event.headers.pairs()));
}

/// Stamps that an `INTEGER` holds round-trip, as do the times of attempts below
/// the parking `INTEGER`, which the parking stamp alone is stored as. A later
/// stamp is stored as no earlier one.
pub proof fn stamps_round_trip(value: u64, later: u64)
    ensures
        value <= i64::MAX ==> unclamped(clamped(value)) == value,
        value < i64::MAX ==> unclamped(attempt_column(value)) == value,
        attempt_column(value) == PARKED_AS_I64 <==> value == NEVER,
        value <= later ==> clamped(value) <= clamped(later) && attempt_column(value)
            <= attempt_column(later),
{
}

/// Stamps are clamped into `INTEGER`s and out of them: those that fit are kept,
/// later ones become the largest `INTEGER`, and negative ones the largest stamp. A
/// time of an attempt that does not fit becomes the one before the largest, which
/// [`NEVER`] alone becomes.
pub proof fn stamps_are_clamped(value: u64, stored: i64)
    ensures
        value <= i64::MAX ==> clamped(value) == value,
        value > i64::MAX ==> clamped(value) == i64::MAX,
        stored >= 0 ==> unclamped(stored) == stored,
        stored < 0 ==> unclamped(stored) == u64::MAX,
        value < i64::MAX ==> attempt_column(value) == value,
        i64::MAX <= value < u64::MAX ==> attempt_column(value) == i64::MAX - 1,
        value == u64::MAX ==> attempt_column(value) == i64::MAX,
{
}

/// Lengths are written and read in four bytes, the least significant first.
pub proof fn lengths_are_little_endian(n: u32, bytes: Seq<u8>)
    requires
        bytes.len() >= 4,
    ensures
        le32(n).len() == 4,
        n == le32(n)[0] + le32(n)[1] * 0x100 + le32(n)[2] * 0x1_0000 + le32(n)[3] * 0x100_0000,
        le32_value(bytes) == bytes[0] + bytes[1] * 0x100 + bytes[2] * 0x1_0000 + bytes[3]
            * 0x100_0000,
        le32(le32_value(bytes)) == bytes.take(4),
{
    lemma_digits(bytes[0], bytes[1], bytes[2], bytes[3]);
    let read = le32(le32_value(bytes));
    let four = bytes.take(4);
    assert(read[0] == four[0] && read[1] == four[1] && read[2] == four[2] && read[3] == four[3]);
    assert(read =~= four);
}

/// Four bytes as the digits of a number.
proof fn lemma_digits(a: u8, b: u8, c: u8, d: u8)
    ensures
        ({
            let n = a + b * 0x100 + c * 0x1_0000 + d * 0x100_0000;
            &&& n <= u32::MAX
            &&& n % 0x100 == a
            &&& n / 0x100 % 0x100 == b
            &&& n / 0x1_0000 % 0x100 == c
            &&& n / 0x100_0000 == d
        }),
{
    let n = a + b * 0x100 + c * 0x1_0000 + d * 0x100_0000;
    assert(n / 0x100 == b + c * 0x100 + d * 0x1_0000);
    assert(n / 0x1_0000 == c + d * 0x100);
    assert(n / 0x100_0000 == d);
}

/// A byte string stands at the beginning of others where a length does and as many
/// bytes follow it; they are the string, and the rest is what follows them.
pub proof fn blobs_are_lengths_and_bytes(bytes: Seq<u8>)
    ensures
        bytes.len() < 4 ==> !has_blob(bytes),
        bytes.len() >= 4 ==> ({
            let len = bytes[0] + bytes[1] * 0x100 + bytes[2] * 0x1_0000 + bytes[3] * 0x100_0000;
            &&& has_blob(bytes) <==> 4 + len <= bytes.len()
            &&& has_blob(bytes) ==> {
                &&& first_blob(bytes).len() == len
                &&& first_blob(bytes) + after_blob(bytes) == bytes.skip(4)
                &&& blob(first_blob(bytes)) + after_blob(bytes) == bytes
            }
        }),
{
    if bytes.len() >= 4 {
        lengths_are_little_endian(0, bytes);
    }
    if has_blob(bytes) {
        assert(first_blob(bytes) + after_blob(bytes) =~= bytes.skip(4));
        assert(blob(first_blob(bytes)) + after_blob(bytes) =~= bytes);
    }
}

/// A byte string behind its length reads back, whatever follows it.
pub proof fn blobs_read_back(bytes: Seq<u8>, rest: Seq<u8>)
    requires
        bytes.len() <= u32::MAX,
    ensures
        has_blob(le32(bytes.len() as u32) + bytes + rest),
        first_blob(le32(bytes.len() as u32) + bytes + rest) == bytes,
        after_blob(le32(bytes.len() as u32) + bytes + rest) == rest,
{
    lemma_blob(bytes, rest);
}

/// What was written of the entries is what comes before the next one.
proof fn lemma_encoded_push(
    pairs: Seq<(Seq<char>, Seq<char>)>,
    pair: (Seq<char>, Seq<char>),
)
    ensures
        encoded_entries(pairs.push(pair)) == encoded_entries(pairs) + blob(encode_utf8(pair.0))
            + blob(encode_utf8(pair.1)),
    decreases pairs.len(),
{
    let all = pairs.push(pair);
    let name = blob(encode_utf8(pair.0));
    let value = blob(encode_utf8(pair.1));
    if pairs.len() == 0 {
        assert(all.drop_first() =~= pairs);
        assert(encoded_entries(all) =~= name + value);
        assert(encoded_entries(pairs) + name + value =~= name + value);
    } else {
        let rest = pairs.drop_first();
        assert(all.drop_first() =~= rest.push(pair));
        assert(all[0] == pairs[0]);
        lemma_encoded_push(rest, pair);
        assert(encoded_entries(all) =~= encoded_entries(pairs) + name + value);
    }
}

/// Headers are written as their count and then entry by entry, the name and the
/// value each behind its length in bytes.
pub proof fn headers_are_written_entry_by_entry(
    pairs: Seq<(Seq<char>, Seq<char>)>,
    pair: (Seq<char>, Seq<char>),
)
    requires
        pairs.len() < u32::MAX,
    ensures
        encoded(Seq::<(Seq<char>, Seq<char>)>::empty()) == seq![0u8, 0, 0, 0],
        ({
            let bytes = encoded(pairs.push(pair));
            let name = encode_utf8(pair.0);
            let value = encode_utf8(pair.1);
            &&& bytes.len() >= 4
            &&& bytes[0] + bytes[1] * 0x100 + bytes[2] * 0x1_0000 + bytes[3] * 0x100_0000
                == pairs.len() + 1
            &&& bytes.skip(4) == encoded(pairs).skip(4) + le32(name.len() as u32) + name + le32(
                value.len() as u32,
            ) + value
        }),
{
    let all = pairs.push(pair);
    let name = encode_utf8(pair.0);
    let value = encode_utf8(pair.1);
    lemma_encoded_push(pairs, pair);
    assert(encoded(Seq::<(Seq<char>, Seq<char>)>::empty()) =~= seq![0u8, 0, 0, 0]);
    lemma_behind_four(le32(pairs.len() as u32), encoded_entries(pairs));
    lemma_behind_four(le32(all.len() as u32), encoded_entries(all));
    lemma_le32(all.len() as u32, encoded_entries(all));
    lemma_regroup_entry(
        encoded_entries(pairs),
        le32(name.len() as u32),
        name,
        le32(value.len() as u32),
        value,
    );
}

/// What stands behind four bytes.
proof fn lemma_behind_four(four: Seq<u8>, rest: Seq<u8>)
    requires
        four.len() == 4,
    ensures
        (four + rest).skip(4) == rest,
        (four + rest).take(4) == four,
{
    assert((four + rest).skip(4) =~= rest);
    assert((four + rest).take(4) =~= four);
}

/// Concatenation of the parts of an entry associates.
proof fn lemma_regroup_entry(a: Seq<u8>, b: Seq<u8>, c: Seq<u8>, d: Seq<u8>, e: Seq<u8>)
    ensures
        a + (b + c) + (d + e) == a + b + c + d + e,
{
    assert(a + (b + c) + (d + e) =~= a + b + c + d + e);
}

proof fn lemma_decoded_is_encoded(bytes: Seq<u8>, count: nat) -> (extra: Seq<u8>)
    ensures
        decoded_entries(bytes, count) matches Ok(pairs) ==> pairs.len() == count && entries_fit(
            pairs,
        ) && bytes == encoded_entries(pairs) + extra,
    decreases count,
{
    if decoded_entries(bytes, count) is Err || count == 0 {
        assert(encoded_entries(Seq::<(Seq<char>, Seq<char>)>::empty()) + bytes =~= bytes);
        bytes
    } else {
        let next = after_blob(bytes);
        let tail = after_blob(next);
        let name = first_blob(bytes);
        let value = first_blob(next);
        let extra = lemma_decoded_is_encoded(tail, (count - 1) as nat);
        let pairs = decoded_entries(bytes, count)->Ok_0;
        let rest = decoded_entries(tail, (count - 1) as nat)->Ok_0;
        let pair = (decode_utf8(name), decode_utf8(value));
        assert(pairs == seq![pair] + rest);
        assert(pairs.drop_first() =~= rest);
        blobs_are_lengths_and_bytes(bytes);
        blobs_are_lengths_and_bytes(next);
        decode_utf8_encode_utf8(name);
        decode_utf8_encode_utf8(value);
        assert forall|i: int| 0 <= i < pairs.len() implies entry_fits(#[trigger] pairs[i]) by {
            if i > 0 {
                assert(pairs[i] == rest[i - 1]);
            }
        }
        lemma_regroup(blob(name), blob(value), encoded_entries(rest), extra);
        assert(encoded_entries(pairs) == blob(name) + blob(value) + encoded_entries(rest));
        extra
    }
}

/// Bytes that are known from the fifth on, and their first four.
proof fn lemma_beginning(bytes: Seq<u8>, four: Seq<u8>, entries: Seq<u8>, extra: Seq<u8>)
    requires
        bytes.len() >= 4,
        bytes.take(4) == four,
        bytes.skip(4) == entries + extra,
    ensures
        (four + entries).len() <= bytes.len(),
        bytes.take((four + entries).len() as int) == four + entries,
{
    assert(bytes =~= bytes.take(4) + bytes.skip(4));
    assert(bytes.take((four + entries).len() as int) =~= four + entries);
}

/// Only headers decode: what is read from bytes are as many entries as they say, and
/// the bytes are those that the entries are written in, whatever follows.
pub proof fn only_written_headers_decode(bytes: Seq<u8>)
    ensures
        decoded(bytes) matches Ok(pairs) ==> {
            &&& bytes.len() >= 4
            &&& pairs.len() == bytes[0] + bytes[1] * 0x100 + bytes[2] * 0x1_0000 + bytes[3]
                * 0x100_0000
            &&& entries_fit(pairs)
            &&& encoded(pairs).len() <= bytes.len()
            &&& bytes.take(encoded(pairs).len() as int) == encoded(pairs)
        },
{
    if bytes.len() >= 4 {
        let count = le32_value(bytes);
        lengths_are_little_endian(0, bytes);
        let extra = lemma_decoded_is_encoded(bytes.skip(4), count as nat);
        if decoded(bytes) is Ok {
            let pairs = decoded(bytes)->Ok_0;
            lemma_beginning(bytes, le32(count), encoded_entries(pairs), extra);
        }
    }
}

proof fn lemma_good_entries(
    good: Seq<(Seq<char>, Seq<char>)>,
    count: nat,
    bad: Seq<u8>,
)
    requires
        entries_fit(good),
        good.len() < count,
    ensures
        decoded_entries(encoded_entries(good) + bad, count) == match decoded_entries(
            bad,
            (count - good.len()) as nat,
        ) {
            Ok(rest) => Ok::<Seq<(Seq<char>, Seq<char>)>, Seq<char>>(good + rest),
            Err(diagnostic) => Err(diagnostic),
        },
    decreases good.len(),
{
    let after = decoded_entries(bad, (count - good.len()) as nat);
    if good.len() == 0 {
        assert(encoded_entries(good) + bad =~= bad);
        if after is Ok {
            assert(good + after->Ok_0 =~= after->Ok_0);
        }
    } else {
        let rest = good.drop_first();
        let name = encode_utf8(good[0].0);
        let value = encode_utf8(good[0].1);
        assert(entry_fits(good[0]));
        assert forall|i: int| 0 <= i < rest.len() implies entry_fits(#[trigger] rest[i]) by {
            assert(rest[i] == good[i + 1]);
        }
        lemma_good_entries(rest, (count - 1) as nat, bad);
        lemma_regroup(blob(name), blob(value), encoded_entries(rest), bad);
        encode_utf8_valid_utf8(good[0].0);
        encode_utf8_valid_utf8(good[0].1);
        encode_utf8_decode_utf8(good[0].0);
        encode_utf8_decode_utf8(good[0].1);
        lemma_first_entry(name, value, encoded_entries(rest) + bad, count);
        if after is Ok {
            assert(seq![good[0]] + (rest + after->Ok_0) =~= good + after->Ok_0);
        }
    }
}

/// The first corrupt entry decides the diagnostic: bytes that end before a name and
/// a value do are a corrupt blob; else a name that is not UTF-8 is a corrupt key, and
/// else a value that is not one a corrupt value. Fewer than four bytes are a corrupt
/// blob.
pub proof fn first_corrupt_entry_decides(
    good: Seq<(Seq<char>, Seq<char>)>,
    count: u32,
    bad: Seq<u8>,
    short: Seq<u8>,
)
    requires
        entries_fit(good),
        good.len() < count,
        short.len() < 4,
    ensures
        decoded(short) == Err::<Seq<(Seq<char>, Seq<char>)>, Seq<char>>("corrupt headers blob"@),
        ({
            let bytes = le32(count) + encoded_entries(good) + bad;
            let next = after_blob(bad);
            let complete = has_blob(bad) && has_blob(next);
            &&& !complete ==> decoded(bytes) == Err::<Seq<(Seq<char>, Seq<char>)>, Seq<char>>(
                "corrupt headers blob"@,
            )
            &&& complete && !valid_utf8(first_blob(bad)) ==> decoded(bytes) == Err::<
                Seq<(Seq<char>, Seq<char>)>,
                Seq<char>,
            >("corrupt header key"@)
            &&& complete && valid_utf8(first_blob(bad)) && !valid_utf8(first_blob(next))
                ==> decoded(bytes) == Err::<Seq<(Seq<char>, Seq<char>)>, Seq<char>>(
                "corrupt header value"@,
            )
        }),
{
    let bytes = le32(count) + encoded_entries(good) + bad;
    lemma_le32(count, encoded_entries(good) + bad);
    assert(bytes =~= le32(count) + (encoded_entries(good) + bad));
    assert(bytes.skip(4) =~= encoded_entries(good) + bad);
    lemma_good_entries(good, count as nat, bad);
}

/// A row holds every field of its event, its times clamped.
pub proof fn rows_hold_every_field(row: EventRow, event: OutboxEvent)
    requires
        stores(row, event),
    ensures
        row.id@ == crate::event_id::hyphenated_text(event.id@),
        row.topic@ == event.topic@,
        row.payload@ == event.payload@,
        row.headers@ == encoded(event.headers.pairs()),
        row.attempts == event.attempts,
        row.created_at == if event.created_at <= i64::MAX {
            event.created_at as int
        } else {
            i64::MAX as int
        },
        row.next_attempt_at == if event.created_at < i64::MAX {
            event.created_at as int
        } else if event.created_at < u64::MAX {
            i64::MAX - 1
        } else {
            i64::MAX as int
        },
        event.last_error is None <==> row.last_error is None,
        event.last_error matches Some(text) ==> (row.last_error matches Some(kept) && kept@
            == text@),
{
}

/// An event is restored from every column of its row; times and counts that no event
/// has are read as the largest ones.
pub proof fn rows_restore_every_field(event: OutboxEvent, row: EventRow)
    requires
        restores(event, row),
    ensures
        crate::event_id::uuid_value(row.id@) == Some(event.id@ as nat),
        event.topic@ == row.topic@,
        event.payload@ == row.payload@,
        decoded(row.headers@) matches Ok(pairs) && event.headers@ == crate::headers::map_of(pairs),
        row.created_at >= 0 ==> event.created_at == row.created_at,
        row.created_at < 0 ==> event.created_at == u64::MAX,
        0 <= row.attempts <= u32::MAX ==> event.attempts == row.attempts,
        !(0 <= row.attempts <= u32::MAX) ==> event.attempts == u32::MAX,
        row.last_error is None <==> event.last_error is None,
        row.last_error matches Some(text) ==> (event.last_error matches Some(kept) && kept@
            == text@),
{
}

/// A fetched row fails where it could not be read, with its own diagnostic, and
/// where its id or, after that, its headers are corrupt; no other row does.
pub proof fn only_corrupt_rows_fail(row: EventRow, diagnostic: String)
    ensures
        row_failure(Err(diagnostic)) == Some(diagnostic@),
        row_failure(Ok(row)) is None <==> crate::event_id::uuid_value(row.id@) is Some && decoded(
            row.headers@,
        ) is Ok,
        crate::event_id::uuid_value(row.id@) is None ==> row_failure(Ok(row)) == Some(
            "corrupt event id in store: "@ + row.id@,
        ),
        crate::event_id::uuid_value(row.id@) is Some ==> (decoded(row.headers@) matches Err(text)
            ==> row_failure(Ok(row)) == Some(text)),
{
}

/// The codec can write every name and value whose length in bytes a `u32` holds.
pub proof fn lengths_decide_what_can_be_written(pairs: Seq<(Seq<char>, Seq<char>)>)
    ensures
        entries_fit(pairs) <==> forall|i: int|
            0 <= i < pairs.len() ==> encode_utf8((#[trigger] pairs[i]).0).len() <= 0xffff_ffff
                && encode_utf8(pairs[i].1).len() <= 0xffff_ffff,
{
    if entries_fit(pairs) {
        assert forall|i: int| 0 <= i < pairs.len() implies encode_utf8(
            (#[trigger] pairs[i]).0,
        ).len() <= 0xffff_ffff && encode_utf8(pairs[i].1).len() <= 0xffff_ffff by {
            assert(entry_fits(pairs[i]));
        }
    }
}

/// A backend failure carries its diagnostic.
pub proof fn backend_failures_carry_their_diagnostic(e: StoreError, diagnostic: Seq<char>)
    ensures
        is_backend(e, diagnostic) <==> match e {
            StoreError::Backend(text) => text@ == diagnostic,
            StoreError::InvalidTopic { .. } => false,
        },
{
}

} // verus!
