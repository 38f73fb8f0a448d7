//! The durable event envelope.
use crate::clock::now_millis;
use crate::delay::Delay;
use crate::error::EventError;
use crate::event_id::EventId;
use crate::headers::Headers;
use vstd::prelude::*;
use vstd::slice::*;
use vstd::utf8::*;

verus! {

/// The characters of a topic: `[a-z0-9_.-]`.
pub open spec fn topic_char(c: char) -> bool {
    'a' <= c <= 'z' || '0' <= c <= '9' || c == '_' || c == '.' || c == '-'
}

/// Whether a topic matches `[a-z0-9_.-]{1,128}`.
pub open spec fn topic_ok(topic: Seq<char>) -> bool {
    &&& 1 <= topic.len() <= 128
    &&& forall|i: int| 0 <= i < topic.len() ==> topic_char(#[trigger] topic[i])
}

/// Topics must match `[a-z0-9_.-]{1,128}`.
///
/// The charset keeps topics safe as routing keys, queue names, and URL path
/// segments without escaping; the 128-character bound keeps the envelope
/// indexable in every store.
pub fn validate_topic(topic: &str) -> (r: Result<(), EventError>)
    ensures
        match r {
            Ok(()) => topic_ok(topic@),
            Err(e) => !topic_ok(topic@) && (e matches EventError::InvalidTopic { topic: rejected }
                && rejected@ == topic@),
        },
        r is Ok <==> 1 <= topic@.len() <= 128 && forall|i: int|
            0 <= i < topic@.len() ==> {
                let c = #[trigger] topic@[i];
                'a' <= c <= 'z' || '0' <= c <= '9' || c == '_' || c == '.' || c == '-'
            },
{
    if is_topic(topic) {
        Ok(())
    } else {
        Err(EventError::InvalidTopic { topic: topic.to_owned() })
    }
}

/// Whether the byte is an ASCII character of `[a-z0-9_.-]`.
fn is_topic_byte(b: u8) -> (r: bool)
    ensures
        r == topic_char(b as char),
{
    match b as char {
        'a'..='z' | '0'..='9' | '_' | '.' | '-' => true,
        _ => false,
    }
}

/// Whether the text is a valid topic.
fn is_topic(text: &str) -> (r: bool)
    ensures
        r == topic_ok(text@),
{
    let ghost topic = text@;
    let bytes: &[u8] = text.as_bytes();
    proof {
        if topic_ok(topic) {
            lemma_ascii_bytes(topic);
        }
    }
    if bytes.len() < 1 || bytes.len() > 128 {
        return false;
    }
    let mut i: usize = 0;
    while i < bytes.len()
        invariant
            i <= bytes.len() <= 128,
            bytes.len() >= 1,
            topic == text@,
            bytes@ == encode_utf8(topic),
            topic_ok(topic) ==> bytes@.len() == topic.len() && (forall|k: int|
                0 <= k < topic.len() ==> #[trigger] topic[k] as u32 == bytes@[k]),
            forall|k: int| 0 <= k < i ==> topic_char(#[trigger] bytes@[k] as char),
        decreases bytes.len() - i,
    {
        let b: u8 = bytes[i];
        if !is_topic_byte(b) {
            proof {
                if topic_ok(topic) {
                    assert(topic_char(topic[i as int]));
                }
            }
            return false;
        }
        i = i + 1;
    }
    proof {
        lemma_ascii_text(topic);
        assert forall|k: int| 0 <= k < topic.len() implies topic_char(#[trigger] topic[k]) by {
            assert(topic_char(bytes@[k] as char));
            char_u32_cast(topic[k], bytes@[k] as u32);
        }
    }
    true
}

/// A text of plain ASCII bytes has those bytes as its characters.
proof fn lemma_ascii_text(text: Seq<char>)
    requires
        forall|i: int| 0 <= i < encode_utf8(text).len() ==> #[trigger] encode_utf8(text)[i] <= 0x7f,
    ensures
        encode_utf8(text).len() == text.len(),
        forall|i: int| 0 <= i < text.len() ==> #[trigger] text[i] as u32 == encode_utf8(text)[i],
    decreases text.len(),
{
    if text.len() > 0 {
        let bytes = encode_utf8(text);
        let rest = text.drop_first();
        encode_utf8_first_scalar(text);
        let first = bytes[0];
        assert(first <= 0x7f);
        assert(first & 0x7f == first) by (bit_vector)
            requires
                first <= 0x7f,
        ;
        assert(bytes =~= encode_scalar(text[0] as u32) + encode_utf8(rest));
        assert(forall|i: int|
            0 <= i < encode_utf8(rest).len() ==> #[trigger] encode_utf8(rest)[i] == bytes[i + 1]);
        lemma_ascii_text(rest);
        assert forall|i: int| 0 <= i < text.len() implies #[trigger] text[i] as u32 == bytes[i] by {
            if i > 0 {
                assert(rest[i - 1] as u32 == encode_utf8(rest)[i - 1]);
            }
        }
    }
}

/// A valid topic has its characters as its bytes.
proof fn lemma_ascii_bytes(text: Seq<char>)
    requires
        forall|i: int| 0 <= i < text.len() ==> topic_char(#[trigger] text[i]),
    ensures
        encode_utf8(text).len() == text.len(),
        forall|i: int| 0 <= i < text.len() ==> #[trigger] text[i] as u32 == encode_utf8(text)[i],
    decreases text.len(),
{
    if text.len() > 0 {
        let rest = text.drop_first();
        assert forall|i: int| 0 <= i < rest.len() implies topic_char(#[trigger] rest[i]) by {
            assert(topic_char(text[i + 1]));
        }
        lemma_ascii_bytes(rest);
        assert(topic_char(text[0]));
        let first = text[0] as u32;
        assert(first & 0x7f == first) by (bit_vector)
            requires
                first <= 0x7f,
        ;
        let bytes = encode_utf8(text);
        assert(bytes =~= seq![first as u8] + encode_utf8(rest));
        assert forall|i: int| 0 <= i < text.len() implies #[trigger] text[i] as u32 == bytes[i] by {
            if i > 0 {
                assert(rest[i - 1] as u32 == encode_utf8(rest)[i - 1]);
            }
        }
    }
}

/// A durable event envelope: the unit of work an outbox store persists and a
/// dispatcher delivers.
///
/// All fields are public: construct with [`OutboxEvent::new`] for the common
/// shape, or with a struct literal for full control (imports, replays,
/// migrations). The struct never stores scheduling metadata: `next_attempt_at`
/// and dispatch state live in the store, keyed by [`OutboxEvent::id`], so the
/// envelope round-trips through any transport unchanged.
///
/// The order of the headers is fixed, so two stores that encode the same
/// envelope produce identical bytes.
#[derive(Debug, PartialEq, Eq)]
pub struct OutboxEvent {
    /// The event's unique, idempotency key. `append` is idempotent on this
    /// field: appending the same id twice records one event.
    pub id: EventId,
    /// The validated routing topic, `[a-z0-9_.-]{1,128}`.
    pub topic: String,
    /// The opaque payload bytes.
    pub payload: Vec<u8>,
    /// Deterministic-order metadata.
    pub headers: Headers,
    /// Creation time, unix milliseconds. Doubles as the initial
    /// `next_attempt_at`: a freshly appended event is due as soon as its
    /// `created_at` has passed.
    pub created_at: u64,
    /// Number of failed dispatch attempts so far.
    pub attempts: u32,
    /// The last dispatch failure's diagnostic, truncated to 1 KiB by the
    /// stores. `None` until the first failure.
    pub last_error: Option<String>,
}

/// What an envelope says.
#[verifier::ext_equal]
pub struct Envelope {
    /// The id, as a 128-bit number.
    pub id: u128,
    /// The topic.
    pub topic: Seq<char>,
    /// The payload.
    pub payload: Seq<u8>,
    /// The headers.
    pub headers: Map<Seq<char>, Seq<char>>,
    /// Creation time, unix milliseconds.
    pub created_at: u64,
    /// Failed attempts so far.
    pub attempts: u32,
    /// The last failure's diagnostic.
    pub last_error: Option<Seq<char>>,
}

impl View for OutboxEvent {
    type V = Envelope;

    open spec fn view(&self) -> Envelope {
        Envelope {
            id: self.id@,
            topic: self.topic@,
            payload: self.payload@,
            headers: self.headers@,
            created_at: self.created_at,
            attempts: self.attempts,
            last_error: match self.last_error {
                Some(text) => Some(text@),
                None => None,
            },
        }
    }
}

/// A fresh envelope.
pub open spec fn fresh(
    id: u128,
    created_at: u64,
    topic: Seq<char>,
    payload: Seq<u8>,
    headers: Map<Seq<char>, Seq<char>>,
) -> Envelope {
    Envelope { id, topic, payload, headers, created_at, attempts: 0, last_error: None }
}

/// What a producer gets for a topic: an envelope with a freshly minted id of
/// version 7 and a clock reading as its creation time, or the rejected topic.
pub open spec fn produced(
    r: Result<OutboxEvent, EventError>,
    topic: Seq<char>,
    payload: Seq<u8>,
    headers: Map<Seq<char>, Seq<char>>,
) -> bool {
    match r {
        Ok(event) => {
            &&& topic_ok(topic)
            &&& event@ == fresh(event.id@, event.created_at, topic, payload, headers)
            &&& crate::event_id::minted(event.id@)
            &&& crate::event_id::is_v7(event.id@)
            &&& exists|reading: Option<Delay>|
                crate::clock::clock_reading(reading) && event.created_at
                    == #[trigger] crate::clock::epoch_millis(reading)
        },
        Err(e) => !topic_ok(topic) && (e matches EventError::InvalidTopic { topic: rejected }
            && rejected@ == topic),
    }
}

impl OutboxEvent {
    /// Create an event with a fresh id of version 7 and the wall clock as
    /// `created_at`: the common producer path.
    ///
    /// [`EventError::InvalidTopic`] unless `topic` matches
    /// `[a-z0-9_.-]{1,128}`.
    pub fn new(topic: &str, payload: &[u8]) -> (r: Result<OutboxEvent, EventError>)
        ensures
            produced(r, topic@, payload@, Map::<Seq<char>, Seq<char>>::empty()),
    {
        OutboxEvent::with_headers(topic, payload, Headers::new())
    }

    /// Create an event with initial headers, everything else as in
    /// [`OutboxEvent::new`].
    ///
    /// [`EventError::InvalidTopic`] unless `topic` matches
    /// `[a-z0-9_.-]{1,128}`.
    pub fn with_headers(topic: &str, payload: &[u8], headers: Headers) -> (r: Result<
        OutboxEvent,
        EventError,
    >)
        ensures
            produced(r, topic@, payload@, headers@),
    {
        match validate_topic(topic) {
            Ok(()) => Ok(
                OutboxEvent::assemble(EventId::now_v7(), now_millis(), topic, payload, headers),
            ),
            Err(e) => Err(e),
        }
    }

    /// A fresh envelope with a given id and creation time.
    pub fn assemble(
        id: EventId,
        created_at: u64,
        topic: &str,
        payload: &[u8],
        headers: Headers,
    ) -> (r: OutboxEvent)
        ensures
            r@ == fresh(id@, created_at, topic@, payload@, headers@),
            r.id == id,
            r.created_at == created_at,
    {
        OutboxEvent {
            id,
            topic: topic.to_owned(),
            payload: slice_to_vec(payload),
            headers,
            created_at,
            attempts: 0,
            last_error: None,
        }
    }

    /// Validate the envelope's invariants (currently: topic charset).
    ///
    /// `append` calls this before recording; callers that deserialize
    /// envelopes from untrusted bytes can re-validate up front.
    pub fn validate(&self) -> (r: Result<(), EventError>)
        ensures
            match r {
                Ok(()) => topic_ok(self@.topic),
                Err(e) => !topic_ok(self@.topic) && (e matches EventError::InvalidTopic {
                    topic: rejected,
                } && rejected@ == self@.topic),
            },
    {
        validate_topic(self.topic.as_str())
    }
}

/// The two producers differ in the headers alone: for one topic and payload both
/// reject the topic, with the same error, or neither does, and then the envelopes
/// are valid, fresh, and what was asked for. The ids and creation times are those
/// of each call.
pub proof fn producers_differ_in_headers_alone(
    plain: Result<OutboxEvent, EventError>,
    headed: Result<OutboxEvent, EventError>,
    topic: Seq<char>,
    payload: Seq<u8>,
    headers: Map<Seq<char>, Seq<char>>,
)
    requires
        produced(plain, topic, payload, Map::<Seq<char>, Seq<char>>::empty()),
        produced(headed, topic, payload, headers),
    ensures
        plain is Err <==> headed is Err,
        plain is Err <==> !topic_ok(topic),
        match (plain, headed) {
            (Err(left), Err(right)) => {
                &&& left matches EventError::InvalidTopic { topic: rejected } && rejected@ == topic
                &&& right matches EventError::InvalidTopic { topic: rejected } && rejected@ == topic
            },
            (Ok(left), Ok(right)) => {
                &&& right@ == (Envelope {
                    id: right.id@,
                    created_at: right.created_at,
                    headers,
                    ..left@
                })
                &&& topic_ok(right@.topic)
                &&& left@.headers == Map::<Seq<char>, Seq<char>>::empty()
                &&& right@.topic == topic
                &&& right@.payload == payload
                &&& right@.attempts == 0
                &&& right@.last_error is None
            },
            _ => false,
        },
{
}

impl Clone for OutboxEvent {
    fn clone(&self) -> (r: OutboxEvent)
        ensures
            r@ == self@,
    {
        OutboxEvent {
            id: self.id,
            topic: self.topic.clone(),
            payload: slice_to_vec(self.payload.as_slice()),
            headers: self.headers.clone(),
            created_at: self.created_at,
            attempts: self.attempts,
            last_error: match &self.last_error {
                Some(text) => Some(text.clone()),
                None => None,
            },
        }
    }
}

/// A topic is judged by its length and by each of its characters alone: every text
/// of 1 to 128 characters of `a` to `z`, `0` to `9`, `_`, `.` and `-` is one, and
/// no other text.
pub proof fn topics_are_judged_by_length_and_characters(topic: Seq<char>)
    ensures
        topic_ok(topic) <==> 1 <= topic.len() <= 128 && forall|i: int|
            0 <= i < topic.len() ==> {
                let c = #[trigger] topic[i];
                'a' <= c <= 'z' || '0' <= c <= '9' || c == '_' || c == '.' || c == '-'
            },
{
}

/// Topics concatenate: two of them in a row are one exactly where they have at most
/// 128 characters together.
pub proof fn topics_concatenate(left: Seq<char>, right: Seq<char>)
    requires
        topic_ok(left),
        topic_ok(right),
    ensures
        topic_ok(left + right) <==> left.len() + right.len() <= 128,
{
}

/// Every part of a topic that is not empty is one.
pub proof fn parts_of_topics_are_topics(topic: Seq<char>, from: int, to: int)
    requires
        topic_ok(topic),
        0 <= from < to <= topic.len(),
    ensures
        topic_ok(topic.subrange(from, to)),
{
}

/// The order of its characters does not matter to a topic.
pub proof fn topics_may_be_reordered(topic: Seq<char>, i: int, j: int)
    requires
        0 <= i < topic.len(),
        0 <= j < topic.len(),
    ensures
        topic_ok(topic.update(i, topic[j]).update(j, topic[i])) <==> topic_ok(topic),
{
    let swapped = topic.update(i, topic[j]).update(j, topic[i]);
    assert(swapped[i] == topic[j] && swapped[j] == topic[i]);
    assert forall|k: int| 0 <= k < topic.len() && k != i && k != j implies swapped[k]
        == #[trigger] topic[k] by {}
    if topic_ok(swapped) {
        assert forall|k: int| 0 <= k < topic.len() implies topic_char(#[trigger] topic[k]) by {
            assert(topic_char(swapped[if k == i {
                j
            } else if k == j {
                i
            } else {
                k
            }]));
        }
    }
}

/// The view of an event is its fields, one by one.
pub proof fn envelopes_say_what_events_hold(event: OutboxEvent)
    ensures
        event@.id == event.id@,
        event@.topic == event.topic@,
        event@.payload == event.payload@,
        event@.headers == event.headers@,
        event@.created_at == event.created_at,
        event@.attempts == event.attempts,
        event.last_error is None ==> event@.last_error is None,
        event.last_error matches Some(text) ==> event@.last_error == Some(text@),
{
}

/// A fresh envelope holds what it was made of, no attempts and no diagnostic.
pub proof fn fresh_envelopes_hold_what_they_were_given(
    id: u128,
    created_at: u64,
    topic: Seq<char>,
    payload: Seq<u8>,
    headers: Map<Seq<char>, Seq<char>>,
)
    ensures
        ({
            let event = fresh(id, created_at, topic, payload, headers);
            &&& event.id == id
            &&& event.created_at == created_at
            &&& event.topic == topic
            &&& event.payload == payload
            &&& event.headers == headers
            &&& event.attempts == 0
            &&& event.last_error is None
        }),
{
}

/// What a producer returns: for a topic that is none the rejected topic, for any
/// other an event with a minted id, the clock's time in milliseconds, and what was
/// asked for.
pub proof fn producers_make_fresh_events(
    r: Result<OutboxEvent, EventError>,
    topic: Seq<char>,
    payload: Seq<u8>,
    headers: Map<Seq<char>, Seq<char>>,
)
    requires
        produced(r, topic, payload, headers),
    ensures
        r is Ok <==> topic_ok(topic),
        r matches Err(e) ==> (e matches EventError::InvalidTopic { topic: rejected } && rejected@
            == topic),
        r matches Ok(event) ==> {
            &&& crate::event_id::minted(event.id@)
            &&& event.topic@ == topic
            &&& event.payload@ == payload
            &&& event.headers@ == headers
            &&& event.attempts == 0
            &&& event.last_error is None
            &&& exists|reading: Option<Delay>|
                {
                    &&& #[trigger] crate::clock::clock_reading(reading)
                    &&& reading is None ==> event.created_at == 0
                    &&& reading matches Some(span) ==> event.created_at == if span@ / 1_000_000
                        <= u64::MAX {
                        span@ / 1_000_000
                    } else {
                        u64::MAX as nat
                    }
                }
        },
{
    if r is Ok {
        let event = r->Ok_0;
        let reading = choose|reading: Option<Delay>|
            crate::clock::clock_reading(reading) && event.created_at
                == #[trigger] crate::clock::epoch_millis(reading);
        assert(crate::clock::clock_reading(reading));
    }
}

} // verus!
