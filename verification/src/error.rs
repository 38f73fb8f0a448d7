//! Errors produced by the envelope, the stores, and the dispatcher.
//!
//! Documented failure modes are part of the API contract; every variant
//! lists the condition that produces it.
use vstd::prelude::*;

verus! {

/// An envelope construction or parsing failure.
///
/// Produced by [`OutboxEvent::new`](crate::OutboxEvent::new) and
/// [`EventId::parse`](crate::EventId::parse).
#[derive(Debug, PartialEq, Eq)]
#[non_exhaustive]
pub enum EventError {
    /// The topic failed validation. Topics must match `[a-z0-9_.-]{1,128}`:
    /// lowercase ASCII alphanumerics, `.`, `_`, `-`, 1..=128 characters. The
    /// rejected topic is included for diagnostics.
    InvalidTopic {
        /// The rejected topic string.
        topic: String,
    },
    /// The event id failed parsing. Ids transport as hyphenated UUID strings.
    InvalidId {
        /// The rejected id string.
        input: String,
    },
}

/// A failure of the underlying [`OutboxStore`](crate::OutboxStore).
///
/// Stores are expected to fail closed: when a store cannot safely record or
/// read outbox state it returns an error rather than silently dropping an
/// event.
#[derive(Debug, PartialEq, Eq)]
#[non_exhaustive]
pub enum StoreError {
    /// `append` rejected the event because its topic does not match
    /// `[a-z0-9_.-]{1,128}`. The event was not recorded; fix the topic and
    /// append again.
    InvalidTopic {
        /// The rejected topic string.
        topic: String,
    },
    /// The backend failed. The `String` is the backend's own diagnostic. The
    /// store's state is unchanged for a failed write; retry the operation.
    Backend(String),
}

/// A delivery failure surfaced by a dispatcher's sender.
///
/// The dispatcher treats every [`DispatchError::Delivery`] as a retryable
/// failure and never inspects the message.
#[derive(Debug, PartialEq, Eq)]
#[non_exhaustive]
pub enum DispatchError {
    /// The delivery attempt failed. The `String` is the sender's diagnostic.
    Delivery(String),
}

/// The text of a string in quotes, with quotes, backslashes, control and
/// other unprintable characters escaped: what `{:?}` prints for it.
pub uninterp spec fn quoted(text: Seq<char>) -> Seq<char>;

/// Calls the `Debug` formatting of `str` through `format!("{:?}")`; its result
/// is named [`quoted`].
#[verifier::external_body]
fn quote(text: &str) -> (r: String)
    ensures
        r@ == quoted(text@),
{
    format!("{:?}", text)
}

/// The message for a rejected topic, given the topic in quotes.
pub open spec fn topic_text(quoted_topic: Seq<char>) -> Seq<char> {
    "invalid outbox topic "@ + quoted_topic + ": must match [a-z0-9_.-]{1,128}"@
}

/// The message for a rejected id, given the id in quotes.
pub open spec fn id_text(quoted_input: Seq<char>) -> Seq<char> {
    "invalid event id "@ + quoted_input + ": expected a hyphenated UUID string"@
}

/// The message for a rejected topic, given the topic in quotes.
pub fn topic_message(quoted_topic: &str) -> (r: String)
    ensures
        r@ == topic_text(quoted_topic@),
{
    "invalid outbox topic ".to_owned().concat(quoted_topic).concat(
        ": must match [a-z0-9_.-]{1,128}",
    )
}

/// The message for a rejected id, given the id in quotes.
pub fn id_message(quoted_input: &str) -> (r: String)
    ensures
        r@ == id_text(quoted_input@),
{
    "invalid event id ".to_owned().concat(quoted_input).concat(
        ": expected a hyphenated UUID string",
    )
}

impl EventError {
    /// The error's message.
    pub open spec fn text(self) -> Seq<char> {
        match self {
            EventError::InvalidTopic { topic } => topic_text(quoted(topic@)),
            EventError::InvalidId { input } => id_text(quoted(input@)),
        }
    }

    /// The error's message.
    pub fn to_string(&self) -> (r: String)
        ensures
            r@ == self.text(),
    {
        match self {
            EventError::InvalidTopic { topic } => topic_message(quote(topic.as_str()).as_str()),
            EventError::InvalidId { input } => id_message(quote(input.as_str()).as_str()),
        }
    }
}

impl StoreError {
    /// The error's message.
    pub open spec fn text(self) -> Seq<char> {
        match self {
            StoreError::InvalidTopic { topic } => topic_text(quoted(topic@)),
            StoreError::Backend(diagnostic) => "outbox store backend failure: "@ + diagnostic@,
        }
    }

    /// The error's message.
    pub fn to_string(&self) -> (r: String)
        ensures
            r@ == self.text(),
    {
        match self {
            StoreError::InvalidTopic { topic } => topic_message(quote(topic.as_str()).as_str()),
            StoreError::Backend(diagnostic) => "outbox store backend failure: ".to_owned().concat(
                diagnostic.as_str(),
            ),
        }
    }
}

impl DispatchError {
    /// The error's message.
    pub open spec fn text(self) -> Seq<char> {
        match self {
            DispatchError::Delivery(message) => "delivery failed: "@ + message@,
        }
    }

    /// The error's message.
    pub fn to_string(&self) -> (r: String)
        ensures
            r@ == self.text(),
    {
        match self {
            DispatchError::Delivery(message) => "delivery failed: ".to_owned().concat(
                message.as_str(),
            ),
        }
    }
}

impl Clone for EventError {
    fn clone(&self) -> (r: EventError)
        ensures
            r == *self,
    {
        match self {
            EventError::InvalidTopic { topic } => EventError::InvalidTopic { topic: topic.clone() },
            EventError::InvalidId { input } => EventError::InvalidId { input: input.clone() },
        }
    }
}

impl Clone for StoreError {
    fn clone(&self) -> (r: StoreError)
        ensures
            r == *self,
    {
        match self {
            StoreError::InvalidTopic { topic } => StoreError::InvalidTopic { topic: topic.clone() },
            StoreError::Backend(diagnostic) => StoreError::Backend(diagnostic.clone()),
        }
    }
}

impl Clone for DispatchError {
    fn clone(&self) -> (r: DispatchError)
        ensures
            r == *self,
    {
        match self {
            DispatchError::Delivery(message) => DispatchError::Delivery(message.clone()),
        }
    }
}

impl From<String> for DispatchError {
    fn from(message: String) -> (r: DispatchError) {
        DispatchError::Delivery(message)
    }
}

impl vstd::std_specs::convert::FromSpecImpl<String> for DispatchError {
    open spec fn obeys_from_spec() -> bool {
        true
    }

    open spec fn from_spec(message: String) -> DispatchError {
        DispatchError::Delivery(message)
    }
}

impl From<&str> for DispatchError {
    fn from(message: &str) -> (r: DispatchError)
        ensures
            r matches DispatchError::Delivery(text) && text@ == message@,
    {
        DispatchError::Delivery(message.to_owned())
    }
}

impl vstd::std_specs::convert::FromSpecImpl<&str> for DispatchError {
    open spec fn obeys_from_spec() -> bool {
        false
    }

    open spec fn from_spec(message: &str) -> DispatchError {
        arbitrary()
    }
}

/// Every message says what was rejected or what failed, between fixed words.
pub proof fn messages_hold_what_failed(event: EventError, store: StoreError, dispatch: DispatchError)
    ensures
        event matches EventError::InvalidTopic { topic } ==> event.text()
            == "invalid outbox topic "@ + quoted(topic@)
            + ": must match [a-z0-9_.-]{1,128}"@,
        event matches EventError::InvalidId { input } ==> event.text() == "invalid event id "@
            + quoted(input@) + ": expected a hyphenated UUID string"@,
        store matches StoreError::InvalidTopic { topic } ==> store.text()
            == "invalid outbox topic "@ + quoted(topic@)
            + ": must match [a-z0-9_.-]{1,128}"@,
        store matches StoreError::Backend(diagnostic) ==> store.text()
            == "outbox store backend failure: "@ + diagnostic@,
        dispatch matches DispatchError::Delivery(message) ==> dispatch.text()
            == "delivery failed: "@ + message@,
{
}

/// The words of a message stand around whatever is quoted.
pub proof fn messages_stand_around_the_quote(quote: Seq<char>)
    ensures
        topic_text(quote) == "invalid outbox topic "@ + quote
            + ": must match [a-z0-9_.-]{1,128}"@,
        id_text(quote) == "invalid event id "@ + quote
            + ": expected a hyphenated UUID string"@,
{
}

/// A message becomes the diagnostic of a delivery as it is.
pub proof fn deliveries_carry_their_message(message: String)
    ensures
        <DispatchError as vstd::std_specs::convert::FromSpec<String>>::from_spec(message)
            == DispatchError::Delivery(message),
{
}

} // verus!
