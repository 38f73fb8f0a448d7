//! The at-least-once dispatch loop, around a circuit breaker.
use crate::backoff::{BackoffPolicy, NEVER};
use crate::clock::now_millis;
use crate::delay::Delay;
use crate::error::{DispatchError, StoreError};
use crate::event::{Envelope, OutboxEvent};
use crate::store::{Outbox, OutboxStore};
use breaker::{BackoffStrategy, CircuitBreaker, CircuitBreakerConfig, CircuitMetrics, State};
use std::collections::VecDeque;
use std::time::Duration;
use vstd::prelude::*;

verus! {

/// `breaker::CircuitBreakerConfig`, carried as an opaque value.
#[verifier::external_type_specification]
#[verifier::external_body]
pub struct ExCircuitBreakerConfig(breaker::CircuitBreakerConfig);

/// `breaker::CircuitBreaker`, carried as an opaque value.
#[verifier::external_type_specification]
#[verifier::external_body]
pub struct ExCircuitBreaker(breaker::CircuitBreaker);

/// `breaker::State`, carried as an opaque value.
#[verifier::external_type_specification]
#[verifier::external_body]
pub struct ExState(breaker::State);

/// `breaker::CircuitMetrics`, carried as an opaque value.
#[verifier::external_type_specification]
#[verifier::external_body]
pub struct ExCircuitMetrics(breaker::CircuitMetrics);

/// How long a breaker stays open after a trip, as its configuration says it.
#[derive(Debug, Clone, Copy, PartialEq, Eq)]
pub enum BreakerWait {
    /// The same span after every trip.
    Fixed {
        /// Its whole seconds, and the nanoseconds beyond them.
        wait: (u64, u32),
    },
    /// A span that grows from trip to trip.
    Exponential {
        /// The whole seconds of the first wait, and the nanoseconds beyond them.
        initial: (u64, u32),
        /// The whole seconds of the longest wait, and the nanoseconds beyond them.
        max: (u64, u32),
        /// The binary64 bit pattern of the growth per trip.
        factor_bits: u64,
    },
    /// A growing span of which a random part is taken off.
    ExponentialJitter {
        /// The whole seconds of the first wait, and the nanoseconds beyond them.
        initial: (u64, u32),
        /// The whole seconds of the longest wait, and the nanoseconds beyond them.
        max: (u64, u32),
        /// The binary64 bit pattern of the growth per trip.
        factor_bits: u64,
        /// The binary64 bit pattern of the largest part taken off.
        jitter_bits: u64,
    },
}

/// What of a breaker's configuration decides whether a breaker can be made.
#[derive(Debug, Clone, Copy, PartialEq, Eq)]
pub struct BreakerShape {
    /// The capacity of the window of recent outcomes.
    pub window: u32,
    /// The wait after a trip.
    pub wait: BreakerWait,
}

/// Reads the fields `sliding_window_size` and `backoff` of a
/// `breaker::CircuitBreakerConfig` as plain values. The configuration is
/// opaque, so that the values are those of its fields is left unsaid.
#[verifier::external_body]
pub(crate) fn shape_of(config: &CircuitBreakerConfig) -> (r: BreakerShape) {
    let span = |span: Duration| (span.as_secs(), span.subsec_nanos());
    let wait = match config.backoff {
        BackoffStrategy::Fixed(wait) => BreakerWait::Fixed { wait: span(wait) },
        BackoffStrategy::Exponential { initial, max, factor } => {
            let (initial, max) = (span(initial), span(max));
            BreakerWait::Exponential { initial, max, factor_bits: factor.to_bits() }
        },
        BackoffStrategy::ExponentialJitter { initial, max, factor, jitter } => {
            let (initial, max) = (span(initial), span(max));
            let (factor_bits, jitter_bits) = (factor.to_bits(), jitter.to_bits());
            BreakerWait::ExponentialJitter { initial, max, factor_bits, jitter_bits }
        },
    };
    BreakerShape { window: config.sliding_window_size, wait }
}

/// Whether this is the shape of the configuration.
pub closed spec fn shaped(config: CircuitBreakerConfig, shape: BreakerShape) -> bool {
    call_ensures(shape_of, (&config,), shape)
}

/// Whether the bit pattern of a binary64 number stands for no number.
pub open spec fn nan_bits(bits: u64) -> bool {
    bits % 0x8000_0000_0000_0000 > 0x7ff0_0000_0000_0000
}

/// Whether seconds, as a binary64 number, stay below the longest span of time:
/// from here on they are rounded up to `2^64`.
pub open spec fn below_longest(secs: u64) -> bool {
    secs < 0xffff_ffff_ffff_fc00
}

/// Whether the bit pattern of a binary64 number stands for a signalling NaN: one
/// whose first fraction digit is zero.
pub open spec fn signalling_bits(bits: u64) -> bool {
    nan_bits(bits) && bits / 0x8_0000_0000_0000 % 2 == 0
}

/// Whether the first wait of a growing one, in whole seconds, is a span of time:
/// it is the smaller of the two, or perhaps the longest one where the growth is a
/// signalling NaN.
pub open spec fn first_wait_fits(initial_secs: u64, max_secs: u64, factor_bits: u64) -> bool {
    below_longest(max_secs) || (below_longest(initial_secs) && !signalling_bits(factor_bits))
}

impl BreakerShape {
    /// Whether a breaker can be made: its window can be allocated, and its
    /// first wait is a span of time.
    pub open spec fn constructible(self) -> bool {
        &&& self.window <= isize::MAX
        &&& match self.wait {
            BreakerWait::Fixed { .. } => true,
            BreakerWait::Exponential {
                initial,
                max,
                factor_bits,
            } => first_wait_fits(initial.0, max.0, factor_bits),
            BreakerWait::ExponentialJitter {
                initial,
                max,
                factor_bits,
                jitter_bits,
            } => first_wait_fits(initial.0, max.0, factor_bits) && !nan_bits(jitter_bits),
        }
    }

    /// Whether a breaker of this shape can be made.
    #[must_use]
    pub fn is_constructible(&self) -> (r: bool)
        ensures
            r == self.constructible(),
    {
        if self.window as u64 > isize::MAX as u64 {
            return false;
        }
        match self.wait {
            BreakerWait::Fixed { .. } => true,
            BreakerWait::Exponential {
                initial,
                max,
                factor_bits,
            } => fits(initial.0, max.0, factor_bits),
            BreakerWait::ExponentialJitter {
                initial,
                max,
                factor_bits,
                jitter_bits,
            } => fits(initial.0, max.0, factor_bits) && !is_nan(jitter_bits),
        }
    }
}

/// Whether the first wait of a growing one is a span of time.
fn fits(initial_secs: u64, max_secs: u64, factor_bits: u64) -> (r: bool)
    ensures
        r == first_wait_fits(initial_secs, max_secs, factor_bits),
{
    let rounded_up: u64 = 0xffff_ffff_ffff_fc00;
    let signalling: bool = is_nan(factor_bits) && factor_bits / 0x8_0000_0000_0000 % 2 == 0;
    max_secs < rounded_up || (initial_secs < rounded_up && !signalling)
}

/// Whether the bit pattern of a binary64 number stands for no number.
fn is_nan(bits: u64) -> (r: bool)
    ensures
        r == nan_bits(bits),
{
    bits % 0x8000_0000_0000_0000 > 0x7ff0_0000_0000_0000
}

/// Whether a breaker can be made with the configuration.
pub open spec fn constructible(config: CircuitBreakerConfig) -> bool {
    exists|shape: BreakerShape| #[trigger] shaped(config, shape) && shape.constructible()
}

/// Calls `breaker::CircuitBreakerConfig::standard`: its window holds ten
/// outcomes and its wait is 30 seconds after every trip. The configuration is
/// opaque, and nothing is claimed of its thresholds and probes.
#[verifier::external_body]
pub(crate) fn standard_config() -> (r: CircuitBreakerConfig)
    ensures
        shaped(
            r,
            (BreakerShape { window: 10, wait: (BreakerWait::Fixed { wait: (30, 0) }) }),
        ),
{
    CircuitBreakerConfig::standard()
}

/// Whether this is the standard configuration.
pub closed spec fn is_standard(config: CircuitBreakerConfig) -> bool {
    call_ensures(standard_config, (), config)
}

/// Clones a `breaker::CircuitBreakerConfig`: the copy has the same shape.
/// Nothing is claimed of the rest of it, which is opaque.
#[verifier::external_body]
pub(crate) fn copied_config(config: &CircuitBreakerConfig) -> (r: CircuitBreakerConfig)
    ensures
        forall|shape: BreakerShape| #[trigger] shaped(*config, shape) ==> shaped(r, shape),
{
    config.clone()
}

/// Whether this is a copy of the configuration.
pub closed spec fn is_copy(config: CircuitBreakerConfig, copy: CircuitBreakerConfig) -> bool {
    call_ensures(copied_config, (&config,), copy)
}

/// Calls `breaker::CircuitBreaker::new`. It computes the first wait at once, and
/// panics where that is no span of time: where the shorter of the first and the
/// longest wait reaches `2^64` seconds, or where the jitter is NaN. It may panic
/// where the longest one does and the growth is a signalling NaN, whose power to
/// zero may be NaN. Its window is allocated at once too, and can have no more than
/// `isize::MAX` bytes. Nothing is claimed of the breaker, whose state follows the
/// calls made through it and the clock.
#[verifier::external_body]
pub(crate) fn new_breaker(config: CircuitBreakerConfig) -> (r: CircuitBreaker)
    requires
        constructible(config),
{
    CircuitBreaker::new(config)
}

/// Whether this is a breaker made with a copy of the configuration.
pub closed spec fn made_with(breaker: CircuitBreaker, config: CircuitBreakerConfig) -> bool {
    exists|copy: CircuitBreakerConfig| #[trigger]
        is_copy(config, copy) && call_ensures(new_breaker, (copy,), breaker)
}

/// `breaker::CircuitBreaker::state`: the state depends on the calls made so
/// far and on the clock, and nothing is claimed of it.
pub assume_specification[ breaker::CircuitBreaker::state ](this: &CircuitBreaker) -> State;

/// `breaker::CircuitBreaker::metrics`: the counts depend on the calls made so
/// far, and nothing is claimed of them.
pub assume_specification[ breaker::CircuitBreaker::metrics ](
    this: &CircuitBreaker,
) -> CircuitMetrics;

/// Default time between store polls, in milliseconds.
pub const DEFAULT_POLL_INTERVAL: u64 = 500;

/// Default maximum number of dispatches in flight at once.
pub const DEFAULT_CONCURRENCY: usize = 16;

/// Default number of due events fetched per poll.
pub const DEFAULT_BATCH_SIZE: usize = 100;

/// Dispatcher configuration.
#[derive(Debug)]
pub struct DispatcherConfig {
    /// Time between store polls. Clamped to at least 1 ms. Default
    /// [`DEFAULT_POLL_INTERVAL`].
    pub poll_interval: Delay,
    /// Maximum due events fetched per poll. Clamped to at least 1. Default
    /// [`DEFAULT_BATCH_SIZE`].
    pub batch_size: usize,
    /// Maximum dispatches in flight concurrently. Clamped to at least 1.
    /// Default [`DEFAULT_CONCURRENCY`].
    pub concurrency: usize,
    /// Retry schedule and parking threshold for failed events.
    pub backoff: BackoffPolicy,
    /// The wrapped breaker's configuration. Default:
    /// `CircuitBreakerConfig::standard()`.
    pub breaker: CircuitBreakerConfig,
}

impl Default for DispatcherConfig {
    fn default() -> (r: DispatcherConfig)
        ensures
            r.poll_interval@ == DEFAULT_POLL_INTERVAL * 1_000_000,
            r.batch_size == DEFAULT_BATCH_SIZE,
            r.concurrency == DEFAULT_CONCURRENCY,
            r.backoff.base@ == 1_000_000_000,
            r.backoff.factor@ == 0x4000_0000_0000_0000,
            r.backoff.cap@ == 600_000_000_000,
            r.backoff.max_attempts == 12,
            is_standard(r.breaker),
            constructible(r.breaker),
    {
        DispatcherConfig {
            poll_interval: Delay::from_millis(DEFAULT_POLL_INTERVAL),
            batch_size: DEFAULT_BATCH_SIZE,
            concurrency: DEFAULT_CONCURRENCY,
            backoff: BackoffPolicy::default(),
            breaker: standard_config(),
        }
    }
}

impl DispatcherConfig {
    /// Whether a dispatcher can be made with the configuration. It cannot where
    /// the breaker's first wait is no span of time: one of `2^64` seconds or
    /// more, or one with a jitter that is NaN.
    #[must_use]
    pub fn is_constructible(&self) -> (r: bool)
        ensures
            r ==> constructible(self.breaker),
            exists|shape: BreakerShape| #[trigger]
                shaped(self.breaker, shape) && r == shape.constructible(),
    {
        let shape: BreakerShape = shape_of(&self.breaker);
        assert(shaped(self.breaker, shape));
        shape.is_constructible()
    }
}

impl Clone for DispatcherConfig {
    fn clone(&self) -> (r: DispatcherConfig)
        ensures
            r.poll_interval == self.poll_interval,
            r.batch_size == self.batch_size,
            r.concurrency == self.concurrency,
            r.backoff == self.backoff,
            is_copy(self.breaker, r.breaker),
            constructible(self.breaker) ==> constructible(r.breaker),
    {
        DispatcherConfig {
            poll_interval: self.poll_interval,
            batch_size: self.batch_size,
            concurrency: self.concurrency,
            backoff: self.backoff.clone(),
            breaker: copied_config(&self.breaker),
        }
    }
}

/// What became of a send that went through the breaker.
#[derive(Debug)]
pub enum SendOutcome {
    /// The sender delivered the event.
    Delivered,
    /// The circuit is open: the sender did not run.
    CircuitOpen,
    /// The circuit is half-open and its probe slots are taken: the sender did
    /// not run.
    Rejected,
    /// The sender failed.
    Failure(DispatchError),
    /// The breaker reported another failure of the send, with its message.
    Other(String),
}

impl SendOutcome {
    /// The diagnostic of a failed send.
    pub open spec fn diagnostic(self) -> Option<Seq<char>> {
        match self {
            SendOutcome::Failure(e) => Some(e.text()),
            SendOutcome::Other(message) => Some(message@),
            _ => None,
        }
    }
}

/// What a send leaves to record in the store.
#[derive(Debug, PartialEq, Eq)]
pub enum Recording {
    /// Mark the event dispatched.
    Dispatched,
    /// Nothing: the event stays due and its attempt budget untouched.
    LeaveDue,
    /// Mark the event failed and reschedule it; [`NEVER`] parks it.
    Failed {
        /// The diagnostic.
        error: String,
        /// When to retry, unix milliseconds.
        retry_at_ms: u64,
    },
}

/// A failed event's count of attempts, the failure included.
pub open spec fn attempts_after(attempts: u32) -> u32 {
    if attempts < u32::MAX {
        (attempts + 1) as u32
    } else {
        u32::MAX
    }
}

/// When a failed event is retried: never once its budget is exhausted, else
/// after the delay, in whole milliseconds, from now on. Times saturate.
pub open spec fn retry_time(policy: BackoffPolicy, attempts: u32, delay: nat, now_ms: u64) -> u64 {
    if attempts >= policy.max_attempts {
        NEVER
    } else if now_ms + delay / 1_000_000 <= u64::MAX {
        (now_ms + delay / 1_000_000) as u64
    } else {
        u64::MAX
    }
}

impl Recording {
    /// Whether this is what to record of a send.
    pub open spec fn follows(
        self,
        policy: BackoffPolicy,
        attempts: u32,
        outcome: SendOutcome,
        delay: nat,
        now_ms: u64,
    ) -> bool {
        match outcome {
            SendOutcome::Delivered => self is Dispatched,
            SendOutcome::CircuitOpen | SendOutcome::Rejected => self is LeaveDue,
            SendOutcome::Failure(_) | SendOutcome::Other(_) => {
                self matches Recording::Failed { error, retry_at_ms } && error@
                    == outcome.diagnostic()->0 && retry_at_ms == retry_time(
                    policy,
                    attempts_after(attempts),
                    delay,
                    now_ms,
                )
            },
        }
    }

    /// Whether this is what to record of an event's send, the retry delay being
    /// jittered with a seed for one clock reading and counted from another.
    pub open spec fn settles_at(
        self,
        policy: BackoffPolicy,
        event: Envelope,
        outcome: SendOutcome,
        reading: Option<Delay>,
        now: Option<Delay>,
    ) -> bool {
        self.follows(
            policy,
            event.attempts,
            outcome,
            policy.jittered(
                attempts_after(event.attempts),
                crate::backoff::seed_value(event.id, reading),
            ),
            crate::clock::epoch_millis(now),
        )
    }

    /// Whether this is what to record of an event's send, a retry being
    /// scheduled by two readings of the system clock and within the backoff's
    /// bound.
    pub open spec fn settles(
        self,
        policy: BackoffPolicy,
        event: Envelope,
        outcome: SendOutcome,
    ) -> bool {
        exists|reading: Option<Delay>, now: Option<Delay>|
            {
                &&& #[trigger] self.settles_at(policy, event, outcome, reading, now)
                &&& outcome.diagnostic() is Some && attempts_after(event.attempts)
                    < policy.max_attempts ==> {
                    &&& crate::clock::clock_reading(reading)
                    &&& crate::clock::clock_reading(now)
                    &&& policy.jittered(
                        attempts_after(event.attempts),
                        crate::backoff::seed_value(event.id, reading),
                    ) <= policy.bound(attempts_after(event.attempts))
                }
            }
    }

    /// The store after the recording of an event's send.
    pub open spec fn applied(self, outbox: Outbox, id: u128) -> Outbox {
        match self {
            Recording::Dispatched => outbox.mark_dispatched(id),
            Recording::LeaveDue => outbox,
            Recording::Failed { error, retry_at_ms } => outbox.mark_failed(
                id,
                error@,
                retry_at_ms,
            ),
        }
    }

    /// Whether a store has recorded this. It may pass over a dispatched id
    /// that was not live.
    pub open spec fn recorded(self, before: Outbox, after: Outbox, id: u128) -> bool {
        after == self.applied(before, id) || (self is Dispatched && !before.live.contains_key(id)
            && after == before)
    }
}

/// The decisions of the at-least-once dispatch loop.
///
/// Every `poll_interval` the dispatcher fetches a batch of due events and
/// delivers each, at most `concurrency` at a time:
///
/// - success: `mark_dispatched` (terminal);
/// - failure: `mark_failed`, to be retried after the backoff's jittered delay,
///   or parked at [`NEVER`] once the event has failed `max_attempts` times;
/// - breaker open or probe slots taken: the sender is not invoked, no attempt
///   is consumed, and the event stays due.
///
/// `shutdown` is graceful: polling stops between batches and in-flight
/// dispatches complete first. Store errors during a poll are tolerated and
/// retried at the next tick.
pub struct Dispatcher {
    config: DispatcherConfig,
    breaker: CircuitBreaker,
    shutting_down: bool,
}

impl Dispatcher {
    /// The configuration.
    pub closed spec fn settings(self) -> DispatcherConfig {
        self.config
    }

    /// The wrapped breaker.
    pub closed spec fn circuit(self) -> CircuitBreaker {
        self.breaker
    }

    /// Whether a shutdown was signalled.
    pub closed spec fn stopping(self) -> bool {
        self.shutting_down
    }

    /// A dispatcher with the default configuration.
    #[must_use]
    pub fn new() -> (r: Dispatcher)
        ensures
            call_ensures(DispatcherConfig::default, (), r.settings()),
            !r.stopping(),
            made_with(r.circuit(), r.settings().breaker),
    {
        Dispatcher::with_config(DispatcherConfig::default())
    }

    /// A dispatcher with explicit configuration, one that
    /// [`DispatcherConfig::is_constructible`] accepts.
    #[must_use]
    pub fn with_config(config: DispatcherConfig) -> (r: Dispatcher)
        requires
            constructible(config.breaker),
        ensures
            r.settings() == config,
            !r.stopping(),
            made_with(r.circuit(), config.breaker),
    {
        let copy: CircuitBreakerConfig = copied_config(&config.breaker);
        assert(is_copy(config.breaker, copy));
        let breaker: CircuitBreaker = new_breaker(copy);
        Dispatcher { config, breaker, shutting_down: false }
    }

    /// The wrapped breaker, through which every send goes.
    #[must_use]
    pub fn circuit_breaker(&self) -> (r: &CircuitBreaker)
        ensures
            *r == self.circuit(),
    {
        &self.breaker
    }

    /// The wrapped breaker's current state: closed, open (dispatch paused), or
    /// half-open (probing for recovery).
    #[must_use]
    pub fn breaker_state(&self) -> (r: State)
        ensures
            call_ensures(CircuitBreaker::state, (&self.circuit(),), r),
    {
        self.breaker.state()
    }

    /// The wrapped breaker's metrics snapshot.
    #[must_use]
    pub fn breaker_metrics(&self) -> (r: CircuitMetrics)
        ensures
            call_ensures(CircuitBreaker::metrics, (&self.circuit(),), r),
    {
        self.breaker.metrics()
    }

    /// Signal the loop to stop. Idempotent; takes effect between polls.
    pub fn shutdown(&mut self)
        ensures
            final(self).stopping(),
            final(self).settings() == old(self).settings(),
            final(self).circuit() == old(self).circuit(),
    {
        self.shutting_down = true;
    }

    /// Whether a shutdown has been signalled.
    #[must_use]
    pub fn is_shutting_down(&self) -> (r: bool)
        ensures
            r == self.stopping(),
    {
        self.shutting_down
    }

    /// The time between polls: the configured one, at least a millisecond.
    #[must_use]
    pub fn poll_interval(&self) -> (r: Delay)
        ensures
            r@ == if self.settings().poll_interval@ >= 1_000_000 {
                self.settings().poll_interval@
            } else {
                1_000_000
            },
    {
        if self.config.poll_interval.as_nanos() >= 1_000_000 {
            self.config.poll_interval
        } else {
            Delay::from_millis(1)
        }
    }

    /// The most events to fetch in a poll: the configured number, at least one.
    #[must_use]
    pub fn batch_limit(&self) -> (r: usize)
        ensures
            r == if self.settings().batch_size >= 1 {
                self.settings().batch_size
            } else {
                1
            },
    {
        if self.config.batch_size >= 1 {
            self.config.batch_size
        } else {
            1
        }
    }

    /// The most dispatches in flight: the configured number, at least one.
    #[must_use]
    pub fn permits(&self) -> (r: usize)
        ensures
            r == if self.settings().concurrency >= 1 {
                self.settings().concurrency
            } else {
                1
            },
    {
        if self.config.concurrency >= 1 {
            self.config.concurrency
        } else {
            1
        }
    }

    /// What to record of a send, given the jittered delay and the current time
    /// for a retry.
    pub fn decide(
        &self,
        event: &OutboxEvent,
        outcome: SendOutcome,
        delay: Delay,
        now_ms: u64,
    ) -> (r: Recording)
        ensures
            r.follows(self.settings().backoff, event@.attempts, outcome, delay@, now_ms),
    {
        let error: String = match outcome {
            SendOutcome::Delivered => {
                return Recording::Dispatched;
            },
            SendOutcome::CircuitOpen | SendOutcome::Rejected => {
                return Recording::LeaveDue;
            },
            SendOutcome::Failure(e) => e.to_string(),
            SendOutcome::Other(message) => message,
        };
        let attempts: u32 = event.attempts.saturating_add(1);
        let retry_at_ms: u64 = if self.config.backoff.is_exhausted(attempts) {
            NEVER
        } else {
            let millis: u128 = delay.as_millis();
            if millis <= u64::MAX as u128 {
                now_ms.saturating_add(millis as u64)
            } else {
                u64::MAX
            }
        };
        Recording::Failed { error, retry_at_ms }
    }

    /// What to record of a send: [`Dispatcher::decide`] with a delay jittered
    /// for the event and the wall clock.
    pub fn settle(&self, event: &OutboxEvent, outcome: SendOutcome) -> (r: Recording)
        ensures
            r.settles(self.settings().backoff, event@, outcome),
    {
        let ghost policy = self.settings().backoff;
        let attempts: u32 = event.attempts.saturating_add(1);
        let retries: bool = match &outcome {
            SendOutcome::Failure(_) | SendOutcome::Other(_) => !self.config.backoff.is_exhausted(
                attempts,
            ),
            _ => false,
        };
        if !retries {
            let r: Recording = self.decide(event, outcome, Delay::zero(), 0);
            assert(r.settles_at(policy, event@, outcome, None, None));
            return r;
        }
        let delay: Delay = self.config.backoff.retry_delay(attempts, event.id);
        let now_ms: u64 = now_millis();
        let r: Recording = self.decide(event, outcome, delay, now_ms);
        proof {
            let reading = choose|reading: Option<Delay>|
                crate::clock::clock_reading(reading) && delay@ == policy.jittered(
                    attempts,
                    #[trigger] crate::backoff::seed_value(event.id@, reading),
                );
            let now = choose|now: Option<Delay>|
                crate::clock::clock_reading(now) && now_ms
                    == #[trigger] crate::clock::epoch_millis(now);
            assert(r.settles_at(policy, event@, outcome, reading, now));
        }
        r
    }

    /// Record the outcome of an event's send in the store: one call of it, with
    /// what [`Dispatcher::settle`] says, or none while the breaker pauses the
    /// event.
    ///
    /// What the store answers is dropped. Where it failed to record, the event
    /// is as it was, and is fetched and sent again.
    pub fn process<S: OutboxStore>(&self, store: &mut S, event: &OutboxEvent, outcome: SendOutcome)
        ensures
            exists|recording: Recording|
                {
                    &&& #[trigger] recording.settles(self.settings().backoff, event@, outcome)
                    &&& match recording {
                        Recording::Dispatched => exists|call: &mut S, answer: Result<(), StoreError>|
                            {
                                &&& mut_ref_current(call) == *old(store)
                                &&& mut_ref_future(call) == *final(store)
                                &&& #[trigger] call_ensures(
                                    S::mark_dispatched,
                                    (call, &event.id),
                                    answer,
                                )
                            },
                        Recording::LeaveDue => *final(store) == *old(store),
                        Recording::Failed { error, retry_at_ms } => exists|
                            call: &mut S,
                            diagnostic: &str,
                            answer: Result<(), StoreError>,
                        |
                            {
                                &&& mut_ref_current(call) == *old(store)
                                &&& mut_ref_future(call) == *final(store)
                                &&& diagnostic@ == error@
                                &&& #[trigger] call_ensures(
                                    S::mark_failed,
                                    (call, &event.id, diagnostic, retry_at_ms),
                                    answer,
                                )
                            },
                    }
                    &&& recording.recorded(old(store).outbox(), final(store).outbox(), event@.id) || (
                    !(recording is LeaveDue) && final(store).outbox() == old(store).outbox())
                },
    {
        let recording: Recording = self.settle(event, outcome);
        match &recording {
            Recording::Dispatched => {
                let _ = store.mark_dispatched(&event.id);
            },
            Recording::LeaveDue => {},
            Recording::Failed { error, retry_at_ms } => {
                let _ = store.mark_failed(&event.id, error.as_str(), *retry_at_ms);
            },
        }
    }
}

/// Where the poll loop stands.
#[derive(Debug, Clone, Copy, PartialEq, Eq, Structural)]
pub enum Phase {
    /// Waiting for the next tick or a shutdown.
    Idle,
    /// Waiting for the store's due events.
    Fetching,
    /// Waiting for the batch in flight.
    Draining,
    /// Done.
    Stopped,
}

/// What the poll loop is told.
#[derive(Debug)]
pub enum LoopEvent {
    /// The poll interval has elapsed.
    Tick {
        /// The current time, unix milliseconds.
        now_ms: u64,
    },
    /// The shutdown signal changed, to this value.
    Shutdown(bool),
    /// The store answered.
    Fetched(Result<Vec<OutboxEvent>, StoreError>),
    /// One dispatch in flight has finished.
    Finished,
}

/// What the poll loop asks for next.
#[derive(Debug)]
pub enum LoopAction {
    /// Wait for a tick or a change of the shutdown signal.
    Wait,
    /// Fetch due events from the store.
    Fetch {
        /// The most events to fetch.
        limit: usize,
        /// The current time, unix milliseconds.
        now_ms: u64,
    },
    /// Start a dispatch for each event, and wait for one in flight to finish.
    Start(Vec<OutboxEvent>),
    /// Wait for one more dispatch to finish.
    Join,
    /// Return: the loop is over.
    Return,
}

impl LoopAction {
    /// The events whose dispatch the action starts.
    pub open spec fn starts(self) -> Seq<OutboxEvent> {
        match self {
            LoopAction::Start(events) => events@,
            _ => Seq::empty(),
        }
    }
}

/// The state of the poll loop.
#[verifier::ext_equal]
pub struct LoopState {
    /// Where the loop stands.
    pub phase: Phase,
    /// The fetched events whose dispatch has not started yet.
    pub waiting: Seq<OutboxEvent>,
    /// The number of dispatches in flight.
    pub in_flight: nat,
    /// The most events to fetch at once.
    pub batch_limit: nat,
    /// The most dispatches in flight at once.
    pub permits: nat,
}

impl LoopState {
    /// Dispatches are in flight exactly while a batch drains, never more than
    /// permitted, and events wait only while all permits are taken.
    pub open spec fn wf(self) -> bool {
        &&& self.in_flight > 0 <==> self.phase is Draining
        &&& self.in_flight <= self.permits
        &&& self.waiting.len() > 0 ==> self.in_flight == self.permits
        &&& self.batch_limit >= 1
        &&& self.permits >= 1
    }

    /// Whether the loop waits for this event.
    pub open spec fn accepts(self, event: LoopEvent) -> bool {
        match event {
            LoopEvent::Tick { .. } | LoopEvent::Shutdown(_) => self.phase is Idle,
            LoopEvent::Fetched(_) => self.phase is Fetching,
            LoopEvent::Finished => self.phase is Draining,
        }
    }

    /// How many of the fetched events start at once.
    pub open spec fn first_starts(self, due: Seq<OutboxEvent>) -> nat {
        if due.len() <= self.permits {
            due.len()
        } else {
            self.permits
        }
    }

    /// The state after an event.
    pub open spec fn next(self, event: LoopEvent) -> LoopState {
        match event {
            LoopEvent::Tick { .. } => LoopState { phase: Phase::Fetching, ..self },
            LoopEvent::Shutdown(signalled) => if signalled {
                LoopState { phase: Phase::Stopped, ..self }
            } else {
                self
            },
            LoopEvent::Fetched(answer) => match answer {
                Ok(due) => if due@.len() > 0 {
                    LoopState {
                        phase: Phase::Draining,
                        waiting: due@.skip(self.first_starts(due@) as int),
                        in_flight: self.first_starts(due@),
                        ..self
                    }
                } else {
                    LoopState { phase: Phase::Idle, ..self }
                },
                // A store hiccup: skip this tick, retry on the next.
                Err(_) => LoopState { phase: Phase::Idle, ..self },
            },
            LoopEvent::Finished => if self.waiting.len() > 0 {
                LoopState { waiting: self.waiting.drop_first(), ..self }
            } else if self.in_flight > 1 {
                LoopState { in_flight: (self.in_flight - 1) as nat, ..self }
            } else {
                LoopState { phase: Phase::Idle, in_flight: 0, ..self }
            },
        }
    }

    /// Whether the action is the loop's answer to the event.
    pub open spec fn answers(self, event: LoopEvent, action: LoopAction) -> bool {
        match event {
            LoopEvent::Tick { now_ms } => {
                action matches LoopAction::Fetch { limit, now_ms: at } && limit == self.batch_limit
                    && at == now_ms
            },
            LoopEvent::Shutdown(signalled) => if signalled {
                action is Return
            } else {
                action is Wait
            },
            LoopEvent::Fetched(answer) => match answer {
                Ok(due) => if due@.len() > 0 {
                    action is Start && action.starts() == due@.take(
                        self.first_starts(due@) as int,
                    )
                } else {
                    action is Wait
                },
                Err(_) => action is Wait,
            },
            LoopEvent::Finished => if self.waiting.len() > 0 {
                action is Start && action.starts() == seq![self.waiting[0]]
            } else if self.in_flight > 1 {
                action is Join
            } else {
                action is Wait
            },
        }
    }

    /// The dispatches of the batch that have not finished.
    pub open spec fn left(self) -> nat {
        self.in_flight + self.waiting.len()
    }

    /// The state after `count` dispatches have finished.
    pub open spec fn finished(self, count: nat) -> LoopState
        decreases count,
    {
        if count == 0 {
            self
        } else {
            self.finished((count - 1) as nat).next(LoopEvent::Finished)
        }
    }
}

/// The poll loop: it is told what happened and answers what to do next. It
/// starts by waiting.
#[derive(Debug)]
pub struct RunLoop {
    phase: Phase,
    waiting: VecDeque<OutboxEvent>,
    in_flight: usize,
    batch_limit: usize,
    permits: usize,
}

impl View for RunLoop {
    type V = LoopState;

    closed spec fn view(&self) -> LoopState {
        LoopState {
            phase: self.phase,
            waiting: self.waiting@,
            in_flight: self.in_flight as nat,
            batch_limit: self.batch_limit as nat,
            permits: self.permits as nat,
        }
    }
}

impl RunLoop {
    #[verifier::type_invariant]
    spec fn consistent(self) -> bool {
        self@.wf()
    }

    /// Whether the loop waits for this event.
    pub fn accepts(&self, event: &LoopEvent) -> (r: bool)
        ensures
            r == self@.accepts(*event),
    {
        match event {
            LoopEvent::Tick { .. } | LoopEvent::Shutdown(_) => self.phase == Phase::Idle,
            LoopEvent::Fetched(_) => self.phase == Phase::Fetching,
            LoopEvent::Finished => self.phase == Phase::Draining,
        }
    }

    /// Take an event and answer what to do next.
    ///
    /// The batch drains before the next poll, so an event still in flight is
    /// never fetched again; a store error skips the tick; a shutdown takes
    /// effect between polls, with nothing in flight.
    pub fn step(&mut self, event: LoopEvent) -> (r: LoopAction)
        requires
            old(self)@.accepts(event),
        ensures
            final(self)@ == old(self)@.next(event),
            final(self)@.wf(),
            old(self)@.wf(),
            old(self)@.answers(event, r),
    {
        proof {
            use_type_invariant(&*self);
        }
        match event {
            LoopEvent::Tick { now_ms } => {
                self.phase = Phase::Fetching;
                LoopAction::Fetch { limit: self.batch_limit, now_ms }
            },
            LoopEvent::Shutdown(signalled) => {
                if signalled {
                    self.phase = Phase::Stopped;
                    LoopAction::Return
                } else {
                    LoopAction::Wait
                }
            },
            LoopEvent::Fetched(Ok(due)) => self.begin(due),
            LoopEvent::Fetched(Err(_)) => {
                self.phase = Phase::Idle;
                LoopAction::Wait
            },
            LoopEvent::Finished => self.proceed(),
        }
    }

    /// Begin a batch.
    fn begin(&mut self, due: Vec<OutboxEvent>) -> (r: LoopAction)
        requires
            old(self)@.accepts(LoopEvent::Fetched(Ok(due))),
        ensures
            final(self)@ == old(self)@.next(LoopEvent::Fetched(Ok(due))),
            final(self)@.wf(),
            old(self)@.answers(LoopEvent::Fetched(Ok(due)), r),
    {
        proof {
            use_type_invariant(&*self);
        }
        if due.len() == 0 {
            self.phase = Phase::Idle;
            return LoopAction::Wait;
        }
        let ghost all = due@;
        let permits: usize = self.permits;
        let batch_limit: usize = self.batch_limit;
        let mut first: Vec<OutboxEvent> = due;
        let mut waiting: VecDeque<OutboxEvent> = VecDeque::new();
        if first.len() > permits {
            let rest: Vec<OutboxEvent> = first.split_off(permits);
            let ghost queued = rest@;
            for event in it: rest.into_iter()
                invariant
                    it.seq() == queued,
                    waiting@ == queued.take(it.index()),
            {
                waiting.push_back(event);
            }
            assert(waiting@ =~= all.skip(permits as int));
        } else {
            assert(waiting@ =~= all.skip(first@.len() as int));
        }
        assert(first@ =~= all.take(first@.len() as int));
        *self = RunLoop {
            phase: Phase::Draining,
            waiting,
            in_flight: first.len(),
            batch_limit,
            permits,
        };
        LoopAction::Start(first)
    }

    /// Go on with a batch after one of its dispatches has finished.
    fn proceed(&mut self) -> (r: LoopAction)
        requires
            old(self)@.accepts(LoopEvent::Finished),
        ensures
            final(self)@ == old(self)@.next(LoopEvent::Finished),
            final(self)@.wf(),
            old(self)@.answers(LoopEvent::Finished, r),
    {
        proof {
            use_type_invariant(&*self);
        }
        let permits: usize = self.permits;
        let batch_limit: usize = self.batch_limit;
        let in_flight: usize = self.in_flight;
        let mut waiting: VecDeque<OutboxEvent> = VecDeque::new();
        std::mem::swap(&mut waiting, &mut self.waiting);
        let ghost before = waiting@;
        match waiting.pop_front() {
            Some(event) => {
                assert(waiting@ =~= before.drop_first());
                *self = RunLoop { phase: Phase::Draining, waiting, in_flight, batch_limit, permits };
                let events: Vec<OutboxEvent> = vec![event];
                assert(events@ =~= seq![before[0]]);
                LoopAction::Start(events)
            },
            None => {
                if in_flight > 1 {
                    *self = RunLoop {
                        phase: Phase::Draining,
                        waiting,
                        in_flight: in_flight - 1,
                        batch_limit,
                        permits,
                    };
                    LoopAction::Join
                } else {
                    *self = RunLoop {
                        phase: Phase::Idle,
                        waiting,
                        in_flight: 0,
                        batch_limit,
                        permits,
                    };
                    LoopAction::Wait
                }
            },
        }
    }
}

impl Dispatcher {
    /// Start a poll loop: it waits for a tick or a shutdown, with nothing in
    /// flight.
    ///
    /// The bound on the dispatches in flight is the loop's own: whoever runs two
    /// loops of one dispatcher side by side keeps them to it together by taking a
    /// permit, of as many as [`Dispatcher::permits`] says, for each dispatch.
    #[must_use]
    pub fn run(&self) -> (r: RunLoop)
        ensures
            r@ == (LoopState {
                phase: Phase::Idle,
                waiting: Seq::empty(),
                in_flight: 0,
                batch_limit: if self.settings().batch_size >= 1 {
                    self.settings().batch_size as nat
                } else {
                    1
                },
                permits: if self.settings().concurrency >= 1 {
                    self.settings().concurrency as nat
                } else {
                    1
                },
            }),
    {
        RunLoop {
            phase: Phase::Idle,
            waiting: VecDeque::new(),
            in_flight: 0,
            batch_limit: self.batch_limit(),
            permits: self.permits(),
        }
    }
}

/// Every event keeps the loop's state well-formed.
pub proof fn steps_keep_wf(state: LoopState, event: LoopEvent)
    requires
        state.wf(),
        state.accepts(event),
    ensures
        state.next(event).wf(),
{
}

/// The loop waits for a tick or a signal while idle, for the store while it
/// fetches, for a dispatch to finish while it drains, and for nothing once stopped.
pub proof fn loops_wait_for_one_kind_of_event(state: LoopState, event: LoopEvent)
    ensures
        state.accepts(event) <==> match state.phase {
            Phase::Idle => event is Tick || event is Shutdown,
            Phase::Fetching => event is Fetched,
            Phase::Draining => event is Finished,
            Phase::Stopped => false,
        },
{
}

/// Polling makes progress: whatever its batch limit and permits, an idle loop
/// answers every tick with a fetch, for as many events as its batch limit says and
/// for the time of the tick, and then waits for the store. Nothing else changes.
pub proof fn every_tick_fetches(state: LoopState, now_ms: u64, action: LoopAction)
    requires
        state.phase is Idle,
    ensures
        state.accepts(LoopEvent::Tick { now_ms }),
        state.answers(LoopEvent::Tick { now_ms }, action) ==> (action matches LoopAction::Fetch {
            limit,
            now_ms: at,
        } && limit == state.batch_limit && at == now_ms),
        state.next(LoopEvent::Tick { now_ms }).phase is Fetching,
        state.next(LoopEvent::Tick { now_ms }).waiting == state.waiting,
        state.next(LoopEvent::Tick { now_ms }).in_flight == state.in_flight,
        state.next(LoopEvent::Tick { now_ms }).batch_limit == state.batch_limit,
        state.next(LoopEvent::Tick { now_ms }).permits == state.permits,
{
}

/// A signal that is raised stops an idle loop; one that is not leaves it waiting,
/// as it was.
pub proof fn signals_stop_an_idle_loop(state: LoopState, signalled: bool, action: LoopAction)
    requires
        state.phase is Idle,
        state.answers(LoopEvent::Shutdown(signalled), action),
    ensures
        signalled ==> action is Return && state.next(LoopEvent::Shutdown(signalled)).phase is Stopped,
        !signalled ==> action is Wait && state.next(LoopEvent::Shutdown(signalled)) == state,
        state.next(LoopEvent::Shutdown(signalled)).in_flight == state.in_flight,
        state.next(LoopEvent::Shutdown(signalled)).waiting == state.waiting,
{
}

/// A fetched batch starts at once, as far as the permits go: its first events
/// start, the rest waits in order, and it waits only where every permit is taken.
/// An empty one leaves the loop idle. The limits stay as they are.
pub proof fn fetched_events_start(state: LoopState, due: Vec<OutboxEvent>, action: LoopAction)
    requires
        state.phase is Fetching,
        state.waiting.len() == 0,
        state.in_flight == 0,
        state.permits >= 1,
        state.answers(LoopEvent::Fetched(Ok(due)), action),
    ensures
        ({
            let after = state.next(LoopEvent::Fetched(Ok(due)));
            &&& after.batch_limit == state.batch_limit
            &&& after.permits == state.permits
            &&& after.in_flight <= after.permits
            &&& after.waiting.len() > 0 ==> after.in_flight == after.permits
            &&& due@.len() == 0 ==> action is Wait && after.phase is Idle && after.in_flight == 0
            &&& due@.len() > 0 ==> after.phase is Draining && (action matches LoopAction::Start(
                started,
            ) && started@ + after.waiting == due@ && started@.len() == after.in_flight)
        }),
{
    let count = state.first_starts(due@) as int;
    assert(due@.take(count) + due@.skip(count) =~= due@);
}

/// A finished dispatch gives its permit to the next event that waits, if one does;
/// the loop joins the others as long as some are in flight, and is idle after the
/// last. The limits stay as they are.
pub proof fn finished_dispatches_make_room(state: LoopState, action: LoopAction)
    requires
        state.phase is Draining,
        state.in_flight >= 1,
        state.in_flight <= state.permits,
        state.waiting.len() > 0 ==> state.in_flight == state.permits,
        state.answers(LoopEvent::Finished, action),
    ensures
        ({
            let after = state.next(LoopEvent::Finished);
            &&& after.batch_limit == state.batch_limit
            &&& after.permits == state.permits
            &&& after.waiting.len() > 0 ==> after.in_flight == after.permits
            &&& after.in_flight + after.waiting.len() == state.in_flight + state.waiting.len() - 1
            &&& after.in_flight > 0 <==> after.phase is Draining
            &&& after.in_flight == 0 <==> after.phase is Idle
            &&& state.waiting.len() > 0 ==> (action matches LoopAction::Start(started)
                && started@.len() == 1 && started@ + after.waiting == state.waiting)
            &&& state.waiting.len() == 0 && after.in_flight > 0 ==> action is Join
                && after.waiting.len() == 0
            &&& state.waiting.len() == 0 && after.in_flight == 0 ==> action is Wait
                && after.waiting.len() == 0
        }),
{
    if state.waiting.len() > 0 {
        assert(seq![state.waiting[0]] + state.waiting.drop_first() =~= state.waiting);
    }
}

/// A batch drains before the next poll: the loop fetches, and returns, only
/// with nothing in flight.
pub proof fn polls_only_when_drained(state: LoopState, event: LoopEvent, action: LoopAction)
    requires
        state.wf(),
        state.accepts(event),
        state.answers(event, action),
        action is Fetch || action is Return,
    ensures
        state.in_flight == 0,
        state.next(event).in_flight == 0,
{
}

/// Shutdown is graceful: the loop returns on the signal and on nothing else,
/// and a stopped loop takes no further event.
pub proof fn returns_only_on_shutdown(
    state: LoopState,
    event: LoopEvent,
    action: LoopAction,
    later: LoopEvent,
)
    requires
        state.wf(),
        state.accepts(event),
        state.answers(event, action),
    ensures
        action is Return <==> event == LoopEvent::Shutdown(true),
        action is Return <==> state.next(event).phase is Stopped,
        action is Return ==> !state.next(event).accepts(later),
{
}

/// Store errors are tolerated: a failed fetch leaves the loop waiting for the
/// next tick, as before the poll.
pub proof fn store_errors_skip_the_tick(
    state: LoopState,
    now_ms: u64,
    error: StoreError,
    action: LoopAction,
)
    requires
        state.wf(),
        state.phase is Idle,
        state.next(LoopEvent::Tick { now_ms }).answers(LoopEvent::Fetched(Err(error)), action),
    ensures
        action is Wait,
        state.next(LoopEvent::Tick { now_ms }).next(LoopEvent::Fetched(Err(error))) == state,
{
}

/// Concurrency is bounded: no answer takes a loop's dispatches in flight over the
/// permitted number, and what it starts are the dispatches that it adds.
pub proof fn concurrency_is_bounded(state: LoopState, event: LoopEvent, action: LoopAction)
    requires
        state.wf(),
        state.accepts(event),
        state.answers(event, action),
    ensures
        state.next(event).in_flight <= state.permits,
        state.next(event).permits == state.permits,
        state.next(event).in_flight == state.in_flight + action.starts().len() - if event is Finished {
            1int
        } else {
            0
        },
{
}

/// Every fetched event is dispatched once, in the order of the batch: what an
/// answer starts comes off the front of what was fetched and still waits.
pub proof fn batch_starts_in_order(state: LoopState, event: LoopEvent, action: LoopAction)
    requires
        state.wf(),
        state.accepts(event),
        state.answers(event, action),
    ensures
        event matches LoopEvent::Fetched(Ok(due)) ==> action.starts() + state.next(event).waiting
            == due@,
        event is Finished ==> action.starts() + state.next(event).waiting == state.waiting,
        !(event is Finished || event is Fetched) ==> action.starts().len() == 0,
{
    match event {
        LoopEvent::Fetched(Ok(due)) => {
            let count = state.first_starts(due@) as int;
            assert(due@.take(count) + due@.skip(count) =~= due@);
            assert(Seq::<OutboxEvent>::empty() + Seq::<OutboxEvent>::empty() =~= Seq::<
                OutboxEvent,
            >::empty());
            if due@.len() == 0 {
                assert(due@ =~= Seq::<OutboxEvent>::empty());
                assert(state.waiting =~= Seq::<OutboxEvent>::empty());
            }
        },
        LoopEvent::Finished => {
            if state.waiting.len() > 0 {
                assert(seq![state.waiting[0]] + state.waiting.drop_first() =~= state.waiting);
            } else {
                assert(Seq::<OutboxEvent>::empty() + state.waiting =~= state.waiting);
            }
        },
        _ => {},
    }
}

/// A batch takes as many finished dispatches as it has events: until then it
/// drains, and after them the loop waits for the next tick.
pub proof fn batch_drains_one_by_one(state: LoopState, count: nat)
    requires
        state.wf(),
        state.phase is Draining,
        count <= state.left(),
    ensures
        state.finished(count).wf(),
        state.finished(count).left() == state.left() - count,
        count < state.left() ==> state.finished(count).phase is Draining,
        count == state.left() ==> state.finished(count).phase is Idle,
    decreases count,
{
    if count > 0 {
        batch_drains_one_by_one(state, (count - 1) as nat);
    }
}

/// Delivery is recorded: a delivered event is dispatched.
pub proof fn delivered_is_dispatched(
    recording: Recording,
    policy: BackoffPolicy,
    outbox: Outbox,
    event: Envelope,
)
    requires
        recording.settles(policy, event, SendOutcome::Delivered),
    ensures
        recording.applied(outbox, event.id).dispatched.contains(event.id),
        !recording.applied(outbox, event.id).live.contains_key(event.id),
{
}

/// The breaker owns pauses: when the sender did not run, nothing changes, so
/// the event stays due and no attempt is consumed.
pub proof fn pauses_consume_nothing(
    recording: Recording,
    policy: BackoffPolicy,
    outbox: Outbox,
    event: Envelope,
    outcome: SendOutcome,
)
    requires
        outcome is CircuitOpen || outcome is Rejected,
        recording.settles(policy, event, outcome),
    ensures
        recording.applied(outbox, event.id) == outbox,
{
}

/// Failures lose nothing: a live event whose send failed stays live, with one
/// attempt more and the failure's truncated diagnostic.
pub proof fn failures_lose_nothing(
    recording: Recording,
    policy: BackoffPolicy,
    outbox: Outbox,
    id: u128,
    outcome: SendOutcome,
)
    requires
        outbox.wf(),
        outbox.live.contains_key(id),
        outcome.diagnostic() is Some,
        recording.settles(policy, outbox.live[id].event, outcome),
    ensures
        ({
            let after = recording.applied(outbox, id);
            &&& after.live.contains_key(id)
            &&& after.live[id].event.attempts == attempts_after(outbox.live[id].event.attempts)
            &&& after.live[id].event.last_error == Some(
                crate::store::truncated(outcome.diagnostic()->0),
            )
            &&& after.live[id].event.payload == outbox.live[id].event.payload
        }),
{
}

/// Retries are bounded: within its budget a failed event is retried no
/// earlier than now and no later than the backoff bound from now, in whole
/// milliseconds; times saturate.
pub proof fn retries_are_bounded(
    policy: BackoffPolicy,
    attempts: u32,
    delay: nat,
    now_ms: u64,
)
    requires
        attempts < policy.max_attempts,
        delay <= policy.bound(attempts),
    ensures
        now_ms <= retry_time(policy, attempts, delay, now_ms),
        retry_time(policy, attempts, delay, now_ms) <= now_ms + policy.bound(attempts) / 1_000_000,
{
}

/// What is recorded of a failed send within the budget is its diagnostic and a
/// retry no earlier than the clock's time and no later than the backoff bound
/// after it, in whole milliseconds.
pub proof fn failed_sends_are_retried_within_the_bound(
    recording: Recording,
    policy: BackoffPolicy,
    event: Envelope,
    outcome: SendOutcome,
)
    requires
        recording.settles(policy, event, outcome),
        outcome.diagnostic() is Some,
        attempts_after(event.attempts) < policy.max_attempts,
    ensures
        recording matches Recording::Failed { error, retry_at_ms } && error@
            == outcome.diagnostic()->0 && exists|now: Option<Delay>|
            {
                &&& crate::clock::clock_reading(now)
                &&& #[trigger] crate::clock::epoch_millis(now) <= retry_at_ms
                &&& retry_at_ms <= crate::clock::epoch_millis(now) + policy.bound(
                    attempts_after(event.attempts),
                ) / 1_000_000
            },
{
    let (reading, now) = choose|reading: Option<Delay>, now: Option<Delay>|
        {
            &&& #[trigger] recording.settles_at(policy, event, outcome, reading, now)
            &&& crate::clock::clock_reading(reading)
            &&& crate::clock::clock_reading(now)
            &&& policy.jittered(
                attempts_after(event.attempts),
                crate::backoff::seed_value(event.id, reading),
            ) <= policy.bound(attempts_after(event.attempts))
        };
    retries_are_bounded(
        policy,
        attempts_after(event.attempts),
        policy.jittered(
            attempts_after(event.attempts),
            crate::backoff::seed_value(event.id, reading),
        ),
        crate::clock::epoch_millis(now),
    );
}

/// What is recorded of a send, from its outcome, the drawn delay and the time: a
/// delivery, or nothing for a pause, or a failure with its diagnostic. Within the
/// budget the retry comes exactly the whole milliseconds of the delay after now,
/// and at the end of time where that is later; the failure that uses up the budget
/// parks.
pub proof fn recordings_follow_the_outcome(
    recording: Recording,
    policy: BackoffPolicy,
    attempts: u32,
    outcome: SendOutcome,
    delay: nat,
    now_ms: u64,
)
    requires
        recording.follows(policy, attempts, outcome, delay, now_ms),
    ensures
        outcome is Delivered <==> recording is Dispatched,
        outcome is CircuitOpen || outcome is Rejected <==> recording is LeaveDue,
        outcome is Failure || outcome is Other <==> recording is Failed,
        recording matches Recording::Failed { error, retry_at_ms } ==> {
            &&& outcome matches SendOutcome::Failure(DispatchError::Delivery(message)) ==> error@
                == "delivery failed: "@ + message@
            &&& outcome matches SendOutcome::Other(message) ==> error@ == message@
            &&& attempts + 1 >= policy.max_attempts ==> retry_at_ms == u64::MAX
            &&& attempts + 1 < policy.max_attempts && now_ms + delay / 1_000_000 <= u64::MAX
                ==> retry_at_ms - now_ms == delay / 1_000_000
            &&& attempts + 1 < policy.max_attempts && now_ms + delay / 1_000_000 > u64::MAX
                ==> retry_at_ms == u64::MAX
        },
{
}

/// A failed send within its budget is retried after exactly the drawn delay: the
/// draw from the backoff's window, in whole milliseconds, counted from the clock.
pub proof fn failed_sends_are_retried_after_the_draw(
    recording: Recording,
    policy: BackoffPolicy,
    event: Envelope,
    outcome: SendOutcome,
    reading: Option<Delay>,
    now: Option<Delay>,
)
    requires
        recording.settles_at(policy, event, outcome, reading, now),
        outcome is Failure || outcome is Other,
        event.attempts + 1 < policy.max_attempts,
    ensures
        ({
            let window = policy.bound((event.attempts + 1) as u32);
            let seed = crate::backoff::seed_value(event.id, reading);
            let delay = if window == 0 {
                0
            } else {
                crate::backoff::drawn_nanos(seed, window, usize::BITS)
            };
            let at = match now {
                None => 0,
                Some(span) => if span@ / 1_000_000 <= u64::MAX {
                    span@ / 1_000_000
                } else {
                    u64::MAX as nat
                },
            };
            recording matches Recording::Failed { error, retry_at_ms } && if at + delay / 1_000_000
                <= u64::MAX {
                retry_at_ms - at == delay / 1_000_000
            } else {
                retry_at_ms == u64::MAX
            }
        }),
{
    crate::backoff::jitter_is_the_draw(
        policy,
        (event.attempts + 1) as u32,
        crate::backoff::seed_value(event.id, reading),
    );
}

/// What is recorded of a send, whatever the clock says: a delivery, nothing for a
/// pause, and for a failure its diagnostic with a retry that parks the event where
/// the budget is used up, and else comes after a draw from the backoff's window,
/// seeded by one reading of the clock and counted from another.
pub proof fn sends_are_settled_by_the_clock_and_the_draw(
    recording: Recording,
    policy: BackoffPolicy,
    event: Envelope,
    outcome: SendOutcome,
)
    requires
        recording.settles(policy, event, outcome),
    ensures
        outcome is Delivered <==> recording is Dispatched,
        outcome is CircuitOpen || outcome is Rejected <==> recording is LeaveDue,
        recording matches Recording::Failed { error, retry_at_ms } ==> {
            &&& outcome matches SendOutcome::Failure(DispatchError::Delivery(message)) ==> error@
                == "delivery failed: "@ + message@
            &&& outcome matches SendOutcome::Other(message) ==> error@ == message@
            &&& event.attempts + 1 >= policy.max_attempts ==> retry_at_ms == u64::MAX
            &&& event.attempts + 1 < policy.max_attempts ==> exists|
                reading: Option<Delay>,
                now: Option<Delay>,
            |
                {
                    let window = policy.bound((event.attempts + 1) as u32);
                    let delay = if window == 0 {
                        0
                    } else {
                        crate::backoff::drawn_nanos(
                            crate::backoff::seed_value(event.id, reading),
                            window,
                            usize::BITS,
                        )
                    };
                    let at = match now {
                        None => 0,
                        Some(span) => if span@ / 1_000_000 <= u64::MAX {
                            span@ / 1_000_000
                        } else {
                            u64::MAX as nat
                        },
                    };
                    &&& #[trigger] crate::clock::clock_reading(reading)
                    &&& #[trigger] crate::clock::clock_reading(now)
                    &&& delay <= window
                    &&& retry_at_ms == if at + delay / 1_000_000 <= u64::MAX {
                        at + delay / 1_000_000
                    } else {
                        u64::MAX as nat
                    }
                }
        },
{
    let (reading, now) = choose|reading: Option<Delay>, now: Option<Delay>|
        {
            &&& #[trigger] recording.settles_at(policy, event, outcome, reading, now)
            &&& outcome.diagnostic() is Some && attempts_after(event.attempts)
                < policy.max_attempts ==> {
                &&& crate::clock::clock_reading(reading)
                &&& crate::clock::clock_reading(now)
                &&& policy.jittered(
                    attempts_after(event.attempts),
                    crate::backoff::seed_value(event.id, reading),
                ) <= policy.bound(attempts_after(event.attempts))
            }
        };
    recordings_follow_the_outcome(
        recording,
        policy,
        event.attempts,
        outcome,
        policy.jittered(
            attempts_after(event.attempts),
            crate::backoff::seed_value(event.id, reading),
        ),
        crate::clock::epoch_millis(now),
    );
    if recording is Failed && event.attempts + 1 < policy.max_attempts {
        failed_sends_are_retried_after_the_draw(recording, policy, event, outcome, reading, now);
        assert(crate::clock::clock_reading(reading) && crate::clock::clock_reading(now));
    }
}

/// Exhaustion parks: the failure that uses up the budget parks the event,
/// whatever the clock says.
pub proof fn exhaustion_parks(policy: BackoffPolicy, attempts: u32, delay: nat, now_ms: u64)
    requires
        attempts >= policy.max_attempts,
    ensures
        retry_time(policy, attempts, delay, now_ms) == NEVER,
{
}

/// A failed send, as far as the schedule is concerned.
pub struct FailedSend {
    /// The diagnostic.
    pub error: Seq<char>,
    /// The jittered delay, in nanoseconds.
    pub delay: nat,
    /// The time of the failure, unix milliseconds.
    pub now_ms: u64,
}

/// The store after an event's sends have failed, one after the other.
pub open spec fn after_failures(
    outbox: Outbox,
    policy: BackoffPolicy,
    id: u128,
    sends: Seq<FailedSend>,
) -> Outbox
    decreases sends.len(),
{
    if sends.len() == 0 {
        outbox
    } else {
        let before = after_failures(outbox, policy, id, sends.drop_last());
        let send = sends.last();
        before.mark_failed(
            id,
            send.error,
            retry_time(
                policy,
                attempts_after(before.live[id].event.attempts),
                send.delay,
                send.now_ms,
            ),
        )
    }
}

/// The retry budget: a fresh event is parked by its `max_attempts`-th failure
/// and, unless the clock saturates, by none before it.
pub proof fn budget_is_max_attempts(
    outbox: Outbox,
    policy: BackoffPolicy,
    id: u128,
    sends: Seq<FailedSend>,
)
    requires
        outbox.live.contains_key(id),
        outbox.live[id].event.attempts == 0,
        1 <= sends.len() <= policy.max_attempts,
    ensures
        after_failures(outbox, policy, id, sends).live.contains_key(id),
        after_failures(outbox, policy, id, sends).live[id].event.attempts == sends.len(),
        sends.len() == policy.max_attempts ==> after_failures(
            outbox,
            policy,
            id,
            sends,
        ).parked().contains(id),
        sends.len() < policy.max_attempts && sends.last().now_ms + sends.last().delay / 1_000_000
            < u64::MAX ==> after_failures(outbox, policy, id, sends).pending().contains(id),
    decreases sends.len(),
{
    reveal_with_fuel(after_failures, 2);
    let earlier = sends.drop_last();
    if earlier.len() > 0 {
        budget_is_max_attempts(outbox, policy, id, earlier);
    }
}

/// Whether a breaker can be made is decided by its window and its first wait. A
/// fixed wait always serves; a growing one does where its longest wait stays below
/// `2^64` seconds as a binary64 number, or its first one does and the growth is no
/// signalling NaN; and a jitter must be a number.
pub proof fn first_waits_decide_breakers(
    window: u32,
    wait: (u64, u32),
    initial: (u64, u32),
    max: (u64, u32),
    factor_bits: u64,
    jitter_bits: u64,
)
    requires
        window <= isize::MAX,
    ensures
        (BreakerShape { window, wait: (BreakerWait::Fixed { wait }) }).constructible(),
        ({
            let growing = BreakerShape {
                window,
                wait: (BreakerWait::Exponential { initial, max, factor_bits }),
            };
            let jittered = BreakerShape {
                window,
                wait: (BreakerWait::ExponentialJitter { initial, max, factor_bits, jitter_bits }),
            };
            &&& max.0 < 0xffff_ffff_ffff_fc00 ==> growing.constructible()
            &&& max.0 >= 0xffff_ffff_ffff_fc00 && initial.0 >= 0xffff_ffff_ffff_fc00
                ==> !growing.constructible()
            &&& max.0 >= 0xffff_ffff_ffff_fc00 && initial.0 < 0xffff_ffff_ffff_fc00 ==> (
            growing.constructible() <==> !(0x7ff0_0000_0000_0000 < factor_bits
                % 0x8000_0000_0000_0000 < 0x7ff8_0000_0000_0000))
            &&& jittered.constructible() <==> growing.constructible() && jitter_bits
                % 0x8000_0000_0000_0000 <= 0x7ff0_0000_0000_0000
        }),
{
}

/// Shapes, copies, standard configurations and breakers are those that the outside
/// functions gave.
pub(crate) proof fn breakers_are_the_outside_ones(
    config: CircuitBreakerConfig,
    copy: CircuitBreakerConfig,
    shape: BreakerShape,
    breaker: CircuitBreaker,
)
    ensures
        shaped(config, shape) ==> call_ensures(shape_of, (&config,), shape),
        is_standard(config) ==> call_ensures(standard_config, (), config),
        is_copy(config, copy) ==> call_ensures(copied_config, (&config,), copy),
        made_with(breaker, config) ==> exists|made_of: CircuitBreakerConfig|
            call_ensures(copied_config, (&config,), made_of) && #[trigger] call_ensures(
                new_breaker,
                (made_of,),
                breaker,
            ),
        constructible(config) ==> exists|known: BreakerShape|
            #[trigger] call_ensures(shape_of, (&config,), known) && known.constructible(),
{
    if made_with(breaker, config) {
        let made_of = choose|made_of: CircuitBreakerConfig| #[trigger]
            is_copy(config, made_of) && call_ensures(new_breaker, (made_of,), breaker);
        assert(call_ensures(new_breaker, (made_of,), breaker));
    }
    if constructible(config) {
        let known = choose|known: BreakerShape| #[trigger]
            shaped(config, known) && known.constructible();
        assert(call_ensures(shape_of, (&config,), known));
    }
}

/// The bounds of a loop: dispatches are in flight exactly while it drains, no more
/// than permitted, and events wait only while every permit is taken; both limits are
/// at least one.
pub proof fn loops_keep_within_their_bounds(state: LoopState)
    requires
        state.wf(),
    ensures
        state.phase is Draining <==> state.in_flight >= 1,
        state.in_flight <= state.permits,
        state.waiting.len() > 0 ==> state.in_flight == state.permits,
        state.batch_limit >= 1,
        state.permits >= 1,
{
}

} // verus!
