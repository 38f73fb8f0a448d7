//! The dispatcher's decisions, driven against the in-process store and the
//! real circuit breaker.
use breaker::{BackoffStrategy, CircuitBreakerConfig, CircuitBreakerError, State};
use futures::executor::block_on;
use outbox_kit::store::Outbox;
use outbox_kit::{
    now_millis, BackoffPolicy, BreakerShape, BreakerWait, Delay, DispatchError, Dispatcher, DispatcherConfig, EventId,
    GrowthFactor, LoopAction, LoopEvent, MemoryStore, OutboxEvent, OutboxStore, Recording, RunLoop,
    SendOutcome, StoreError, DEFAULT_BATCH_SIZE, DEFAULT_CONCURRENCY, DEFAULT_POLL_INTERVAL, NEVER,
};
use std::time::{Duration, Instant};

fn tiny_breaker(cooldown: Duration) -> CircuitBreakerConfig {
    CircuitBreakerConfig::builder()
        .consecutive_failures(3)
        .failure_rate_threshold(1.0)
        .sliding_window_size(10)
        .backoff(BackoffStrategy::Fixed(cooldown))
        .half_open_max_calls(1)
        .success_threshold(1)
        .build()
}

fn never_trip_breaker() -> CircuitBreakerConfig {
    CircuitBreakerConfig::builder()
        .consecutive_failures(u32::MAX)
        .failure_rate_threshold(0.0)
        .backoff(BackoffStrategy::Fixed(Duration::from_millis(50)))
        .build()
}

fn due_event() -> OutboxEvent {
    let mut e = OutboxEvent::new("orders", b"payload").unwrap();
    e.created_at = 0; // due immediately
    e
}

fn cfg() -> DispatcherConfig {
    DispatcherConfig {
        poll_interval: Delay::from_millis(20),
        batch_size: 10,
        concurrency: 4,
        backoff: BackoffPolicy {
            base: Delay::from_millis(10),
            factor: GrowthFactor::from_bits(2.0_f64.to_bits()),
            cap: Delay::from_millis(50),
            max_attempts: 3,
        },
        breaker: tiny_breaker(Duration::from_millis(150)),
    }
}

/// Headroom above the breaker's trip threshold, so a half-open probe can still
/// be admitted before the event parks.
fn cfg_with_probe_headroom() -> DispatcherConfig {
    let mut config = cfg();
    config.backoff.max_attempts = 5;
    config
}

/// Sends one event through the breaker.
fn send(
    dispatcher: &Dispatcher,
    event: &OutboxEvent,
    sender: &mut dyn FnMut(&OutboxEvent) -> Result<(), DispatchError>,
) -> SendOutcome {
    let call = dispatcher.circuit_breaker().call(|| {
        let outcome = sender(event);
        async move { outcome }
    });
    match block_on(call) {
        Ok(()) => SendOutcome::Delivered,
        Err(CircuitBreakerError::CircuitOpen) => SendOutcome::CircuitOpen,
        Err(CircuitBreakerError::Rejected) => SendOutcome::Rejected,
        Err(CircuitBreakerError::Failure(e)) => SendOutcome::Failure(e),
    }
}

/// One poll: fetch, dispatch each event, drain.
fn poll<S: OutboxStore>(
    dispatcher: &Dispatcher,
    run: &mut RunLoop,
    store: &mut S,
    sender: &mut dyn FnMut(&OutboxEvent) -> Result<(), DispatchError>,
) {
    let mut action = run.step(LoopEvent::Tick { now_ms: now_millis() });
    loop {
        match action {
            LoopAction::Fetch { limit, now_ms } => {
                let answer = store.fetch_due(limit, now_ms);
                action = run.step(LoopEvent::Fetched(answer));
            }
            LoopAction::Start(events) => {
                for event in &events {
                    let outcome = send(dispatcher, event, sender);
                    dispatcher.process(store, event, outcome);
                }
                action = run.step(LoopEvent::Finished);
            }
            LoopAction::Join => action = run.step(LoopEvent::Finished),
            LoopAction::Wait => return,
            LoopAction::Return => unreachable!("no shutdown was signalled"),
        }
    }
}

#[test]
fn success_marks_dispatched() {
    let mut store = MemoryStore::new();
    let e = due_event();
    store.append(&e).unwrap();
    let dispatcher = Dispatcher::with_config(cfg());
    let mut run = dispatcher.run();
    poll(&dispatcher, &mut run, &mut store, &mut |_| Ok(()));
    assert_eq!(store.pending_count().unwrap(), 0);
    assert_eq!(store.parked_count().unwrap(), 0);
    assert_eq!(store.len(), 1, "the dispatched id is kept");
    assert!(matches!(run.step(LoopEvent::Shutdown(true)), LoopAction::Return));
}

#[test]
fn failure_increments_attempts_then_parks() {
    let mut store = MemoryStore::new();
    let e = due_event();
    store.append(&e).unwrap();
    let mut calls = 0_u32;
    let dispatcher = Dispatcher::with_config(cfg());
    let mut run = dispatcher.run();
    // Parked after max_attempts = 3 failures.
    let deadline = Instant::now() + Duration::from_secs(5);
    while store.parked_count().unwrap() == 0 {
        assert!(Instant::now() < deadline, "event was never parked");
        poll(&dispatcher, &mut run, &mut store, &mut |_| {
            calls += 1;
            Err(DispatchError::Delivery("down".into()))
        });
    }
    assert_eq!(calls, 3, "exactly max_attempts sends");
    assert_eq!(store.pending_count().unwrap(), 0);
    let due = store.fetch_due(10, u64::MAX).unwrap();
    assert!(due.is_empty(), "parked events are not fetched");
    let parked = store.get(&e.id).unwrap();
    assert_eq!(parked.attempts, 3);
    assert_eq!(parked.last_error.as_deref(), Some("delivery failed: down"));
}

#[test]
fn breaker_opens_then_half_opens_after_cooldown() {
    let mut store = MemoryStore::new();
    let e = due_event();
    store.append(&e).unwrap();

    // Fails the first 3 sends, then succeeds: exactly enough to trip the tiny
    // breaker (3 consecutive failures) and then pass one half-open probe.
    let mut calls = 0_u32;
    let mut sender = |_: &OutboxEvent| {
        let n = calls;
        calls += 1;
        if n < 3 {
            Err(DispatchError::Delivery(format!("failure {n}")))
        } else {
            Ok(())
        }
    };
    let dispatcher = Dispatcher::with_config(cfg_with_probe_headroom());
    let mut run = dispatcher.run();

    // Three failures trip the breaker.
    let deadline = Instant::now() + Duration::from_secs(5);
    while dispatcher.breaker_state() != State::Open {
        assert!(Instant::now() < deadline, "breaker never opened");
        poll(&dispatcher, &mut run, &mut store, &mut sender);
    }
    assert_eq!(
        dispatcher.breaker_metrics().total_failures,
        3,
        "the trip must be the third consecutive failure"
    );

    // After the fixed 150 ms open wait the breaker half-opens, a probe is
    // admitted and succeeds, and the circuit closes.
    let deadline = Instant::now() + Duration::from_secs(5);
    while store.pending_count().unwrap() > 0 {
        assert!(
            Instant::now() < deadline,
            "half-open probe never delivered the event"
        );
        poll(&dispatcher, &mut run, &mut store, &mut sender);
    }
    assert_eq!(
        dispatcher.breaker_state(),
        State::Closed,
        "a successful probe must close the circuit"
    );
    assert!(
        (3..=5).contains(&calls),
        "sender must run exactly the 3 failures + one probe, got {calls}"
    );
}

#[test]
fn open_breaker_does_not_consume_attempts() {
    let mut store = MemoryStore::new();
    let e = due_event();
    store.append(&e).unwrap();

    // Always fails; max_attempts=3 and the breaker trips on 3 consecutive
    // failures: the third failure parks the event and opens the breaker.
    let mut calls = 0_usize;
    let mut config = cfg();
    config.breaker = tiny_breaker(Duration::from_millis(400));
    let dispatcher = Dispatcher::with_config(config);
    let mut run = dispatcher.run();
    let deadline = Instant::now() + Duration::from_secs(5);
    while store.parked_count().unwrap() < 1 {
        assert!(Instant::now() < deadline, "breaker never opened");
        poll(&dispatcher, &mut run, &mut store, &mut |_| {
            calls += 1;
            Err(DispatchError::Delivery("down".into()))
        });
    }
    assert_eq!(
        dispatcher.breaker_state(),
        State::Open,
        "the third consecutive failure must open the breaker"
    );

    // Re-arm the parked event as due while the breaker is still open.
    store.mark_failed(&e.id, "re-arm", now_millis()).unwrap();
    let rearmed = store.fetch_due(10, u64::MAX).unwrap();
    let attempts_on_rearm = rearmed.first().expect("re-armed event is due").attempts;

    // Polls fire, but the sender must NOT be invoked and the attempt budget
    // must NOT move.
    for _ in 0..20 {
        poll(&dispatcher, &mut run, &mut store, &mut |_| {
            panic!("an open breaker must pause dispatching entirely")
        });
    }
    assert_eq!(dispatcher.breaker_state(), State::Open);
    assert_eq!(calls, 3);
    let due = store.fetch_due(10, u64::MAX).unwrap();
    assert_eq!(due.len(), 1, "the event stays due while paused");
    assert_eq!(
        due.first().map(|ev| ev.attempts),
        Some(attempts_on_rearm),
        "paused dispatches must not consume attempt budget"
    );

    // After the cooldown a half-open probe is admitted, and fails (the sender
    // still fails), re-tripping the breaker.
    let deadline = Instant::now() + Duration::from_secs(5);
    while calls < 4 || dispatcher.breaker_state() != State::Open {
        assert!(Instant::now() < deadline, "probe never ran");
        poll(&dispatcher, &mut run, &mut store, &mut |_| {
            calls += 1;
            Err(DispatchError::Delivery("down".into()))
        });
    }
    assert_eq!(calls, 4, "exactly one half-open probe");
    assert_eq!(
        store.parked_count().unwrap(),
        1,
        "the failed probe re-parks the event (attempt budget exhausted)"
    );
}

#[test]
fn shutdown_is_idempotent_and_observable() {
    let mut dispatcher = Dispatcher::new();
    assert!(!dispatcher.is_shutting_down());
    dispatcher.shutdown();
    dispatcher.shutdown();
    assert!(dispatcher.is_shutting_down());
}

/// A store that always fails.
struct FailingStore;

impl OutboxStore for FailingStore {
    fn outbox(&self) -> Outbox {
        unreachable!("what a store holds is not asked for at run time")
    }
    fn append(&mut self, _: &OutboxEvent) -> Result<(), StoreError> {
        Err(StoreError::Backend("nope".into()))
    }
    fn fetch_due(&self, _: usize, _: u64) -> Result<Vec<OutboxEvent>, StoreError> {
        Err(StoreError::Backend("nope".into()))
    }
    fn mark_dispatched(&mut self, _: &EventId) -> Result<(), StoreError> {
        Err(StoreError::Backend("nope".into()))
    }
    fn mark_failed(&mut self, _: &EventId, _: &str, _: u64) -> Result<(), StoreError> {
        Err(StoreError::Backend("nope".into()))
    }
    fn pending_count(&self) -> Result<u64, StoreError> {
        Err(StoreError::Backend("nope".into()))
    }
    fn parked_count(&self) -> Result<u64, StoreError> {
        Err(StoreError::Backend("nope".into()))
    }
}

/// A store that writes down what it is told, and then fails.
struct RecordingStore {
    calls: Vec<String>,
}

impl OutboxStore for RecordingStore {
    fn outbox(&self) -> Outbox {
        unreachable!("what a store holds is not asked for at run time")
    }
    fn append(&mut self, event: &OutboxEvent) -> Result<(), StoreError> {
        self.calls.push(format!("append {}", event.id.to_string()));
        Err(StoreError::Backend("nope".into()))
    }
    fn fetch_due(&self, _: usize, _: u64) -> Result<Vec<OutboxEvent>, StoreError> {
        Err(StoreError::Backend("nope".into()))
    }
    fn mark_dispatched(&mut self, id: &EventId) -> Result<(), StoreError> {
        self.calls.push(format!("dispatched {}", id.to_string()));
        Err(StoreError::Backend("nope".into()))
    }
    fn mark_failed(&mut self, id: &EventId, error: &str, at: u64) -> Result<(), StoreError> {
        self.calls.push(format!("failed {} {error} {at}", id.to_string()));
        Err(StoreError::Backend("nope".into()))
    }
    fn pending_count(&self) -> Result<u64, StoreError> {
        Err(StoreError::Backend("nope".into()))
    }
    fn parked_count(&self) -> Result<u64, StoreError> {
        Err(StoreError::Backend("nope".into()))
    }
}

#[test]
fn store_errors_are_tolerated_between_ticks() {
    // The loop must keep ticking until shutdown.
    let dispatcher = Dispatcher::with_config(cfg());
    let mut run = dispatcher.run();
    for _ in 0..8 {
        poll(&dispatcher, &mut run, &mut FailingStore, &mut |_| Ok(()));
    }
    // Nor does a recording that the store refuses stop it.
    dispatcher.process(&mut FailingStore, &due_event(), SendOutcome::Delivered);
    dispatcher.process(&mut FailingStore, &due_event(), SendOutcome::Failure("down".into()));
    for _ in 0..2 {
        poll(&dispatcher, &mut run, &mut FailingStore, &mut |_| Ok(()));
    }
    assert!(matches!(run.step(LoopEvent::Shutdown(true)), LoopAction::Return));
}

#[test]
fn sender_receives_the_envelope_intact() {
    let mut store = MemoryStore::new();
    let mut e = due_event();
    e.headers.insert("trace".to_owned(), "t-1".to_owned());
    store.append(&e).unwrap();
    let mut seen: Vec<(String, String, Vec<u8>)> = Vec::new();
    let dispatcher = Dispatcher::with_config(cfg());
    let mut run = dispatcher.run();
    for _ in 0..3 {
        poll(&dispatcher, &mut run, &mut store, &mut |event| {
            seen.push((
                event.topic.clone(),
                event.headers.get("trace").cloned().unwrap_or_default(),
                event.payload.clone(),
            ));
            Ok(())
        });
    }
    assert_eq!(seen.len(), 1);
    let first = seen.first().expect("exactly one delivery");
    assert_eq!(first.0, "orders");
    assert_eq!(first.1, "t-1");
    assert_eq!(first.2, b"payload");
}

#[test]
fn dispatcher_parks_event_after_max_failures() {
    let mut store = MemoryStore::new();
    store.append(&due_event()).unwrap();
    let config = DispatcherConfig {
        poll_interval: Delay::from_millis(10),
        backoff: BackoffPolicy {
            base: Delay::from_millis(5),
            factor: GrowthFactor::from_bits(2.0_f64.to_bits()),
            cap: Delay::from_millis(20),
            max_attempts: 3,
        },
        // The breaker must not interfere: generous threshold.
        breaker: never_trip_breaker(),
        ..DispatcherConfig::default()
    };
    let dispatcher = Dispatcher::with_config(config);
    let mut run = dispatcher.run();
    let deadline = Instant::now() + Duration::from_secs(5);
    while store.parked_count().unwrap() < 1 {
        assert!(Instant::now() < deadline, "event never parked");
        poll(&dispatcher, &mut run, &mut store, &mut |_| {
            Err(DispatchError::Delivery("down".into()))
        });
    }
    assert_eq!(store.pending_count().unwrap(), 0);
    assert_eq!(store.parked_count().unwrap(), 1);
}

#[test]
fn dispatcher_breaker_opens_and_half_opens() {
    let mut store = MemoryStore::new();
    store.append(&due_event()).unwrap();
    let config = DispatcherConfig {
        poll_interval: Delay::from_millis(10),
        backoff: BackoffPolicy {
            base: Delay::from_millis(5),
            factor: GrowthFactor::from_bits(2.0_f64.to_bits()),
            cap: Delay::from_millis(20),
            max_attempts: 5,
        },
        breaker: tiny_breaker(Duration::from_millis(200)),
        ..DispatcherConfig::default()
    };
    let mut calls = 0_u32;
    let mut sender = |_: &OutboxEvent| {
        let n = calls;
        calls += 1;
        if n < 3 {
            Err(DispatchError::Delivery(format!("failure {n}")))
        } else {
            Ok(())
        }
    };
    let dispatcher = Dispatcher::with_config(config);
    let mut run = dispatcher.run();

    // 3 consecutive failures: Open.
    let deadline = Instant::now() + Duration::from_secs(5);
    while dispatcher.breaker_state() != State::Open {
        assert!(Instant::now() < deadline, "breaker never opened");
        poll(&dispatcher, &mut run, &mut store, &mut sender);
    }
    // Cooldown (200 ms) elapses, HalfOpen admits one probe, success, Closed,
    // event delivered.
    let deadline = Instant::now() + Duration::from_secs(5);
    while store.pending_count().unwrap() > 0 {
        assert!(Instant::now() < deadline, "half-open probe never delivered");
        poll(&dispatcher, &mut run, &mut store, &mut sender);
    }
    assert_eq!(dispatcher.breaker_state(), State::Closed);
    assert!((3..=5).contains(&calls), "unexpected send count {calls}");
}

/// Defaults match the documented constants.
#[test]
fn dispatcher_defaults_match_documentation() {
    let config = DispatcherConfig::default();
    assert_eq!(config.poll_interval, Delay::from_millis(DEFAULT_POLL_INTERVAL));
    assert_eq!(config.concurrency, DEFAULT_CONCURRENCY);
    assert_eq!(config.batch_size, 100);
    assert_eq!(DEFAULT_BATCH_SIZE, 100);
    assert_eq!(config.backoff, BackoffPolicy::default());
    assert_eq!(DEFAULT_POLL_INTERVAL, 500);
    assert_eq!(DEFAULT_CONCURRENCY, 16);
    let standard = CircuitBreakerConfig::standard();
    assert_eq!(format!("{:?}", config.breaker), format!("{standard:?}"));
}

#[test]
fn configured_breaker_is_the_one_used() {
    let dispatcher = Dispatcher::with_config(cfg());
    for _ in 0..3 {
        assert_eq!(dispatcher.breaker_state(), State::Closed);
        let _ = send(&dispatcher, &due_event(), &mut |_| Err("down".into()));
    }
    assert_eq!(dispatcher.breaker_state(), State::Open);
    // The default takes five failures in a row.
    let dispatcher = Dispatcher::new();
    for _ in 0..5 {
        assert_eq!(dispatcher.breaker_state(), State::Closed);
        let _ = send(&dispatcher, &due_event(), &mut |_| Err("down".into()));
    }
    assert_eq!(dispatcher.breaker_state(), State::Open);
    assert_eq!(dispatcher.breaker_metrics().total_failures, 5);
}

#[test]
fn outcomes_are_recorded_by_one_call() {
    let mut store = RecordingStore { calls: Vec::new() };
    let dispatcher = Dispatcher::with_config(cfg());
    let e = due_event();
    let mut last = due_event();
    last.attempts = u32::MAX;
    dispatcher.process(&mut store, &e, SendOutcome::CircuitOpen);
    dispatcher.process(&mut store, &e, SendOutcome::Rejected);
    assert!(store.calls.is_empty(), "a pause leaves the store alone");
    dispatcher.process(&mut store, &e, SendOutcome::Delivered);
    assert_eq!(store.calls, vec![format!("dispatched {}", e.id.to_string())]);
    dispatcher.process(&mut store, &last, SendOutcome::Failure("down".into()));
    assert_eq!(store.calls.len(), 2);
    assert_eq!(
        store.calls[1],
        format!("failed {} delivery failed: down {NEVER}", last.id.to_string())
    );
    let before = now_millis();
    dispatcher.process(&mut store, &e, SendOutcome::Other("timed out".into()));
    let after = now_millis();
    assert_eq!(store.calls.len(), 3);
    let prefix = format!("failed {} timed out ", e.id.to_string());
    let at: u64 = store.calls[2].strip_prefix(&prefix).unwrap().parse().unwrap();
    assert!(before <= at && at <= after + 10, "{at} left the bound");
}

fn with_backoff(backoff: BackoffStrategy) -> DispatcherConfig {
    let mut config = cfg();
    config.breaker = CircuitBreakerConfig::builder().backoff(backoff).build();
    config
}

#[test]
fn breakers_need_a_first_wait() {
    // Seconds from here on round up to 2^64 in floating point.
    let rounded_up = Duration::new(u64::MAX - 1023, 0);
    let longest = Duration::new(u64::MAX - 1024, 999_999_999);
    let minute = Duration::from_secs(60);
    // A NaN to the power of zero is one, unless it is signalling.
    let signalling = f64::from_bits(0x7ff0_0000_0000_0001);
    let growing = |initial, max, factor| {
        with_backoff(BackoffStrategy::Exponential {
            initial,
            max,
            factor,
        })
    };
    let jittered = |initial, max, jitter| {
        with_backoff(BackoffStrategy::ExponentialJitter {
            initial,
            max,
            factor: 2.0,
            jitter,
        })
    };
    for config in [
        DispatcherConfig::default(),
        cfg(),
        with_backoff(BackoffStrategy::Fixed(Duration::MAX)),
        growing(minute, minute, 2.0),
        growing(Duration::MAX, minute, 2.0),
        growing(minute, Duration::MAX, 2.0),
        growing(longest, longest, 2.0),
        growing(minute, longest, signalling),
        growing(minute, Duration::MAX, f64::NAN),
        jittered(minute, minute, 1.0),
        jittered(longest, Duration::MAX, f64::INFINITY),
        jittered(minute, minute, -1.0),
    ] {
        assert!(config.is_constructible(), "{config:?}");
        let dispatcher = Dispatcher::with_config(config.clone());
        assert_eq!(dispatcher.breaker_state(), State::Closed);
        assert!(config.clone().is_constructible());
    }
    for config in [
        growing(Duration::MAX, Duration::MAX, 2.0),
        growing(rounded_up, rounded_up, 2.0),
        growing(minute, rounded_up, signalling),
        growing(rounded_up, rounded_up, f64::NAN),
        jittered(minute, minute, f64::NAN),
        jittered(rounded_up, Duration::MAX, 0.5),
    ] {
        assert!(!config.is_constructible(), "{config:?}");
    }
}

#[test]
fn breaker_shapes_are_judged_by_their_values() {
    let shape = |wait| BreakerShape { window: 10, wait };
    assert!(shape(BreakerWait::Fixed { wait: (u64::MAX, 0) }).is_constructible());
    let growing = |initial, max, factor_bits: u64| {
        shape(BreakerWait::Exponential {
            initial: (initial, 7),
            max: (max, 999_999_999),
            factor_bits,
        })
    };
    let two = 2.0_f64.to_bits();
    assert!(growing(1, u64::MAX, two).is_constructible());
    for quiet in [0x7ff8_0000_0000_0000, 0xfff8_0000_0000_0001] {
        assert!(growing(1, u64::MAX, quiet).is_constructible());
    }
    for signalling in [0x7ff0_0000_0000_0001, 0xfff7_ffff_ffff_ffff] {
        assert!(growing(u64::MAX, 1, signalling).is_constructible());
        assert!(!growing(1, u64::MAX, signalling).is_constructible());
    }
    assert!(growing(1, u64::MAX, f64::INFINITY.to_bits()).is_constructible());
    assert!(!growing(u64::MAX, u64::MAX, two).is_constructible());
    let jittered = |jitter: f64| {
        shape(BreakerWait::ExponentialJitter {
            initial: (1, 0),
            max: (60, 0),
            factor_bits: 2.0_f64.to_bits(),
            jitter_bits: jitter.to_bits(),
        })
    };
    assert!(jittered(f64::INFINITY).is_constructible());
    assert!(!jittered(f64::NAN).is_constructible());
}

#[test]
fn settings_are_clamped_to_at_least_one() {
    let zeros = DispatcherConfig {
        poll_interval: Delay::new(0, 999_999),
        batch_size: 0,
        concurrency: 0,
        ..DispatcherConfig::default()
    };
    let dispatcher = Dispatcher::with_config(zeros.clone());
    assert_eq!(dispatcher.poll_interval(), Delay::from_millis(1));
    assert_eq!(dispatcher.batch_limit(), 1);
    assert_eq!(dispatcher.permits(), 1);
    let dispatcher = Dispatcher::with_config(cfg());
    assert_eq!(dispatcher.poll_interval(), Delay::from_millis(20));
    assert_eq!(dispatcher.batch_limit(), 10);
    assert_eq!(dispatcher.permits(), 4);
}

#[test]
fn decisions_follow_the_outcome() {
    let dispatcher = Dispatcher::with_config(cfg());
    let mut e = due_event();
    let delay = Delay::new(0, 7_999_999);
    assert_eq!(
        dispatcher.decide(&e, SendOutcome::Delivered, delay, 100),
        Recording::Dispatched
    );
    for paused in [SendOutcome::CircuitOpen, SendOutcome::Rejected] {
        assert_eq!(
            dispatcher.decide(&e, paused, delay, 100),
            Recording::LeaveDue
        );
    }
    assert_eq!(
        dispatcher.decide(&e, SendOutcome::Failure("boom".into()), delay, 100),
        Recording::Failed {
            error: "delivery failed: boom".into(),
            retry_at_ms: 107
        }
    );
    assert_eq!(
        dispatcher.decide(&e, SendOutcome::Other("timed out".into()), delay, 100),
        Recording::Failed {
            error: "timed out".into(),
            retry_at_ms: 107
        }
    );
    // Times saturate.
    assert_eq!(
        dispatcher.decide(&e, SendOutcome::Other("t".into()), Delay::from_secs(u64::MAX), 1),
        Recording::Failed {
            error: "t".into(),
            retry_at_ms: u64::MAX
        }
    );
    // The third failure exhausts the budget.
    e.attempts = 1;
    assert!(matches!(
        dispatcher.decide(&e, SendOutcome::Other("t".into()), delay, 100),
        Recording::Failed { retry_at_ms: 107, .. }
    ));
    for attempts in [2, 3, u32::MAX] {
        e.attempts = attempts;
        assert!(matches!(
            dispatcher.decide(&e, SendOutcome::Other("t".into()), delay, 100),
            Recording::Failed { retry_at_ms: NEVER, .. }
        ));
    }
}

#[test]
fn settled_retries_lie_within_the_bound() {
    let dispatcher = Dispatcher::with_config(cfg());
    let e = due_event();
    for _ in 0..200 {
        let before = now_millis();
        let recording = dispatcher.settle(&e, SendOutcome::Failure("boom".into()));
        let after = now_millis();
        match recording {
            Recording::Failed { error, retry_at_ms } => {
                assert_eq!(error, "delivery failed: boom");
                assert!(before <= retry_at_ms && retry_at_ms <= after + 10);
            }
            other => panic!("unexpected recording {other:?}"),
        }
    }
    assert_eq!(
        dispatcher.settle(&e, SendOutcome::Delivered),
        Recording::Dispatched
    );
}

#[test]
fn loop_drains_the_batch_before_the_next_poll() {
    let dispatcher = Dispatcher::with_config(cfg());
    let mut run = dispatcher.run();
    assert!(matches!(run.step(LoopEvent::Shutdown(false)), LoopAction::Wait));
    assert!(matches!(
        run.step(LoopEvent::Tick { now_ms: 5 }),
        LoopAction::Fetch { limit: 10, now_ms: 5 }
    ));
    assert!(!run.accepts(&LoopEvent::Tick { now_ms: 6 }));
    let batch = vec![due_event(), due_event(), due_event()];
    match run.step(LoopEvent::Fetched(Ok(batch))) {
        LoopAction::Start(events) => assert_eq!(events.len(), 3),
        other => panic!("unexpected action {other:?}"),
    }
    for _ in 0..2 {
        assert!(!run.accepts(&LoopEvent::Tick { now_ms: 6 }));
        assert!(!run.accepts(&LoopEvent::Shutdown(true)));
        assert!(matches!(run.step(LoopEvent::Finished), LoopAction::Join));
    }
    assert!(matches!(run.step(LoopEvent::Finished), LoopAction::Wait));
    assert!(run.accepts(&LoopEvent::Tick { now_ms: 6 }));
    // An empty batch and a store error both wait for the next tick.
    for answer in [Ok(Vec::new()), Err(StoreError::Backend("nope".into()))] {
        run.step(LoopEvent::Tick { now_ms: 7 });
        assert!(matches!(
            run.step(LoopEvent::Fetched(answer)),
            LoopAction::Wait
        ));
    }
    assert!(matches!(run.step(LoopEvent::Shutdown(true)), LoopAction::Return));
    for event in [
        LoopEvent::Tick { now_ms: 8 },
        LoopEvent::Shutdown(true),
        LoopEvent::Fetched(Ok(Vec::new())),
        LoopEvent::Finished,
    ] {
        assert!(!run.accepts(&event));
    }
}

#[test]
fn loop_keeps_within_its_permits_and_order() {
    let dispatcher = Dispatcher::with_config(cfg()); // four permits
    let mut run = dispatcher.run();
    run.step(LoopEvent::Tick { now_ms: 5 });
    let batch: Vec<OutboxEvent> = (0..10).map(|_| due_event()).collect();
    let expected: Vec<EventId> = batch.iter().map(|e| e.id).collect();
    let mut started: Vec<EventId> = Vec::new();
    let mut in_flight = 0_usize;
    let mut finished = 0_usize;
    let mut action = run.step(LoopEvent::Fetched(Ok(batch)));
    loop {
        match action {
            LoopAction::Start(events) => {
                in_flight += events.len();
                started.extend(events.iter().map(|e| e.id));
            }
            LoopAction::Join => {}
            LoopAction::Wait => break,
            other => panic!("unexpected action {other:?}"),
        }
        assert!(in_flight <= 4, "{in_flight} in flight");
        if started.len() < 10 {
            assert_eq!(in_flight, 4, "permits must not idle while events wait");
        }
        in_flight -= 1;
        finished += 1;
        action = run.step(LoopEvent::Finished);
    }
    assert_eq!(started, expected);
    assert_eq!((in_flight, finished), (0, 10));
}
