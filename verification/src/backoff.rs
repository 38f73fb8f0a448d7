//! Exponential backoff with full jitter, and attempt exhaustion.
use crate::clock::read_clock;
use crate::delay::Delay;
use crate::event_id::EventId;
use crate::growth::GrowthFactor;
use rand::rngs::SmallRng;
use rand::{RngExt, SeedableRng};
use std::collections::hash_map::DefaultHasher;
use std::hash::Hasher;
use std::time::Duration;
use vstd::arithmetic::div_mod::*;
use vstd::arithmetic::mul::*;
use vstd::arithmetic::power::*;
use vstd::arithmetic::power2::*;
use vstd::prelude::*;
use vstd::std_specs::hash::*;

verus! {

/// The sentinel `retry_at` that parks an event: pass it to `mark_failed` when
/// the retry budget is exhausted. Parked events are invisible to `fetch_due`
/// and `pending_count` and surface only in `parked_count`; they replay only
/// when an operator reschedules them.
pub const NEVER: u64 = u64::MAX;

/// Exponential backoff with full jitter for outbox retries.
///
/// After a failure the next attempt is scheduled somewhere in
/// `[0, exponential_delay(attempts)]`, where `exponential_delay` grows
/// geometrically from `base` by `factor` up to `cap`. Full jitter spreads the
/// retry storms that a fixed schedule would synchronize.
///
/// Each event's jitter is drawn with a seed made of the event's id and the
/// wall clock (`seed_for`): the id keeps concurrent events decorrelated, the
/// clock keeps one event's successive retries decorrelated. The seed is
/// therefore not reproducible across runs; the guarantee that matters is the
/// bound, which `exponential_delay` gives.
///
/// `max_attempts` bounds the retry budget: an event that has failed that many
/// times is parked at [`NEVER`] rather than rescheduled.
#[derive(Debug, PartialEq)]
pub struct BackoffPolicy {
    /// The un-jittered delay after the first failure. Default 1 s.
    pub base: Delay,
    /// Growth multiplier per additional failure; expected to be at least one
    /// (smaller values shrink the schedule). Default two.
    pub factor: GrowthFactor,
    /// Upper bound on the un-jittered delay. Default 10 minutes.
    pub cap: Delay,
    /// Failed attempts after which an event parks at [`NEVER`]. Default 12.
    pub max_attempts: u32,
}

impl Clone for BackoffPolicy {
    fn clone(&self) -> (r: BackoffPolicy)
        ensures
            r == *self,
    {
        BackoffPolicy {
            base: self.base,
            factor: self.factor,
            cap: self.cap,
            max_attempts: self.max_attempts,
        }
    }
}

impl Default for BackoffPolicy {
    fn default() -> (r: BackoffPolicy)
        ensures
            r.base@ == 1_000_000_000,
            r.factor@ == 0x4000_0000_0000_0000,
            r.cap@ == 600_000_000_000,
            r.max_attempts == 12,
    {
        BackoffPolicy {
            base: Delay::from_secs(1),
            factor: GrowthFactor::from_bits(0x4000_0000_0000_0000),
            cap: Delay::from_secs(600),
            max_attempts: 12,
        }
    }
}

/// One step of the schedule, in nanoseconds: the delay is multiplied by the
/// factor, until it reaches the cap or leaves the range of binary64 numbers.
pub open spec fn grown(factor: GrowthFactor, delay: nat, cap: nat) -> nat {
    if delay >= cap {
        cap
    } else {
        match factor.times(delay) {
            None => cap,
            Some(nanos) => if nanos >= cap {
                cap
            } else {
                nanos
            },
        }
    }
}

impl BackoffPolicy {
    /// The delay `steps` growth steps after the first failure, in nanoseconds
    /// and before the final cap.
    pub open spec fn after(self, steps: nat) -> nat
        decreases steps,
    {
        if steps == 0 {
            self.base@
        } else {
            grown(self.factor, self.after((steps - 1) as nat), self.cap@)
        }
    }

    /// The delay bound after `attempt` failures, in nanoseconds.
    pub open spec fn bound(self, attempt: u32) -> nat {
        let delay = self.after(if attempt <= 1 {
            0
        } else {
            (attempt - 1) as nat
        });
        if delay <= self.cap@ {
            delay
        } else {
            self.cap@
        }
    }

    /// The jittered delay after `attempt` failures, in nanoseconds: nothing
    /// below a zero bound, a draw below any other.
    pub open spec fn jittered(self, attempt: u32, seed: u64) -> nat {
        if self.bound(attempt) == 0 {
            0
        } else {
            drawn_nanos(seed, self.bound(attempt), usize::BITS)
        }
    }

    /// The deterministic, un-jittered delay after `attempt` failures:
    /// `base * factor^(attempt - 1)`, capped at `cap` (`attempt` 0 and 1 both
    /// yield `base`, capped). A multiplication that does not give a whole number
    /// of nanoseconds is rounded as one of binary64 numbers, and truncated.
    #[must_use]
    pub fn exponential_delay(&self, attempt: u32) -> (r: Delay)
        ensures
            r@ == self.bound(attempt),
            r@ <= self.cap@,
    {
        let mut delay: Delay = self.base;
        let steps: u32 = if attempt <= 1 {
            0
        } else {
            attempt - 1
        };
        let mut i: u32 = 0;
        while i < steps
            invariant
                i <= steps,
                steps == if attempt <= 1 {
                    0
                } else {
                    attempt - 1
                },
                delay@ == self.after(i as nat),
            decreases steps - i,
        {
            if delay >= self.cap {
                proof {
                    lemma_stays_capped(*self, i as nat, steps as nat);
                }
                return self.cap;
            }
            delay = self.grow(delay);
            i = i + 1;
        }
        if delay <= self.cap {
            delay
        } else {
            self.cap
        }
    }

    /// One growth step.
    fn grow(&self, delay: Delay) -> (r: Delay)
        requires
            delay@ < self.cap@,
        ensures
            r@ == grown(self.factor, delay@, self.cap@),
    {
        match self.factor.scale(delay.as_nanos()) {
            None => self.cap,
            Some(nanos) => {
                if nanos >= self.cap.as_nanos() {
                    self.cap
                } else {
                    Delay::from_nanos(nanos)
                }
            },
        }
    }

    /// Full-jitter delay after `attempt` failures: uniform in
    /// `[0, exponential_delay(attempt)]`. Deterministic for a given
    /// `(attempt, seed)` pair; production callers derive the seed from the
    /// event id via [`BackoffPolicy::seed_for`].
    ///
    /// The zero end of the range is real: an immediate retry is occasionally
    /// the best move.
    #[must_use]
    pub fn retry_delay_seeded(&self, attempt: u32, seed: u64) -> (r: Delay)
        ensures
            r@ == self.jittered(attempt, seed),
            r@ <= self.bound(attempt),
            self.bound(attempt) == 0 ==> r@ == 0,
            self.bound(attempt) > 0 ==> r@ == drawn_nanos(seed, self.bound(attempt), usize::BITS),
    {
        let bound: Delay = self.exponential_delay(attempt);
        if bound.is_zero() {
            return Delay::zero();
        }
        let (secs, nanos) = draw_delay(seed, bound.as_secs(), bound.subsec_nanos());
        Delay::new(secs, nanos)
    }

    /// Full-jitter delay after `attempt` failures for a specific event,
    /// jittered by a seed derived from `id` and the wall clock.
    #[must_use]
    pub fn retry_delay(&self, attempt: u32, id: EventId) -> (r: Delay)
        ensures
            r@ <= self.bound(attempt),
            exists|reading: Option<Delay>|
                {
                    &&& crate::clock::clock_reading(reading)
                    &&& r@ == self.jittered(attempt, #[trigger] seed_value(id@, reading))
                    &&& self.bound(attempt) > 0 ==> r@ == drawn_nanos(
                        seed_value(id@, reading),
                        self.bound(attempt),
                        usize::BITS,
                    )
                },
    {
        self.retry_delay_seeded(attempt, self.seed_for(id))
    }

    /// Mix the event id with the current wall clock into a seed, decorrelated
    /// across events and across retries of one event.
    #[must_use]
    pub fn seed_for(&self, id: EventId) -> (r: u64)
        ensures
            exists|reading: Option<Delay>|
                crate::clock::clock_reading(reading) && r == #[trigger] seed_value(id@, reading),
    {
        let reading: Option<Delay> = read_clock();
        seed_at(id, reading)
    }

    /// Whether the retry budget is exhausted at `attempts` failures: the
    /// dispatcher parks the event instead of rescheduling it.
    #[must_use]
    pub fn is_exhausted(&self, attempts: u32) -> (r: bool)
        ensures
            r == (attempts >= self.max_attempts),
    {
        attempts >= self.max_attempts
    }
}

/// What a small generator, seeded with `seed`, first draws from the spans of
/// zero to `bound` nanoseconds, both included. The generator differs between
/// machine word sizes.
pub uninterp spec fn drawn_nanos(seed: u64, bound: nat, word_bits: u32) -> nat;

/// Calls `rand::SeedableRng::seed_from_u64` of `rand::rngs::SmallRng` and, on
/// the generator, `rand::RngExt::random_range` over the spans from zero to the
/// given seconds and nanoseconds: the span drawn is the same for the same
/// seed, range and word size, and is no longer than the range allows. That
/// every span of the range is as likely as any other is not stated.
#[verifier::external_body]
fn draw_delay(seed: u64, secs: u64, nanos: u32) -> (r: (u64, u32))
    requires
        nanos < 1_000_000_000,
    ensures
        r.1 < 1_000_000_000,
        r.0 * 1_000_000_000 + r.1 == drawn_nanos(
            seed,
            (secs * 1_000_000_000 + nanos) as nat,
            usize::BITS,
        ),
        r.0 * 1_000_000_000 + r.1 <= secs * 1_000_000_000 + nanos,
{
    let mut rng = SmallRng::seed_from_u64(seed);
    let drawn = rng.random_range(Duration::ZERO..=Duration::new(secs, nanos));
    (drawn.as_secs(), drawn.subsec_nanos())
}

/// The `SplitMix64` finalizer of `x`.
pub open spec fn mixed(x: u64) -> u64 {
    let a = x.wrapping_add(0x9E37_79B9_7F4A_7C15);
    let b = (a ^ (a >> 30)).wrapping_mul(0xBF58_476D_1CE4_E5B9);
    let c = (b ^ (b >> 27)).wrapping_mul(0x94D0_49BB_1331_11EB);
    c ^ (c >> 31)
}

/// The `SplitMix64` finalizer: a cheap, well-mixed scramble for seed
/// derivation (not a generator by itself).
pub fn mix64(x: u64) -> (r: u64)
    ensures
        r == mixed(x),
{
    let a: u64 = x.wrapping_add(0x9E37_79B9_7F4A_7C15);
    let b: u64 = (a ^ (a >> 30)).wrapping_mul(0xBF58_476D_1CE4_E5B9);
    let c: u64 = (b ^ (b >> 27)).wrapping_mul(0x94D0_49BB_1331_11EB);
    c ^ (c >> 31)
}

/// The sixteen bytes of a 128-bit number, most significant first.
pub open spec fn octets(value: u128) -> Seq<u8> {
    Seq::new(16, |i: int| #[verifier::truncate] ((value >> ((120 - 8 * i) as u32)) as u8))
}

/// The hash of an event id: one write of its bytes to the default hasher.
pub open spec fn id_hash(id: u128) -> u64 {
    DefaultHasher::spec_finish(seq![octets(id)])
}

/// What the clock contributes to a seed.
pub open spec fn clock_term(reading: Option<Delay>) -> u64 {
    match reading {
        None => 0,
        Some(span) => (span@ % 1_000_000_000) as u64 ^ (span@ / 1_000_000_000) as u64,
    }
}

/// A hash with its halves swapped, scrambled together with a clock term.
pub open spec fn seed_of(hash: u64, clock: u64) -> u64 {
    mixed(((hash << 32) | (hash >> 32)) ^ mixed(clock))
}

/// The jitter seed of an event at a clock reading.
pub open spec fn seed_value(id: u128, reading: Option<Delay>) -> u64 {
    seed_of(id_hash(id), clock_term(reading))
}

/// The sixteen bytes of an id, most significant first.
fn id_octets(id: EventId) -> (r: Vec<u8>)
    ensures
        r@ == octets(id@),
{
    let value: u128 = id.as_uuid();
    let mut bytes: Vec<u8> = Vec::new();
    let mut i: u32 = 0;
    while i < 16
        invariant
            i <= 16,
            value == id@,
            bytes@ == octets(id@).take(i as int),
        decreases 16 - i,
    {
        bytes.push(#[verifier::truncate] ((value >> (120 - 8 * i)) as u8));
        i = i + 1;
    }
    assert(octets(id@).take(16) =~= octets(id@));
    bytes
}

/// The jitter seed of an event at a clock reading: the id's hash, halves
/// swapped, and the scrambled clock term, scrambled together.
pub fn seed_at(id: EventId, reading: Option<Delay>) -> (r: u64)
    ensures
        r == seed_value(id@, reading),
{
    let mut hasher = DefaultHasher::new();
    hasher.write(id_octets(id).as_slice());
    let hash: u64 = hasher.finish();
    let clock: u64 = match reading {
        None => 0,
        Some(span) => span.subsec_nanos() as u64 ^ span.as_secs(),
    };
    mix64(((hash << 32) | (hash >> 32)) ^ mix64(clock))
}

/// A schedule that has reached the cap stays there.
proof fn lemma_stays_capped(policy: BackoffPolicy, i: nat, j: nat)
    requires
        i < j,
        policy.after(i) >= policy.cap@,
    ensures
        policy.after(j) == policy.cap@,
    decreases j - i,
{
    if i + 1 < j {
        lemma_stays_capped(policy, i + 1, j);
    }
}

/// The schedule is monotonic: for a factor of at least one, the bound after more
/// failures is no smaller.
pub proof fn schedule_is_monotonic(policy: BackoffPolicy, fewer: u32, more: u32)
    requires
        policy.factor.at_least_one(),
        fewer <= more,
    ensures
        policy.bound(fewer) <= policy.bound(more),
    decreases more,
{
    if fewer < more && more >= 2 {
        schedule_is_monotonic(policy, fewer, (more - 1) as u32);
        policy.factor.lemma_times_grows(policy.after((more - 2) as nat));
    }
}

/// The schedule starts at the base, and no attempt counts as the first one.
pub proof fn schedule_starts_at_the_base(policy: BackoffPolicy)
    ensures
        policy.bound(0) == policy.bound(1),
        policy.bound(1) <= policy.base@,
        policy.bound(1) <= policy.cap@,
        policy.bound(1) == policy.base@ || policy.bound(1) == policy.cap@,
{
}

/// The schedule is geometric for every factor that is a number of zero or more,
/// whole or not: one more failure multiplies the bound by the factor, up to the
/// cap. A product that is a whole number of nanoseconds is exact; any other is hit
/// to within a nanosecond and one part in `2^53`. A bound that has reached the cap
/// stays there.
pub proof fn schedule_is_geometric(policy: BackoffPolicy, attempt: u32)
    requires
        policy.factor@ < 0x7ff0_0000_0000_0000,
        1 <= attempt < u32::MAX,
    ensures
        ({
            let field = policy.factor@ as nat / 0x10_0000_0000_0000;
            let fraction = policy.factor@ as nat % 0x10_0000_0000_0000;
            // The factor is `significand * 2^exponent`.
            let significand = if field == 0 {
                fraction
            } else {
                fraction + 0x10_0000_0000_0000
            };
            let exponent = if field == 0 {
                -1074
            } else {
                field - 1075
            };
            let product = policy.bound(attempt) * significand;
            let next = policy.bound((attempt + 1) as u32);
            let cap = policy.cap@;
            &&& next <= cap
            &&& policy.bound(attempt) == cap ==> next == cap
            &&& policy.bound(attempt) < cap ==> if exponent >= 0 {
                let whole = product * pow2(exponent as nat);
                next == whole || (next == cap && cap < whole)
            } else {
                let unit = pow2((-exponent) as nat);
                &&& product % unit == 0 ==> next * unit == product || (next == cap && cap * unit
                    < product)
                &&& next * unit * 0x20_0000_0000_0000 <= product * 0x20_0000_0000_0001
                &&& next == cap || (next + 1) * unit * 0x20_0000_0000_0000 > product
                    * 0x1f_ffff_ffff_ffff
            }
        }),
{
    let delay = policy.bound(attempt);
    let next = policy.bound((attempt + 1) as u32);
    let cap = policy.cap@;
    let factor = policy.factor;
    let whole = factor.magnitude(delay);
    crate::growth::factors_are_binary64(factor);
    factor.lemma_magnitude_is_the_product(delay);
    // What leaves the range of binary64 numbers is beyond every span.
    policy.cap.lemma_bounded();
    lemma2_to64();
    lemma_pow2_adds(64, 64);
    lemma_pow2_strictly_increases(128, 1024);
    assert(policy.after(attempt as nat) == grown(
        factor,
        policy.after((attempt - 1) as nat),
        cap,
    ));
    if delay < cap && factor.exponent() < 0 {
        let unit = pow2((-factor.exponent()) as nat);
        lemma_pow2_pos((-factor.exponent()) as nat);
        assert(next == whole || (next == cap && cap < whole));
        lemma_mul_inequality(next as int, whole as int, unit as int);
        if next < whole {
            lemma_mul_strict_inequality(next as int, whole as int, unit as int);
        }
    }
}

/// A factor that is no number, or an infinite one, takes the schedule to the cap
/// at once; a negative one to nothing, or to the cap where the product leaves the
/// range of binary64 numbers. A bound that has reached the cap stays there.
pub proof fn odd_factors_end_the_schedule(policy: BackoffPolicy, attempt: u32)
    requires
        policy.factor@ >= 0x7ff0_0000_0000_0000,
        1 <= attempt < u32::MAX,
    ensures
        ({
            let next = policy.bound((attempt + 1) as u32);
            &&& policy.factor@ % 0x8000_0000_0000_0000 >= 0x7ff0_0000_0000_0000 ==> next
                == policy.cap@
            &&& policy.bound(attempt) == policy.cap@ ==> next == policy.cap@
            &&& next == 0 || next == policy.cap@
            &&& policy.factor@ % 0x8000_0000_0000_0000 < 0x7ff0_0000_0000_0000
                && policy.bound(attempt) < policy.cap@ ==> (next == policy.cap@
                <==> policy.factor.magnitude(policy.bound(attempt)) >= pow2(1024))
        }),
{
    crate::growth::factors_are_binary64(policy.factor);
    assert(policy.after(attempt as nat) == grown(
        policy.factor,
        policy.after((attempt - 1) as nat),
        policy.cap@,
    ));
}

/// Jitter is the generator's draw: for every seed, the delay is what a generator
/// with that seed first draws from the whole window, and nothing where the window
/// is empty.
pub proof fn jitter_is_the_draw(policy: BackoffPolicy, attempt: u32, seed: u64)
    ensures
        policy.bound(attempt) > 0 ==> policy.jittered(attempt, seed) == drawn_nanos(
            seed,
            policy.bound(attempt),
            usize::BITS,
        ),
        policy.bound(attempt) == 0 ==> policy.jittered(attempt, seed) == 0,
{
}

/// The closed form of the schedule for a whole growth factor `k`: the bound is
/// `base * k^(attempt - 1)` until that reaches the cap, and the cap from there
/// on. No attempt counts as the first one.
pub proof fn whole_factor_is_geometric(policy: BackoffPolicy, k: nat, attempt: u32)
    requires
        policy.factor.is_whole(k),
        k >= 1,
    ensures
        ({
            let growths = if attempt <= 1 {
                0
            } else {
                (attempt - 1) as nat
            };
            let nanos = policy.base@ * pow(k as int, growths);
            policy.bound(attempt) == if nanos >= policy.cap@ {
                policy.cap@ as int
            } else {
                nanos
            }
        }),
{
    lemma_geometric(
        policy,
        k,
        if attempt <= 1 {
            0
        } else {
            (attempt - 1) as nat
        },
    );
}

proof fn lemma_geometric(policy: BackoffPolicy, k: nat, steps: nat)
    requires
        policy.factor.is_whole(k),
        k >= 1,
    ensures
        ({
            let nanos = policy.base@ * pow(k as int, steps);
            if nanos >= policy.cap@ {
                policy.after(steps) >= policy.cap@
            } else {
                policy.after(steps) == nanos
            }
        }),
    decreases steps,
{
    reveal(pow);
    let base = policy.base@;
    let cap = policy.cap@;
    if steps == 0 {
        assert(base * pow(k as int, 0) == base) by (nonlinear_arith)
            requires
                pow(k as int, 0) == 1,
        ;
    } else {
        let earlier = (steps - 1) as nat;
        let before = base * pow(k as int, earlier);
        let nanos = base * pow(k as int, steps);
        lemma_pow_positive(k as int, earlier);
        assert(nanos == before * k) by (nonlinear_arith)
            requires
                before == base * pow(k as int, earlier),
                nanos == base * pow(k as int, steps),
                pow(k as int, steps) == k * pow(k as int, earlier),
        ;
        assert(0 <= before <= nanos) by (nonlinear_arith)
            requires
                before == base * pow(k as int, earlier),
                pow(k as int, earlier) > 0,
                nanos == before * k,
                k >= 1,
        ;
        lemma_geometric(policy, k, earlier);
        if before < cap {
            policy.factor.lemma_times_whole(k, before as nat);
            // What leaves the range of binary64 numbers is beyond every span.
            policy.cap.lemma_bounded();
            lemma2_to64();
            lemma_pow2_adds(64, 64);
            lemma_pow2_strictly_increases(128, 1024);
        }
    }
}

/// Multiplying by a factor that has an inverse modulo `2^64` loses nothing.
proof fn lemma_wrapping_mul_injective(x: u64, y: u64, factor: u64, inverse: u64, k: nat)
    requires
        factor * inverse == 1 + k * 0x1_0000_0000_0000_0000,
        x.wrapping_mul(factor) == y.wrapping_mul(factor),
    ensures
        x == y,
{
    lemma_undo_mul(x, factor, inverse, k);
    lemma_undo_mul(y, factor, inverse, k);
}

proof fn lemma_undo_mul(x: u64, factor: u64, inverse: u64, k: nat)
    requires
        factor * inverse == 1 + k * 0x1_0000_0000_0000_0000,
    ensures
        x == (x.wrapping_mul(factor) * inverse) % 0x1_0000_0000_0000_0000,
{
    let m: int = 0x1_0000_0000_0000_0000;
    let product = x * factor;
    assert(x.wrapping_mul(factor) == product % m);
    lemma_mul_mod_noop_left(product, inverse as int, m);
    assert(product * inverse == (x * k) * m + x) by (nonlinear_arith)
        requires
            product == x * factor,
            factor * inverse == 1 + k * m,
    ;
    lemma_mod_multiples_vanish(x * k, x as int, m);
    lemma_mul_is_commutative(m, x * k);
    lemma_small_mod(x as nat, m as nat);
}

/// The scramble is injective: distinct inputs give distinct results.
pub proof fn mixing_is_injective(x: u64, y: u64)
    requires
        mixed(x) == mixed(y),
    ensures
        x == y,
{
    let a = x.wrapping_add(0x9E37_79B9_7F4A_7C15);
    let b = (a ^ (a >> 30)).wrapping_mul(0xBF58_476D_1CE4_E5B9);
    let c = (b ^ (b >> 27)).wrapping_mul(0x94D0_49BB_1331_11EB);
    let d = y.wrapping_add(0x9E37_79B9_7F4A_7C15);
    let e = (d ^ (d >> 30)).wrapping_mul(0xBF58_476D_1CE4_E5B9);
    let f = (e ^ (e >> 27)).wrapping_mul(0x94D0_49BB_1331_11EB);
    assert(c == f) by (bit_vector)
        requires
            c ^ (c >> 31) == f ^ (f >> 31),
    ;
    lemma_wrapping_mul_injective(
        b ^ (b >> 27),
        e ^ (e >> 27),
        0x94D0_49BB_1331_11EB,
        0x3196_42B2_D24D_8EC3,
        0x1CD3_36ED_A85F_1453,
    );
    assert(b == e) by (bit_vector)
        requires
            b ^ (b >> 27) == e ^ (e >> 27),
    ;
    lemma_wrapping_mul_injective(
        a ^ (a >> 30),
        d ^ (d >> 30),
        0xBF58_476D_1CE4_E5B9,
        0x96DE_1B17_3F11_9089,
        0x70C3_BCA7_8F27_F46C,
    );
    assert(a == d) by (bit_vector)
        requires
            a ^ (a >> 30) == d ^ (d >> 30),
    ;
}

/// Successive retries of one event are decorrelated: whenever the clock term
/// differs, so does the seed.
pub proof fn clock_changes_the_seed(id: u128, earlier: Option<Delay>, later: Option<Delay>)
    requires
        clock_term(earlier) != clock_term(later),
    ensures
        seed_value(id, earlier) != seed_value(id, later),
{
    let hash = id_hash(id);
    let swapped = (hash << 32) | (hash >> 32);
    let left = mixed(clock_term(earlier));
    let right = mixed(clock_term(later));
    if seed_value(id, earlier) == seed_value(id, later) {
        mixing_is_injective(swapped ^ left, swapped ^ right);
        assert(left == right) by (bit_vector)
            requires
                swapped ^ left == swapped ^ right,
        ;
        mixing_is_injective(clock_term(earlier), clock_term(later));
    }
}

/// Concurrent events are decorrelated: at one clock reading, events whose ids
/// hash differently get different seeds.
pub proof fn events_differ_in_the_seed(id: u128, other: u128, reading: Option<Delay>)
    requires
        id_hash(id) != id_hash(other),
    ensures
        seed_value(id, reading) != seed_value(other, reading),
{
    let hash = id_hash(id);
    let other_hash = id_hash(other);
    let swapped = (hash << 32) | (hash >> 32);
    let other_swapped = (other_hash << 32) | (other_hash >> 32);
    let clock = mixed(clock_term(reading));
    if seed_value(id, reading) == seed_value(other, reading) {
        mixing_is_injective(swapped ^ clock, other_swapped ^ clock);
        assert(hash == other_hash) by (bit_vector)
            requires
                swapped == (hash << 32) | (hash >> 32),
                other_swapped == (other_hash << 32) | (other_hash >> 32),
                swapped ^ clock == other_swapped ^ clock,
        ;
    }
}

/// The scramble is `SplitMix64`'s, in arithmetic modulo `2^64`: a sum and two
/// products, each but the sum of a number and its own upper digits.
pub proof fn scrambling_is_splitmix64(x: u64)
    ensures
        ({
            let a = ((x + 0x9E37_79B9_7F4A_7C15) % 0x1_0000_0000_0000_0000) as u64;
            let b = ((a ^ (a >> 30)) * 0xBF58_476D_1CE4_E5B9 % 0x1_0000_0000_0000_0000) as u64;
            let c = ((b ^ (b >> 27)) * 0x94D0_49BB_1331_11EB % 0x1_0000_0000_0000_0000) as u64;
            mixed(x) == c ^ (c >> 31)
        }),
{
    let a = x.wrapping_add(0x9E37_79B9_7F4A_7C15);
    let b = (a ^ (a >> 30)).wrapping_mul(0xBF58_476D_1CE4_E5B9);
    let c = (b ^ (b >> 27)).wrapping_mul(0x94D0_49BB_1331_11EB);
    assert(a == ((x + 0x9E37_79B9_7F4A_7C15) % 0x1_0000_0000_0000_0000) as u64);
    assert(b == ((a ^ (a >> 30)) * 0xBF58_476D_1CE4_E5B9 % 0x1_0000_0000_0000_0000) as u64);
    assert(c == ((b ^ (b >> 27)) * 0x94D0_49BB_1331_11EB % 0x1_0000_0000_0000_0000) as u64);
}

/// A seed is made of every byte of the id and of the whole clock reading: the
/// default hasher's hash of the sixteen bytes, most significant first, its halves
/// swapped, scrambled together with the scrambled seconds and nanoseconds. A clock
/// before the epoch counts as none.
pub proof fn seeds_are_made_of_the_whole_id_and_reading(id: u128, reading: Option<Delay>)
    ensures
        ({
            let bytes = Seq::new(
                16,
                |i: int| (id as nat / pow2((120 - 8 * i) as nat) % 256) as u8,
            );
            let hash = DefaultHasher::spec_finish(seq![bytes]);
            let swapped = ((hash % 0x1_0000_0000) * 0x1_0000_0000 + hash / 0x1_0000_0000) as u64;
            let clock = match reading {
                None => 0,
                Some(span) => (span@ % 1_000_000_000) as u64 ^ (span@ / 1_000_000_000) as u64,
            };
            seed_value(id, reading) == mixed(swapped ^ mixed(clock))
        }),
{
    let bytes = Seq::new(16, |i: int| (id as nat / pow2((120 - 8 * i) as nat) % 256) as u8);
    assert forall|i: int| 0 <= i < 16 implies #[trigger] octets(id)[i] == bytes[i] by {
        let upper: u128 = id >> ((120 - 8 * i) as u32);
        vstd::bits::lemma_u128_shr_is_div(id, (120 - 8 * i) as u128);
        assert(id >> ((120 - 8 * i) as u128) == upper);
        assert((#[verifier::truncate] (upper as u8)) == upper % 256) by (bit_vector);
    }
    assert(octets(id) =~= bytes);
    let hash = DefaultHasher::spec_finish(seq![bytes]);
    assert((hash << 32) | (hash >> 32) == (hash % 0x1_0000_0000) * 0x1_0000_0000 + hash
        / 0x1_0000_0000) by (bit_vector);
}

} // verus!
