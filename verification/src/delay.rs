//! Spans of time with nanosecond resolution.
use std::cmp::Ordering;
use vstd::prelude::*;

verus! {

/// A non-negative span of time: whole seconds plus a sub-second part.
///
/// Its view is the span in nanoseconds.
#[derive(Clone, Copy, Debug, Eq, Ord, Hash)]
pub struct Delay {
    secs: u64,
    nanos: u32,
}

impl View for Delay {
    type V = nat;

    closed spec fn view(&self) -> nat {
        (self.secs * 1_000_000_000 + self.nanos) as nat
    }
}

impl PartialEq for Delay {
    fn eq(&self, other: &Delay) -> (r: bool) {
        proof {
            use_type_invariant(self);
            use_type_invariant(other);
        }
        self.secs == other.secs && self.nanos == other.nanos
    }
}

impl vstd::std_specs::cmp::PartialEqSpecImpl for Delay {
    open spec fn obeys_eq_spec() -> bool {
        true
    }

    open spec fn eq_spec(&self, other: &Delay) -> bool {
        self@ == other@
    }
}

impl PartialOrd for Delay {
    fn partial_cmp(&self, other: &Delay) -> (r: Option<Ordering>) {
        let left: u128 = self.as_nanos();
        let right: u128 = other.as_nanos();
        if left < right {
            Some(Ordering::Less)
        } else if left == right {
            Some(Ordering::Equal)
        } else {
            Some(Ordering::Greater)
        }
    }
}

impl vstd::std_specs::cmp::PartialOrdSpecImpl for Delay {
    open spec fn obeys_partial_cmp_spec() -> bool {
        true
    }

    open spec fn partial_cmp_spec(&self, other: &Delay) -> Option<Ordering> {
        if self@ < other@ {
            Some(Ordering::Less)
        } else if self@ == other@ {
            Some(Ordering::Equal)
        } else {
            Some(Ordering::Greater)
        }
    }
}

impl Delay {
    /// The sub-second part never reaches a full second.
    #[verifier::type_invariant]
    spec fn normalized(self) -> bool {
        self.nanos < 1_000_000_000
    }

    /// The span in whole milliseconds, rounded down.
    pub open spec fn millis(self) -> nat {
        self@ / 1_000_000
    }

    /// Spans are shorter than `2^95` nanoseconds.
    pub proof fn lemma_bounded(self)
        ensures
            self@ < 0x8000_0000_0000_0000_0000_0000,
    {
    }

    /// A span of `secs` seconds and `nanos` nanoseconds.
    pub fn new(secs: u64, nanos: u32) -> (r: Delay)
        requires
            nanos < 1_000_000_000,
        ensures
            r@ == secs * 1_000_000_000 + nanos,
    {
        Delay { secs, nanos }
    }

    /// The empty span.
    pub fn zero() -> (r: Delay)
        ensures
            r@ == 0,
    {
        Delay { secs: 0, nanos: 0 }
    }

    /// A span of whole seconds.
    pub fn from_secs(secs: u64) -> (r: Delay)
        ensures
            r@ == secs * 1_000_000_000,
    {
        Delay { secs, nanos: 0 }
    }

    /// A span of whole milliseconds.
    pub fn from_millis(millis: u64) -> (r: Delay)
        ensures
            r@ == millis * 1_000_000,
    {
        Delay { secs: millis / 1000, nanos: (millis % 1000) as u32 * 1_000_000 }
    }

    /// A span of whole nanoseconds.
    pub fn from_nanos(nanos: u128) -> (r: Delay)
        requires
            nanos < 0x1_0000_0000_0000_0000 * 1_000_000_000,
        ensures
            r@ == nanos,
    {
        Delay { secs: (nanos / 1_000_000_000) as u64, nanos: (nanos % 1_000_000_000) as u32 }
    }

    /// The whole seconds of the span.
    pub fn as_secs(&self) -> (r: u64)
        ensures
            r == self@ / 1_000_000_000,
    {
        proof {
            use_type_invariant(self);
        }
        self.secs
    }

    /// The nanoseconds of the span beyond its whole seconds.
    pub fn subsec_nanos(&self) -> (r: u32)
        ensures
            r == self@ % 1_000_000_000,
            r < 1_000_000_000,
    {
        proof {
            use_type_invariant(self);
        }
        self.nanos
    }

    /// The whole span in nanoseconds.
    pub fn as_nanos(&self) -> (r: u128)
        ensures
            r == self@,
            r < 0x1_0000_0000_0000_0000 * 1_000_000_000,
    {
        proof {
            use_type_invariant(self);
        }
        self.secs as u128 * 1_000_000_000 + self.nanos as u128
    }

    /// The span in whole milliseconds, rounded down.
    pub fn as_millis(&self) -> (r: u128)
        ensures
            r == self.millis(),
            r < 0x1_0000_0000_0000_0000 * 1000,
    {
        self.as_nanos() / 1_000_000
    }

    /// Whether the span is empty.
    pub fn is_zero(&self) -> (r: bool)
        ensures
            r == (self@ == 0),
    {
        self.as_nanos() == 0
    }
}

/// Spans compare as their nanoseconds do.
pub proof fn spans_compare_by_length(left: Delay, right: Delay)
    ensures
        vstd::std_specs::cmp::PartialEqSpec::eq_spec(&left, &right) <==> left@ == right@,
        vstd::std_specs::cmp::PartialOrdSpec::partial_cmp_spec(&left, &right) == Some(
            Ordering::Less,
        ) <==> left@ < right@,
        vstd::std_specs::cmp::PartialOrdSpec::partial_cmp_spec(&left, &right) == Some(
            Ordering::Equal,
        ) <==> left@ == right@,
        vstd::std_specs::cmp::PartialOrdSpec::partial_cmp_spec(&left, &right) == Some(
            Ordering::Greater,
        ) <==> left@ > right@,
{
}

/// A span has its whole milliseconds, and less than one more.
pub proof fn milliseconds_are_rounded_down(span: Delay)
    ensures
        span.millis() * 1_000_000 <= span@ < (span.millis() + 1) * 1_000_000,
{
}

} // verus!
