//! The wall clock.
use crate::delay::Delay;
use std::time::SystemTime;
use vstd::prelude::*;

verus! {

/// `std::time::SystemTime`, carried as an opaque value.
#[verifier::external_type_specification]
#[verifier::external_body]
pub struct ExSystemTime(std::time::SystemTime);

/// `std::time::SystemTime::now` returns the current time of the system clock:
/// nothing is claimed of it.
pub assume_specification[ std::time::SystemTime::now ]() -> SystemTime;

/// Calls `std::time::SystemTime::duration_since` with the unix epoch: the
/// time since the epoch as seconds and the nanoseconds beyond them, which are
/// fewer than a second's, or `None` for a time before the epoch. Which of the
/// two comes back, and how much, is the clock's and is left unsaid.
#[verifier::external_body]
pub(crate) fn since_epoch(time: &SystemTime) -> (r: Option<(u64, u32)>)
    ensures
        r matches Some(span) ==> span.1 < 1_000_000_000,
{
    match time.duration_since(std::time::UNIX_EPOCH) {
        Ok(span) => Some((span.as_secs(), span.subsec_nanos())),
        Err(_) => None,
    }
}

/// A reading is one of the system clock, whole: some time that the clock gave, its
/// distance from the epoch in seconds and nanoseconds, and both of these in the
/// reading; or none for a time before the epoch.
pub(crate) proof fn readings_are_the_clocks(reading: Option<Delay>)
    requires
        clock_reading(reading),
    ensures
        exists|time: SystemTime, span: Option<(u64, u32)>|
            {
                &&& call_ensures(SystemTime::now, (), time)
                &&& #[trigger] call_ensures(since_epoch, (&time,), span)
                &&& span is None <==> reading is None
                &&& span matches Some((secs, nanos)) ==> (reading matches Some(delay) && delay@
                    == secs * 1_000_000_000 + nanos)
            },
{
    let (time, span) = choose|time: SystemTime, span: Option<(u64, u32)>| #[trigger]
        reads(time, span, reading);
    assert(call_ensures(since_epoch, (&time,), span));
}

/// Reads the wall clock: the time since the unix epoch, `None` if the clock is
/// set before it.
#[must_use]
pub fn read_clock() -> (r: Option<Delay>)
    ensures
        clock_reading(r),
{
    let time: SystemTime = SystemTime::now();
    let span: Option<(u64, u32)> = since_epoch(&time);
    let r: Option<Delay> = match span {
        Some((secs, nanos)) => Some(Delay::new(secs, nanos)),
        None => None,
    };
    assert(reads(time, span, r));
    r
}

/// Whether the system clock may give the time, its distance from the epoch be
/// the span, and the reading be that span.
spec fn reads(time: SystemTime, span: Option<(u64, u32)>, reading: Option<Delay>) -> bool {
    &&& call_ensures(SystemTime::now, (), time)
    &&& call_ensures(since_epoch, (&time,), span)
    &&& match span {
        Some((secs, nanos)) => reading matches Some(delay) && delay@ == secs * 1_000_000_000
            + nanos,
        None => reading is None,
    }
}

/// Whether the reading is one of the system clock: the time since the unix
/// epoch that `SystemTime::duration_since` gives for a time that
/// `SystemTime::now` gave, to the nanosecond, or `None` where it gives none.
pub closed spec fn clock_reading(reading: Option<Delay>) -> bool {
    exists|time: SystemTime, span: Option<(u64, u32)>| #[trigger] reads(time, span, reading)
}

/// A clock reading in unix milliseconds: zero before the epoch, saturating at
/// the largest `u64`.
pub open spec fn epoch_millis(reading: Option<Delay>) -> u64 {
    match reading {
        None => 0,
        Some(span) => if span.millis() <= u64::MAX {
            span.millis() as u64
        } else {
            u64::MAX
        },
    }
}

/// A clock reading in unix milliseconds.
pub fn millis_at(reading: Option<Delay>) -> (r: u64)
    ensures
        r == epoch_millis(reading),
{
    match reading {
        None => 0,
        Some(span) => {
            let millis: u128 = span.as_millis();
            if millis <= u64::MAX as u128 {
                millis as u64
            } else {
                u64::MAX
            }
        },
    }
}

/// Current unix time in milliseconds (wall clock): the shared clock for
/// `created_at`, due-time math, and dispatcher scheduling. Returns `0` if the
/// system clock is set before the epoch.
#[must_use]
pub fn now_millis() -> (r: u64)
    ensures
        exists|reading: Option<Delay>|
            clock_reading(reading) && r == #[trigger] epoch_millis(reading),
{
    let reading: Option<Delay> = read_clock();
    millis_at(reading)
}

/// The shared clock counts whole milliseconds since the epoch, from zero to the
/// largest `u64`: one more nanosecond than a reading holds is never counted, and
/// none less than a millisecond is lost.
pub proof fn clock_counts_whole_milliseconds(reading: Option<Delay>)
    ensures
        reading is None ==> epoch_millis(reading) == 0,
        reading matches Some(span) ==> {
            let millis = epoch_millis(reading);
            &&& millis * 1_000_000 <= span@
            &&& millis == u64::MAX || span@ < (millis + 1) * 1_000_000
        },
{
}

} // verus!
