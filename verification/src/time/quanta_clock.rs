//! A time source backed by the `quanta` crate's clock. Its timestamps are
//! the clock's raw counter readings, unscaled.

use quanta::{Clock, IntoNanoseconds};
use vstd::prelude::*;

use super::TimeSource;

verus! {

#[verifier::external_type_specification]
#[verifier::external_body]
pub struct ExClock(Clock);

/// `quanta::Clock::new`: a clock calibrated against the system's monotonic
/// reference. Nothing is claimed of the clock that comes back.
#[verifier::external_body]
fn new_clock() -> Clock {
    Clock::new()
}

/// `quanta::Clock::raw`: the clock's raw reading at the moment of the call.
/// The reading depends on the time at which it is taken, so nothing is
/// claimed of it; quanta documents it as neither nanoseconds nor monotonic.
/// It is public so that the contracts of the functions that stamp with it
/// can name it: what they return is a value this call returned.
#[verifier::external_body]
pub fn raw_reading(clock: &Clock) -> u64 {
    clock.raw()
}

/// `<u64 as quanta::IntoNanoseconds>::into_nanos`: the crate's source returns
/// the integer unchanged.
#[verifier::external_body]
pub(crate) fn reading_into_nanos(raw: u64) -> (nanos: u64)
    ensures
        nanos == raw,
{
    raw.into_nanos()
}

/// `t` is a raw reading that `clock` can give: a value that a call of
/// `Clock::raw` on it may return.
pub closed spec fn is_reading(clock: &Clock, t: u64) -> bool {
    call_ensures(raw_reading, (clock,), t)
}

/// The current raw reading of `clock`. The reading is quanta's unscaled
/// counter value, converted as `into_nanos` converts an integer, which keeps
/// it unchanged.
pub(crate) fn clock_nanos(clock: &Clock) -> (t: u64)
    ensures
        is_reading(clock, t),
        call_ensures(raw_reading, (clock,), t),
{
    reading_into_nanos(raw_reading(clock))
}

/// A time source that reads a `quanta` clock.
pub struct QuantaClock {
    clock: Clock,
}

impl QuantaClock {
    /// The clock this source reads.
    pub closed spec fn spec_clock(&self) -> Clock {
        self.clock
    }
}

impl QuantaClock {
    pub fn new() -> Self {
        QuantaClock { clock: new_clock() }
    }
}

impl TimeSource for QuantaClock {
    /// The clock's current raw reading.
    fn now(&self) -> (t: u64)
        ensures
            is_reading(&self.spec_clock(), t),
            call_ensures(raw_reading, (&self.spec_clock(),), t),
    {
        clock_nanos(&self.clock)
    }
}

/// A quanta-backed time source stamps with its own clock's raw reading:
/// whatever `now` returns is a value that `Clock::raw` returned on the
/// source's clock during that call, so a level built on a `QuantaClock`,
/// whose results carry what `now` returned, is stamped with that reading.
pub proof fn law_quanta_stamps_are_raw_readings(source: QuantaClock, t: u64)
    requires
        call_ensures(<QuantaClock as TimeSource>::now, (&source,), t),
    ensures
        call_ensures(raw_reading, (&source.spec_clock(),), t),
{
}

} // verus!
