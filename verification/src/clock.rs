//! The clock that deadlines are measured by.

use tokio::time::Instant;
use vstd::prelude::*;

verus! {

/// `tokio::time::Instant`: a reading of the monotonic clock. Nothing inside it
/// is visible here.
#[verifier::external_type_specification]
#[verifier::external_body]
pub struct ExInstant(tokio::time::Instant);

/// `tokio::time::Instant::now`: reads the monotonic clock. Nothing is known of
/// the instant.
pub assume_specification[ tokio::time::Instant::now ]() -> (now: tokio::time::Instant)
;

/// A number of nanoseconds that no clock reading exceeds.
pub open spec fn latest_reading() -> int {
    u64::MAX * 1_000_000_000 + 999_999_999
}

/// What deadlines are measured by, in nanoseconds.
pub enum Clock {
    /// Counts from the instant at which it was started.
    Ticking { start: Instant },
    /// Stands still.
    Standing { at: u128 },
}

impl Clock {
    /// Whether a reading of this clock can be `now`.
    pub open spec fn reads(self, now: u128) -> bool {
        match self {
            Clock::Ticking { start } => now <= latest_reading(),
            Clock::Standing { at } => now == at,
        }
    }

    /// Whether there is room for a deadline behind every reading.
    pub open spec fn in_range(self) -> bool {
        forall|now: u128| #[trigger] self.reads(now) ==> now + u64::MAX <= u128::MAX
    }

    /// Some reading of this clock.
    pub open spec fn some_reading(self) -> u128 {
        match self {
            Clock::Ticking { start } => 0,
            Clock::Standing { at } => at,
        }
    }

    /// Starts a clock.
    pub fn start() -> (clock: Clock)
        ensures
            clock is Ticking,
    {
        Clock::Ticking { start: Instant::now() }
    }

    /// Reads the clock.
    pub fn now(&self) -> (now: u128)
        ensures
            self.reads(now),
    {
        match self {
            Clock::Ticking { start } => elapsed_nanos(start),
            Clock::Standing { at } => *at,
        }
    }
}

/// There is room for a deadline behind every reading of a clock that ticks.
pub proof fn law_a_ticking_clock_is_in_range(clock: Clock)
    requires
        clock is Ticking,
    ensures
        clock.in_range(),
{
}

/// `tokio::time::Instant::elapsed`: the time since `start`, here in
/// nanoseconds. It depends on when it is called. All that is claimed of it is
/// what holds of every `Duration`: whole seconds that fit 64 bits, and less
/// than a second besides.
#[verifier::external_body]
fn elapsed_nanos(start: &Instant) -> (nanos: u128)
    ensures
        nanos <= latest_reading(),
{
    start.elapsed().as_nanos()
}

/// A clock that stands still reads the time at which it stands, every time, and
/// has room for a deadline exactly if there is room behind that time.
pub proof fn law_a_standing_clock_reads_one_time(at: u128, now: u128)
    ensures
        (Clock::Standing { at }).reads(now) <==> now == at,
        (Clock::Standing { at }).in_range() <==> at + u64::MAX <= u128::MAX,
{
    assert((Clock::Standing { at }).reads(at));
}

} // verus!
