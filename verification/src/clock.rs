//! The wall clock.

use vstd::prelude::*;

verus! {

/// Calls `std::time::SystemTime::elapsed` on the Unix epoch, which reads the
/// wall clock and gives the time passed since the epoch, or fails where the
/// clock stands before it. The time is handed on as its two parts, the whole
/// seconds and the nanoseconds beyond them, and a failure as `None`. Nothing is
/// claimed of the result: it is whatever the clock says.
#[verifier::external_body]
fn time_since_epoch() -> (elapsed: Option<(u64, u32)>) {
    match std::time::UNIX_EPOCH.elapsed() {
        Ok(elapsed) => Some((elapsed.as_secs(), elapsed.subsec_nanos())),
        Err(_) => None,
    }
}

/// The Unix time that a clock stands for, given the seconds and nanoseconds
/// since the epoch: the seconds, or zero for a clock that stands before it.
pub fn seconds_or_zero(since_epoch: Option<(u64, u32)>) -> (seconds: u64)
    ensures
        seconds == match since_epoch {
            Some(elapsed) => elapsed.0,
            None => 0,
        },
{
    match since_epoch {
        Some((seconds, _)) => seconds,
        None => 0,
    }
}

/// A reading of the wall clock gave `since_epoch`: the seconds and nanoseconds
/// since the epoch, or nothing where the clock stands before it.
pub closed spec fn clock_read(since_epoch: Option<(u64, u32)>) -> bool {
    call_ensures(time_since_epoch, (), since_epoch)
}

/// The current Unix time in seconds; zero where the clock stands before the
/// epoch. The clock decides which time it is.
pub fn unix_now() -> (now: u64)
    ensures
        exists|since_epoch: Option<(u64, u32)>| #[trigger]
            clock_read(since_epoch) && now == (match since_epoch {
                Some(elapsed) => elapsed.0,
                None => 0,
            }),
{
    let since_epoch = time_since_epoch();
    assert(clock_read(since_epoch));
    seconds_or_zero(since_epoch)
}

/// What counts as a reading of the clock is what the clock gave.
proof fn law_reading_comes_from_the_clock(since_epoch: Option<(u64, u32)>)
    ensures
        clock_read(since_epoch) <==> call_ensures(time_since_epoch, (), since_epoch),
{
}

} // verus!
