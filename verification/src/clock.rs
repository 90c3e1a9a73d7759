//! Wall-clock measurement. It is observational only: no search is ever cut
//! short by the time it takes.

use vstd::prelude::*;

verus! {

/// `std::time::Instant`: a reading of the monotonic clock. It is carried
/// as it is; nothing is known of what it holds.
#[verifier::external_type_specification]
#[verifier::external_body]
pub struct ExInstant(std::time::Instant);

/// `std::time::Instant::now`: the present reading of the monotonic clock.
/// Nothing is claimed of the reading.
#[verifier::external_body]
fn instant_now() -> std::time::Instant {
    std::time::Instant::now()
}

/// `std::time::Instant::elapsed`: the time that has passed since the reading
/// was taken. Nothing is claimed of it.
#[verifier::external_body]
fn instant_elapsed(since: &std::time::Instant) -> core::time::Duration {
    since.elapsed()
}

/// `core::time::Duration::as_nanos`: the duration in whole nanoseconds.
/// Nothing is claimed of the number.
#[verifier::external_body]
fn duration_nanos(duration: &core::time::Duration) -> u128 {
    duration.as_nanos()
}

/// A running stopwatch.
pub struct Stopwatch {
    started: std::time::Instant,
}

impl Stopwatch {
    /// Starts a stopwatch.
    pub fn start() -> Stopwatch {
        Stopwatch { started: instant_now() }
    }

    /// The nanoseconds since the stopwatch was started, as far as 64 bits go.
    pub fn elapsed(&self) -> u64 {
        whole_nanos(duration_nanos(&instant_elapsed(&self.started)))
    }
}

/// A number of nanoseconds as the 64 bits in which the library keeps its
/// times: the number itself, or the largest value where it does not fit.
pub fn whole_nanos(nanos: u128) -> (kept: u64)
    ensures
        kept == if nanos <= u64::MAX {
            nanos
        } else {
            u64::MAX as u128
        },
{
    if nanos > 0xffff_ffff_ffff_ffff {
        u64::MAX
    } else {
        nanos as u64
    }
}

} // verus!
