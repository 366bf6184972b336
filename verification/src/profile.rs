//! Wall-clock bookkeeping for the profiled invocation variant.
//!
//! A profiled run records a wall-clock timestamp immediately before the
//! invocation and another immediately after. The elapsed time is only
//! meaningful when the clock did not step backwards; a reading whose end
//! precedes its start is reported as a distinguishable `ClockError` rather
//! than being conflated with an invocation failure.

use vstd::prelude::*;

verus! {

/// The profiled run's end timestamp precedes its start timestamp.
#[derive(Clone, Copy, Debug, PartialEq, Eq, Structural)]
pub struct ClockError;

/// Elapsed wall-clock time between two timestamps, in nanoseconds.
///
/// Returns the exact difference when the clock moved forwards (or stood
/// still), and `ClockError` when it stepped backwards.
pub fn elapsed_nanos(started_at: u128, ended_at: u128) -> (r: Result<u128, ClockError>)
    ensures
        started_at <= ended_at ==> r == Ok::<u128, ClockError>((ended_at - started_at) as u128),
        started_at > ended_at ==> r == Err::<u128, ClockError>(ClockError),
{
    if started_at <= ended_at {
        Ok(ended_at - started_at)
    } else {
        Err(ClockError)
    }
}

} // verus!
