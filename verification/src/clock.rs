//! Time: the wall clock, stretches of time, and how long something has waited.
use std::time::{Duration, Instant};
use vstd::prelude::*;

verus! {

/// `std::time::SystemTime::now` as nanoseconds since the Unix epoch, zero where the clock
/// stands before it. Nothing is promised of the value.
#[verifier::external_body]
fn wall_time_ns() -> (r: u64) {
    std::time::SystemTime::now().duration_since(std::time::UNIX_EPOCH).map(|d| d.as_nanos() as u64).unwrap_or(0)
}

/// Whether the wall clock is what gave a time.
pub closed spec fn clock_read(t: u64) -> bool {
    call_ensures(wall_time_ns, (), t)
}

/// The time that the wall clock shows, in nanoseconds since the Unix epoch.
pub(crate) fn now_ns() -> (r: u64)
    ensures
        clock_read(r),
{
    wall_time_ns()
}

/// How many nanoseconds a stretch of time lasts.
pub uninterp spec fn nanos_in(d: Duration) -> u128;

/// `Duration::as_nanos`: the whole length in nanoseconds, a function of the duration alone.
#[verifier::external_body]
pub(crate) fn whole_nanos(d: Duration) -> (r: u128)
    ensures
        r == nanos_in(d),
{
    d.as_nanos()
}

/// `std::time::Instant`.
#[verifier::external_type_specification]
#[verifier::external_body]
pub struct ExInstant(Instant);

/// `Instant::now`: some moment.
#[verifier::external_body]
pub(crate) fn moment() -> (r: Instant) {
    Instant::now()
}

/// `Instant::elapsed`, in nanoseconds: however long it has been.
#[verifier::external_body]
pub(crate) fn nanos_since(t: &Instant) -> (r: u128) {
    t.elapsed().as_nanos()
}

} // verus!
