//! Counters of queries run.
use vstd::prelude::*;

verus! {

/// How many fetches and streaming fetches were run.
#[derive(Debug, Clone, Copy, PartialEq, Eq, Structural)]
pub struct WorkloadSnapshot {
    pub fetch_calls: u64,
    pub fetch_stream_calls: u64,
}

/// Counts a fetch, wrapping around.
pub fn record_fetch(w: &mut WorkloadSnapshot)
    ensures
        final(w).fetch_calls == (old(w).fetch_calls + 1) % 0x1_0000_0000_0000_0000,
        final(w).fetch_stream_calls == old(w).fetch_stream_calls,
{
    w.fetch_calls = w.fetch_calls.wrapping_add(1);
}

/// Counts a streaming fetch, wrapping around.
pub fn record_fetch_stream(w: &mut WorkloadSnapshot)
    ensures
        final(w).fetch_stream_calls == (old(w).fetch_stream_calls + 1) % 0x1_0000_0000_0000_0000,
        final(w).fetch_calls == old(w).fetch_calls,
{
    w.fetch_stream_calls = w.fetch_stream_calls.wrapping_add(1);
}

/// The counters as they stand.
pub fn snapshot(w: &WorkloadSnapshot) -> (r: WorkloadSnapshot)
    ensures
        r == *w,
{
    *w
}

} // verus!
