//! Lag samples: what of them is counted exactly. Times are nanoseconds since the start.
use vstd::prelude::*;

verus! {

/// A sample of a running pipeline.
#[derive(Debug, Clone, Copy, PartialEq, Eq, Structural)]
pub struct LagSample {
    pub t_ns: u64,
    pub total_raw_rows: u64,
    pub pending_wal_sequences: u64,
}

/// From this lag on a query counts as delayed.
pub const LAG_SPIKE: u64 = 10_000;

/// The lag of the last of the first `n` samples that is not later than `t`; 0 without one.
pub open spec fn lag_before(samples: Seq<LagSample>, t: u64, n: nat) -> u64
    decreases n,
{
    if n == 0 {
        0
    } else if samples[n - 1].t_ns <= t {
        samples[n - 1].pending_wal_sequences
    } else {
        lag_before(samples, t, (n - 1) as nat)
    }
}

/// The lag of the last sample that is not later than `t_ns`.
pub fn last_wal_lag_before_t(t_ns: u64, samples: &[LagSample]) -> (r: u64)
    ensures
        r == lag_before(samples@, t_ns, samples@.len()),
{
    let mut n: usize = samples.len();
    while n > 0
        invariant
            0 <= n <= samples@.len(),
            lag_before(samples@, t_ns, samples@.len()) == lag_before(samples@, t_ns, n as nat),
        decreases n,
    {
        if samples[n - 1].t_ns <= t_ns {
            return samples[n - 1].pending_wal_sequences;
        }
        n -= 1;
    }
    0
}

/// The lags from the time `t` on, among the first `n` samples.
pub open spec fn lags_from(samples: Seq<LagSample>, t: u64, n: nat) -> Seq<(u64, u64)>
    decreases n,
{
    if n == 0 {
        Seq::empty()
    } else {
        let before = lags_from(samples, t, (n - 1) as nat);
        if samples[n - 1].t_ns >= t {
            before.push((samples[n - 1].t_ns, samples[n - 1].pending_wal_sequences))
        } else {
            before
        }
    }
}

fn collect_from(samples: &[LagSample], t_ns: u64) -> (r: Vec<(u64, u64)>)
    ensures
        r@ == lags_from(samples@, t_ns, samples@.len()),
{
    let mut out: Vec<(u64, u64)> = Vec::new();
    let mut i: usize = 0;
    while i < samples.len()
        invariant
            0 <= i <= samples@.len(),
            out@ == lags_from(samples@, t_ns, i as nat),
        decreases samples@.len() - i,
    {
        if samples[i].t_ns >= t_ns {
            out.push((samples[i].t_ns, samples[i].pending_wal_sequences));
        }
        i += 1;
    }
    out
}

/// The largest of a number and the lags.
pub open spec fn peak(start: u64, post: Seq<(u64, u64)>) -> u64
    decreases post.len(),
{
    if post.len() == 0 {
        start
    } else {
        let before = peak(start, post.drop_last());
        if before < post.last().1 {
            post.last().1
        } else {
            before
        }
    }
}

/// The first position from `k` on whose lag is at most `num / den`.
pub open spec fn first_at_most(post: Seq<(u64, u64)>, num: nat, den: nat, k: int) -> Option<int>
    decreases post.len() - k,
{
    if k < 0 || k >= post.len() {
        None
    } else if post[k].1 * den <= num {
        Some(k)
    } else {
        first_at_most(post, num, den, k + 1)
    }
}

/// Whether four lags in a row from `k` on are at most `num / den`.
pub open spec fn four_at_most(post: Seq<(u64, u64)>, num: nat, den: nat, k: int) -> bool {
    &&& 0 <= k
    &&& k + 3 < post.len()
    &&& forall|i: int| k <= i <= k + 3 ==> (#[trigger] post[i]).1 * den <= num
}

/// The first position from `k` on from which four lags in a row are at most `num / den`.
pub open spec fn first_four(post: Seq<(u64, u64)>, num: nat, den: nat, k: int) -> Option<int>
    decreases post.len() - k,
{
    if k < 0 || k + 3 >= post.len() {
        None
    } else if four_at_most(post, num, den, k) {
        Some(k)
    } else {
        first_four(post, num, den, k + 1)
    }
}

/// Which way the lag goes from one sample to the next: up, down or neither.
pub open spec fn trend(post: Seq<(u64, u64)>, i: int) -> int {
    if post[i].1 < post[i + 1].1 {
        1
    } else if post[i].1 > post[i + 1].1 {
        -1
    } else {
        0
    }
}

/// The last way that the lag went in the first `n` steps.
pub open spec fn last_trend(post: Seq<(u64, u64)>, n: nat) -> int
    decreases n,
{
    if n == 0 {
        0
    } else if trend(post, n - 1) != 0 {
        trend(post, n - 1)
    } else {
        last_trend(post, (n - 1) as nat)
    }
}

/// How often the lag turned in the first `n` steps; level stretches are passed over.
pub open spec fn turns(post: Seq<(u64, u64)>, n: nat) -> nat
    decreases n,
{
    if n == 0 {
        0
    } else {
        let before = last_trend(post, (n - 1) as nat);
        let now = trend(post, n - 1);
        turns(post, (n - 1) as nat) + (if now != 0 && before != 0 && now != before {
            1nat
        } else {
            0
        })
    }
}

/// The lags, among the inner ones of the first `n`, that no neighbour exceeds.
pub open spec fn local_peaks(post: Seq<(u64, u64)>, n: nat) -> Seq<u64>
    decreases n,
{
    if n < 3 {
        Seq::empty()
    } else {
        let before = local_peaks(post, (n - 1) as nat);
        let b = post[n - 2].1;
        if b >= post[n - 3].1 && b >= post[n - 1].1 {
            before.push(b)
        } else {
            before
        }
    }
}

/// What a burst did to the lag, as far as it can be counted exactly. Times are nanoseconds
/// after the burst.
#[derive(Debug, Clone, Copy, PartialEq, Eq, Structural)]
pub struct BurstFacts {
    pub baseline: u64,
    pub peak_lag: u64,
    pub overshoot: u64,
    /// Until the lag was at most 1.12 times the baseline and 2000 more.
    pub recovery_legacy_ns: Option<u64>,
    /// Until half of the overshoot was gone.
    pub half_life_ns: Option<u64>,
    /// Until four samples in a row were at most 1.08 times the baseline and 1500 more.
    pub settling_legacy_ns: Option<u64>,
    /// How often the lag turned.
    pub slope_sign_changes: u64,
    /// The first two local peaks.
    pub first_peak: Option<u64>,
    pub second_peak: Option<u64>,
}

/// The time from `t` to the sample at a position.
pub open spec fn since(post: Seq<(u64, u64)>, at: Option<int>, t: u64) -> Option<u64> {
    match at {
        Some(k) => Some((post[k].0 - t) as u64),
        None => None,
    }
}

/// Whether `f` says what a burst at the time `t` did.
pub open spec fn burst_facts(f: BurstFacts, samples: Seq<LagSample>, t: u64) -> bool {
    let post = lags_from(samples, t, samples.len());
    let b = lag_before(samples, t, samples.len());
    let peaks = local_peaks(post, post.len());
    &&& f.baseline == b
    &&& f.peak_lag == peak(b, post)
    &&& f.overshoot == f.peak_lag - b
    &&& f.recovery_legacy_ns == since(post, first_at_most(post, (112 * b + 200_000) as nat, 100, 0), t)
    &&& f.half_life_ns == since(post, first_at_most(post, (2 * b + f.overshoot) as nat, 2, 0), t)
    &&& f.settling_legacy_ns == since(post, first_four(post, (108 * b + 150_000) as nat, 100, 0), t)
    &&& f.slope_sign_changes == turns(post, (if post.len() == 0 { 0 } else { post.len() - 1 }) as nat)
    &&& f.first_peak == (if peaks.len() > 0 {
        Some(peaks[0])
    } else {
        None
    })
    &&& f.second_peak == (if peaks.len() > 1 {
        Some(peaks[1])
    } else {
        None
    })
}

proof fn lemma_lags_from(samples: Seq<LagSample>, t: u64, n: nat)
    requires
        n <= samples.len(),
    ensures
        forall|i: int| 0 <= i < lags_from(samples, t, n).len() ==> (#[trigger] lags_from(samples, t, n)[i]).0 >= t,
    decreases n,
{
    if n > 0 {
        lemma_lags_from(samples, t, (n - 1) as nat);
        let before = lags_from(samples, t, (n - 1) as nat);
        let now = lags_from(samples, t, n);
        assert forall|i: int| 0 <= i < now.len() implies (#[trigger] now[i]).0 >= t by {
            if i < before.len() {
                assert(now[i] == before[i]);
            }
        }
    }
}

fn peak_of(start: u64, post: &Vec<(u64, u64)>) -> (r: u64)
    ensures
        r == peak(start, post@),
        r >= start,
{
    let mut best: u64 = start;
    let mut i: usize = 0;
    proof {
        assert(post@.take(0) =~= Seq::<(u64, u64)>::empty());
    }
    while i < post.len()
        invariant
            0 <= i <= post@.len(),
            best >= start,
            best == peak(start, post@.take(i as int)),
        decreases post@.len() - i,
    {
        proof {
            assert(post@.take(i + 1).drop_last() =~= post@.take(i as int));
        }
        if best < post[i].1 {
            best = post[i].1;
        }
        i += 1;
    }
    proof {
        assert(post@.take(post@.len() as int) =~= post@);
    }
    best
}

fn find_at_most(post: &Vec<(u64, u64)>, num: u128, den: u64, t: u64) -> (r: Option<u64>)
    requires
        forall|i: int| 0 <= i < post@.len() ==> (#[trigger] post@[i]).0 >= t,
        den <= 100,
    ensures
        r == since(post@, first_at_most(post@, num as nat, den as nat, 0), t),
{
    let mut k: usize = 0;
    while k < post.len()
        invariant
            0 <= k <= post@.len(),
            den <= 100,
            forall|i: int| 0 <= i < post@.len() ==> (#[trigger] post@[i]).0 >= t,
            first_at_most(post@, num as nat, den as nat, 0) == first_at_most(post@, num as nat, den as nat, k as int),
        decreases post@.len() - k,
    {
        let lag: u64 = post[k].1;
        proof {
            assert(0 <= lag * den <= 0xffff_ffff_ffff_ffff * 100) by (nonlinear_arith)
                requires
                    0 <= lag <= 0xffff_ffff_ffff_ffff,
                    0 <= den <= 100,
            ;
        }
        if lag as u128 * den as u128 <= num {
            return Some(post[k].0 - t);
        }
        k += 1;
    }
    None
}

fn find_four(post: &Vec<(u64, u64)>, num: u128, den: u64, t: u64) -> (r: Option<u64>)
    requires
        forall|i: int| 0 <= i < post@.len() ==> (#[trigger] post@[i]).0 >= t,
        den <= 100,
    ensures
        r == since(post@, first_four(post@, num as nat, den as nat, 0), t),
{
    if post.len() < 4 {
        return None;
    }
    let len: usize = post.len();
    let last: usize = len - 3;
    let mut k: usize = 0;
    while k < last
        invariant
            0 <= k <= last,
            len == post@.len(),
            last == post@.len() - 3,
            den <= 100,
            forall|i: int| 0 <= i < post@.len() ==> (#[trigger] post@[i]).0 >= t,
            first_four(post@, num as nat, den as nat, 0) == first_four(post@, num as nat, den as nat, k as int),
        decreases last - k,
    {
        let mut j: usize = 0;
        let mut ok = true;
        while j < 4 && ok
            invariant
                0 <= j <= 4,
                len == post@.len(),
                k + 3 < len,
                den <= 100,
                ok ==> forall|i: int| k <= i < k + j ==> (#[trigger] post@[i]).1 * den <= num,
                !ok ==> exists|i: int| k <= i <= k + 3 && (#[trigger] post@[i]).1 * den > num,
            decreases 4 - j,
        {
            let lag: u64 = post[k + j].1;
            proof {
                assert(0 <= lag * den <= 0xffff_ffff_ffff_ffff * 100) by (nonlinear_arith)
                    requires
                        0 <= lag <= 0xffff_ffff_ffff_ffff,
                        0 <= den <= 100,
                ;
            }
            if lag as u128 * den as u128 > num {
                ok = false;
            }
            j += 1;
        }
        if ok {
            proof {
                assert(four_at_most(post@, num as nat, den as nat, k as int));
            }
            return Some(post[k].0 - t);
        }
        k += 1;
    }
    None
}

fn count_turns(post: &Vec<(u64, u64)>) -> (r: u64)
    ensures
        r == turns(post@, (if post@.len() == 0 { 0 } else { post@.len() - 1 }) as nat),
{
    let steps: usize = if post.len() == 0 {
        0
    } else {
        post.len() - 1
    };
    let mut count: u64 = 0;
    let mut prev: i8 = 0;
    let mut i: usize = 0;
    while i < steps
        invariant
            0 <= i <= steps,
            steps == (if post@.len() == 0 {
                0
            } else {
                post@.len() - 1
            }),
            prev == last_trend(post@, i as nat),
            count == turns(post@, i as nat),
            count <= i,
        decreases steps - i,
    {
        let a: u64 = post[i].1;
        let b: u64 = post[i + 1].1;
        let sign: i8 = if a < b {
            1
        } else if a > b {
            -1
        } else {
            0
        };
        if sign != 0 && prev != 0 && sign != prev {
            count += 1;
        }
        if sign != 0 {
            prev = sign;
        }
        i += 1;
    }
    count
}

fn find_local_peaks(post: &Vec<(u64, u64)>) -> (r: Vec<u64>)
    ensures
        r@ == local_peaks(post@, post@.len()),
{
    let mut out: Vec<u64> = Vec::new();
    let mut n: usize = 2;
    while n < post.len()
        invariant
            2 <= n,
            post@.len() < 2 || n <= post@.len(),
            post@.len() < 3 ==> n == 2,
            out@ == local_peaks(post@, n as nat),
        decreases post@.len() - n,
    {
        let b: u64 = post[n - 1].1;
        if b >= post[n - 2].1 && b >= post[n].1 {
            out.push(b);
        }
        n += 1;
    }
    out
}

/// What a burst at the time `burst_ns` did to the lag.
pub fn analyze_burst(burst_ns: u64, samples: &[LagSample]) -> (r: BurstFacts)
    ensures
        burst_facts(r, samples@, burst_ns),
{
    let baseline: u64 = last_wal_lag_before_t(burst_ns, samples);
    let post = collect_from(samples, burst_ns);
    proof {
        lemma_lags_from(samples@, burst_ns, samples@.len());
    }
    let peak_lag: u64 = peak_of(baseline, &post);
    let overshoot: u64 = peak_lag - baseline;
    let recovery = find_at_most(&post, 112 * baseline as u128 + 200_000, 100, burst_ns);
    let half = find_at_most(&post, 2 * baseline as u128 + overshoot as u128, 2, burst_ns);
    let settling = find_four(&post, 108 * baseline as u128 + 150_000, 100, burst_ns);
    let peaks = find_local_peaks(&post);
    BurstFacts {
        baseline,
        peak_lag,
        overshoot,
        recovery_legacy_ns: recovery,
        half_life_ns: half,
        settling_legacy_ns: settling,
        slope_sign_changes: count_turns(&post),
        first_peak: if peaks.len() > 0 {
            Some(peaks[0])
        } else {
            None
        },
        second_peak: if peaks.len() > 1 {
            Some(peaks[1])
        } else {
            None
        },
    }
}

/// The positions of the first `n` times that are up to the stop, or past it.
pub open spec fn phase_positions(ts: Seq<u64>, stop: Option<u64>, past: bool, n: nat) -> Seq<usize>
    decreases n,
{
    if n == 0 {
        Seq::empty()
    } else {
        let before = phase_positions(ts, stop, past, (n - 1) as nat);
        let late = stop matches Some(s) && ts[n - 1] > s;
        if late == past {
            before.push((n - 1) as usize)
        } else {
            before
        }
    }
}

/// Splits samples by their times into those of the ingest and those of the drain after it:
/// their positions. Without a stop all are of the ingest.
pub fn phase_split(ts_ns: &[u64], ingest_stop_ns: Option<u64>) -> (r: (Vec<usize>, Vec<usize>))
    ensures
        r.0@ == phase_positions(ts_ns@, ingest_stop_ns, false, ts_ns@.len()),
        r.1@ == phase_positions(ts_ns@, ingest_stop_ns, true, ts_ns@.len()),
        r.0@.len() + r.1@.len() == ts_ns@.len(),
{
    let mut ingest: Vec<usize> = Vec::new();
    let mut drain: Vec<usize> = Vec::new();
    let mut i: usize = 0;
    while i < ts_ns.len()
        invariant
            0 <= i <= ts_ns@.len(),
            ingest@ == phase_positions(ts_ns@, ingest_stop_ns, false, i as nat),
            drain@ == phase_positions(ts_ns@, ingest_stop_ns, true, i as nat),
            ingest@.len() + drain@.len() == i,
        decreases ts_ns@.len() - i,
    {
        let late = match ingest_stop_ns {
            Some(s) => ts_ns[i] > s,
            None => false,
        };
        if late {
            drain.push(i);
        } else {
            ingest.push(i);
        }
        i += 1;
    }
    (ingest, drain)
}

/// The row that a query probes: the middle one of those ingested.
pub fn probe_row(max_id: u64) -> (r: Option<u64>)
    ensures
        r == (if max_id < 1 {
            None
        } else if max_id < 2 {
            Some(1u64)
        } else {
            Some(max_id / 2)
        }),
{
    if max_id < 1 {
        None
    } else if max_id < 2 {
        Some(1)
    } else {
        Some(max_id / 2)
    }
}

/// No sample after a burst exceeds its peak, which is at least the baseline.
pub proof fn law_peak_bounds_the_lag(start: u64, post: Seq<(u64, u64)>, i: int)
    requires
        0 <= i < post.len(),
    ensures
        post[i].1 <= peak(start, post),
        start <= peak(start, post),
    decreases post.len(),
{
    if i < post.len() - 1 {
        law_peak_bounds_the_lag(start, post.drop_last(), i);
    } else if post.len() > 1 {
        law_peak_bounds_the_lag(start, post.drop_last(), 0);
    } else {
        assert(peak(start, post.drop_last()) == start);
    }
}

} // verus!
