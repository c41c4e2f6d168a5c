//! What the benchmarks measure and how they go on, case by case.
use super::buckets::{bucket_of, dwell, in_bucket};
use super::ingest::{
    after_insert, next_crossed, next_step, IngestAction, IngestPhase, MixedIngest,
};
use super::lag::{
    burst_facts, first_at_most, first_four, lag_before, lags_from, local_peaks, peak, trend,
    BurstFacts, LagSample,
};
use super::load::region;
use super::load_options::{BenchPhase, LoadConfig};
use super::load_run::{planned, sample_size, sampled};
use super::materializer::{after_round, highest, MaterializerTick};
use super::options::{number_in, scan_digits};
use super::postings::{capped, is_rare, newest, searches_rare, SearchSelectivity};
use super::probes::{all_marked, checkpoint_of, unseen, Checkpoint, Probe};
use super::tally::delayed;
use crate::support::num_text::NumberError;
use vstd::prelude::*;

verus! {

/// The lag before a time is that of the last sample that is not later, and none where every
/// sample is later.
pub proof fn law_lag_before_a_time(samples: Seq<LagSample>, t: u64, n: nat, i: int)
    requires
        n <= samples.len(),
    ensures
        0 <= i < n && samples[i].t_ns <= t && (forall|j: int| i < j < n ==> (#[trigger] samples[j]).t_ns > t)
            ==> lag_before(samples, t, n) == samples[i].pending_wal_sequences,
        (forall|j: int| 0 <= j < n ==> (#[trigger] samples[j]).t_ns > t) ==> lag_before(samples, t, n) == 0,
    decreases n,
{
    if n > 0 {
        law_lag_before_a_time(samples, t, (n - 1) as nat, i);
        assert(samples[n - 1].t_ns > t || samples[n - 1].t_ns <= t);
    }
}

/// The lags from a time on are those of the samples that are not earlier, with their times.
pub proof fn law_lags_from_a_time(samples: Seq<LagSample>, t: u64, n: nat, x: (u64, u64))
    requires
        n <= samples.len(),
    ensures
        lags_from(samples, t, n).contains(x) <==> exists|i: int|
            0 <= i < n && (#[trigger] samples[i]).t_ns == x.0 && samples[i].pending_wal_sequences == x.1 && x.0 >= t,
        lags_from(samples, t, n).len() == samples.take(n as int).filter(|s: LagSample| s.t_ns >= t).len(),
    decreases n,
{
    reveal(Seq::filter);
    if n > 0 {
        law_lags_from_a_time(samples, t, (n - 1) as nat, x);
        assert(samples.take(n as int).drop_last() =~= samples.take(n - 1));
        let before = lags_from(samples, t, (n - 1) as nat);
        let now = lags_from(samples, t, n);
        if before.contains(x) {
            assert(now[before.index_of(x)] == x);
        }
        if now.contains(x) {
            let q = now.index_of(x);
            if q < before.len() {
                assert(before[q] == x);
            } else {
                assert(samples[n - 1].t_ns == x.0);
            }
        }
        if samples[n - 1].t_ns == x.0 && samples[n - 1].pending_wal_sequences == x.1 && x.0 >= t {
            assert(now[before.len() as int] == x);
        }
    }
}

/// The peak is the highest of the start and the lags.
pub proof fn law_peak_is_the_highest(start: u64, post: Seq<(u64, u64)>)
    ensures
        peak(start, post) >= start,
        forall|i: int| 0 <= i < post.len() ==> (#[trigger] post[i]).1 <= peak(start, post),
        peak(start, post) == start || exists|i: int| 0 <= i < post.len() && (#[trigger] post[i]).1 == peak(start, post),
    decreases post.len(),
{
    if post.len() > 0 {
        let front = post.drop_last();
        law_peak_is_the_highest(start, front);
        assert forall|i: int| 0 <= i < post.len() implies (#[trigger] post[i]).1 <= peak(start, post) by {
            if i < front.len() {
                assert(front[i].1 <= peak(start, front));
            }
        }
        if peak(start, post) != start {
            if peak(start, front) < post.last().1 {
                assert(post[post.len() - 1].1 == peak(start, post));
            } else {
                let i = choose|i: int| 0 <= i < front.len() && (#[trigger] front[i]).1 == peak(start, front);
                assert(post[i].1 == peak(start, post));
            }
        }
    }
}

/// The first lag within a bound is within it, and none before it is.
pub proof fn law_first_lag_within_a_bound(post: Seq<(u64, u64)>, num: nat, den: nat, k: int)
    requires
        0 <= k <= post.len(),
    ensures
        match first_at_most(post, num, den, k) {
            Some(i) => k <= i < post.len() && post[i].1 * den <= num && forall|j: int|
                k <= j < i ==> (#[trigger] post[j]).1 * den > num,
            None => forall|j: int| k <= j < post.len() ==> (#[trigger] post[j]).1 * den > num,
        },
    decreases post.len() - k,
{
    if k < post.len() && post[k].1 * den > num {
        law_first_lag_within_a_bound(post, num, den, k + 1);
    }
}

/// The lag has settled where it and the next three are within the bound, and not before.
pub proof fn law_first_four_within_a_bound(post: Seq<(u64, u64)>, num: nat, den: nat, k: int, j: int)
    requires
        0 <= k,
    ensures
        first_four(post, num, den, k) matches Some(i) ==> {
            &&& k <= i
            &&& i + 3 < post.len()
            &&& post[i].1 * den <= num
            &&& post[i + 1].1 * den <= num
            &&& post[i + 2].1 * den <= num
            &&& post[i + 3].1 * den <= num
        },
        k <= j && j + 3 < post.len() && post[j].1 * den <= num && post[j + 1].1 * den <= num && post[j + 2].1 * den
            <= num && post[j + 3].1 * den <= num ==> (first_four(post, num, den, k) matches Some(i) && i <= j),
    decreases post.len() - k,
{
    if k + 3 < post.len() {
        law_first_four_within_a_bound(post, num, den, k + 1, j);
    }
}

/// A burst is measured by the lag before it and the highest after it. It has recovered at the
/// first lag within 112 hundredths of the baseline and 2000, is half over at the first within
/// half of the overshoot, and has settled at the first four within 108 hundredths and 1500.
pub proof fn law_burst_is_measured(f: BurstFacts, samples: Seq<LagSample>, t: u64)
    requires
        burst_facts(f, samples, t),
    ensures
        f.baseline == lag_before(samples, t, samples.len()),
        f.peak_lag == peak(f.baseline, lags_from(samples, t, samples.len())),
        f.overshoot == f.peak_lag - f.baseline,
        ({
            let post = lags_from(samples, t, samples.len());
            let back = first_at_most(post, (112 * f.baseline + 200_000) as nat, 100, 0);
            let half = first_at_most(post, (2 * f.baseline + f.overshoot) as nat, 2, 0);
            let settled = first_four(post, (108 * f.baseline + 150_000) as nat, 100, 0);
            &&& f.recovery_legacy_ns is Some <==> back is Some
            &&& back matches Some(i) ==> f.recovery_legacy_ns == Some((post[i].0 - t) as u64)
            &&& f.half_life_ns is Some <==> half is Some
            &&& half matches Some(i) ==> f.half_life_ns == Some((post[i].0 - t) as u64)
            &&& f.settling_legacy_ns is Some <==> settled is Some
            &&& settled matches Some(i) ==> f.settling_legacy_ns == Some((post[i].0 - t) as u64)
        }),
{
}

/// Which way the lag goes from one sample to the next.
pub proof fn law_trend_is_the_way_of_the_lag(post: Seq<(u64, u64)>, i: int)
    ensures
        post[i + 1].1 > post[i].1 ==> trend(post, i) == 1,
        post[i + 1].1 < post[i].1 ==> trend(post, i) == -1,
        post[i + 1].1 == post[i].1 ==> trend(post, i) == 0,
{
}

/// Whether an inner lag is `x` and neither neighbour exceeds it.
pub open spec fn peaks_at(post: Seq<(u64, u64)>, i: int, x: u64) -> bool {
    post[i].1 == x && post[i - 1].1 <= x && post[i + 1].1 <= x
}

/// A local peak is an inner lag that neither neighbour exceeds.
pub proof fn law_local_peaks(post: Seq<(u64, u64)>, n: nat, x: u64)
    requires
        n <= post.len(),
    ensures
        local_peaks(post, n).contains(x) <==> exists|i: int| 1 <= i < n - 1 && #[trigger] peaks_at(post, i, x),
    decreases n,
{
    if n >= 3 {
        law_local_peaks(post, (n - 1) as nat, x);
        let before = local_peaks(post, (n - 1) as nat);
        let now = local_peaks(post, n);
        if before.contains(x) {
            let i = choose|i: int| 1 <= i < n - 2 && #[trigger] peaks_at(post, i, x);
            assert(peaks_at(post, i, x));
            assert(now[before.index_of(x)] == x);
        } else if now.contains(x) {
            let q = now.index_of(x);
            if q < before.len() {
                assert(before[q] == x);
            }
            assert(peaks_at(post, n - 2, x));
        }
        if peaks_at(post, n - 2, x) {
            assert(now[before.len() as int] == x);
        }
    }
}

/// A time falls into the bucket of its whole milliseconds, and a bucket holds exactly the times
/// that fall into it.
pub proof fn law_buckets_hold_their_times(ts: Seq<u64>, bucket_ms: u64, b: int, n: nat, i: int)
    requires
        0 <= i < n <= ts.len() <= usize::MAX,
        bucket_ms > 0,
    ensures
        in_bucket(ts, bucket_ms, b, n).contains(i as usize) <==> b * bucket_ms * 1_000_000 <= ts[i] < (b + 1) * bucket_ms
            * 1_000_000,
        forall|k: int| 0 <= k < in_bucket(ts, bucket_ms, b, n).len() ==> #[trigger] in_bucket(ts, bucket_ms, b, n)[k] < n,
    decreases n,
{
    let before = in_bucket(ts, bucket_ms, b, (n - 1) as nat);
    let now = in_bucket(ts, bucket_ms, b, n);
    if n > 1 {
        law_buckets_hold_their_times(
            ts,
            bucket_ms,
            b,
            (n - 1) as nat,
            if i < n - 1 {
                i
            } else {
                0
            },
        );
    }
    assert forall|k: int| 0 <= k < now.len() implies #[trigger] now[k] < n by {
        if k < before.len() {
            assert(before[k] < n - 1);
        }
    }
    if i < n - 1 {
        if before.contains(i as usize) {
            assert(now[before.index_of(i as usize)] == i as usize);
        }
        if now.contains(i as usize) {
            let q = now.index_of(i as usize);
            if q < before.len() {
                assert(before[q] == i as usize);
            }
        }
    } else {
        let d = bucket_ms as int * 1_000_000;
        let t = ts[i] as int;
        vstd::arithmetic::div_mod::lemma_fundamental_div_mod(t, d);
        vstd::arithmetic::div_mod::lemma_mod_bound(t, d);
        let q = t / d;
        assert((q == b) <==> b * d <= t < (b + 1) * d) by (nonlinear_arith)
            requires
                t == d * q + t % d,
                0 <= t % d < d,
                d > 0,
        ;
        assert(b * bucket_ms * 1_000_000 == b * d) by (nonlinear_arith)
            requires
                d == bucket_ms as int * 1_000_000,
        ;
        assert((b + 1) * bucket_ms * 1_000_000 == (b + 1) * d) by (nonlinear_arith)
            requires
                d == bucket_ms as int * 1_000_000,
        ;
        if now.contains(i as usize) {
            let k = now.index_of(i as usize);
            if k < before.len() {
                assert(before[k] < n - 1);
            }
        }
        if bucket_of(ts[i], bucket_ms) == b {
            assert(now[before.len() as int] == i as usize);
        }
    }
}

/// A regime lasts as many buckets as are in it.
pub proof fn law_dwell_counts_buckets(regimes: Seq<Seq<char>>, name: Seq<char>, n: nat)
    requires
        n <= regimes.len(),
    ensures
        dwell(regimes, name, n) == regimes.take(n as int).filter(|r: Seq<char>| r == name).len(),
    decreases n,
{
    reveal(Seq::filter);
    if n > 0 {
        law_dwell_counts_buckets(regimes, name, (n - 1) as nat);
        assert(regimes.take(n as int).drop_last() =~= regimes.take(n - 1));
    }
}

/// The queries that are counted as delayed are those that met a lag of more than ten thousand.
pub proof fn law_delayed_queries_met_a_large_lag(samples: Seq<(u64, bool)>)
    ensures
        delayed(samples) == samples.filter(|s: (u64, bool)| s.1 && s.0 > 10_000).len(),
    decreases samples.len(),
{
    reveal(Seq::filter);
    if samples.len() > 0 {
        law_delayed_queries_met_a_large_lag(samples.drop_last());
    }
}

/// The highest sequence is that of the start or of one of the others, and none is higher.
pub proof fn law_highest_sequence(start: u64, seqs: Seq<u64>)
    ensures
        highest(start, seqs) >= start,
        forall|i: int| 0 <= i < seqs.len() ==> #[trigger] seqs[i] <= highest(start, seqs),
        highest(start, seqs) == start || seqs.contains(highest(start, seqs)),
    decreases seqs.len(),
{
    if seqs.len() > 0 {
        let front = seqs.drop_last();
        law_highest_sequence(start, front);
        assert forall|i: int| 0 <= i < seqs.len() implies #[trigger] seqs[i] <= highest(start, seqs) by {
            if i < front.len() {
                assert(front[i] <= highest(start, front));
            }
        }
        if highest(start, front) < seqs.last() {
            assert(seqs[seqs.len() - 1] == highest(start, seqs));
        } else if front.contains(highest(start, front)) {
            assert(seqs[front.index_of(highest(start, front))] == highest(start, seqs));
        }
    }
}

/// A round that applied something moves on to the last decoded sequence and leaves one round
/// less; one that applied nothing is the last and moves nothing. What waits is counted from the
/// log's mark.
pub proof fn law_rounds_go_on_while_they_apply(t: MaterializerTick, applied: u64, max_seq: u64, mark: u64)
    requires
        t.rounds_left > 0,
    ensures
        applied > 0 ==> {
            let u = after_round(t, applied, max_seq, Some(mark));
            &&& u.last_applied_seq == max_seq
            &&& u.rounds_left == t.rounds_left - 1
            &&& u.applied_any
            &&& mark >= max_seq ==> u.pending_after == mark - max_seq
            &&& mark < max_seq ==> u.pending_after == 0
        },
        applied == 0 ==> {
            let u = after_round(t, 0, max_seq, Some(mark));
            &&& u.last_applied_seq == t.last_applied_seq
            &&& u.rounds_left == 0
            &&& u.applied_any == t.applied_any
        },
        after_round(t, applied, max_seq, None).pending_after == 0,
{
}

/// A row joins the end of its list, and the oldest leaves where the list is full.
pub proof fn law_full_lists_lose_the_oldest(q: Seq<u64>, id: u64, cap: nat, k: nat, i: int)
    ensures
        capped(q, id, cap).len() > 0,
        capped(q, id, cap).last() == id,
        q.len() < cap ==> capped(q, id, cap) =~= q.push(id),
        q.len() >= cap && q.len() > 0 ==> capped(q, id, cap) =~= q.push(id).skip(1),
        newest(q, k).len() == (if q.len() < k {
            q.len()
        } else {
            k
        }),
        0 <= i < newest(q, k).len() ==> newest(q, k)[i] == q[q.len() - 1 - i],
{
}

/// Rare rows are those whose number the spread divides; a spread below two, or the largest, has
/// none. Searches for common or rare rows alone are for those.
pub proof fn law_rare_rows_and_searches(id: u64, spread: u64, op: u64, pct: u8)
    ensures
        2 <= spread < u64::MAX ==> (is_rare(id, spread) <==> id as int % spread as int == 0),
        spread < 2 || spread == u64::MAX ==> !is_rare(id, spread),
        !searches_rare(op, SearchSelectivity::Common, pct),
        searches_rare(op, SearchSelectivity::Rare, pct),
        !searches_rare(op, SearchSelectivity::Mixed, 0),
        pct >= 100 ==> searches_rare(op, SearchSelectivity::Mixed, pct),
{
}

/// Only the first checkpoint of a row is marked, and only by a probe that saw the row.
pub proof fn law_first_checkpoint_of_a_row(cs: Seq<Checkpoint>, row: u64, k: int)
    requires
        0 <= k <= cs.len(),
    ensures
        match checkpoint_of(cs, row, k) {
            Some(i) => k <= i < cs.len() && cs[i].total_raw_rows == row && forall|j: int|
                k <= j < i ==> (#[trigger] cs[j]).total_raw_rows != row,
            None => forall|j: int| k <= j < cs.len() ==> (#[trigger] cs[j]).total_raw_rows != row,
        },
    decreases cs.len() - k,
{
    if k < cs.len() && cs[k].total_raw_rows != row {
        law_first_checkpoint_of_a_row(cs, row, k + 1);
    }
}

/// The probes that stay are those whose rows were not seen.
pub proof fn law_unseen_probes_stay(probes: Seq<Probe>, seen: Seq<Option<u64>>, n: nat, p: Probe)
    requires
        n <= probes.len(),
        seen.len() == probes.len(),
    ensures
        unseen(probes, seen, n).contains(p) <==> exists|i: int|
            #![trigger probes[i]]
            0 <= i < n && probes[i] == p && seen[i] is None,
    decreases n,
{
    if n > 0 {
        law_unseen_probes_stay(probes, seen, (n - 1) as nat, p);
        let before = unseen(probes, seen, (n - 1) as nat);
        let now = unseen(probes, seen, n);
        if before.contains(p) {
            assert(now[before.index_of(p)] == p);
        }
        if now.contains(p) {
            let q = now.index_of(p);
            if q < before.len() {
                assert(before[q] == p);
            } else {
                assert(probes[n - 1] == p);
            }
        }
        if probes[n - 1] == p && seen[n - 1] is None {
            assert(now[before.len() as int] == p);
        }
    }
}

/// A probe that saw its row marks the row's checkpoint with the time.
pub proof fn law_seen_row_is_marked(cs: Seq<Checkpoint>, probe: Probe, t: u64, i: int)
    requires
        0 <= i < cs.len(),
        cs[i].total_raw_rows == probe.row,
        forall|j: int| 0 <= j < i ==> (#[trigger] cs[j]).total_raw_rows != probe.row,
    ensures
        all_marked(cs, seq![probe], seq![Some(t)], 1)[i].visible_after_ns == Some(t),
        all_marked(cs, seq![probe], seq![None], 1) == cs,
{
    law_first_checkpoint_of_a_row(cs, probe.row, 0);
    let k = checkpoint_of(cs, probe.row, 0)->0;
    if k < i {
        assert(cs[k].total_raw_rows != probe.row);
    }
    assert(seq![probe][0] == probe);
    assert(all_marked(cs, seq![probe], seq![Some(t)], 0) == cs);
    assert(all_marked(cs, seq![probe], seq![None], 0) == cs);
}

/// The milestone that is crossed is the first beyond the last one and within the rows.
pub proof fn law_milestone_is_the_first_crossed(milestones: Seq<u64>, done: u64, n: u64, k: int, i: int)
    requires
        0 <= k <= milestones.len(),
    ensures
        k <= i < milestones.len() && done < milestones[i] <= n && (forall|j: int|
            k <= j < i ==> !(done < #[trigger] milestones[j] && milestones[j] <= n)) ==> next_crossed(
            milestones,
            done,
            n,
            k,
        ) == Some(milestones[i]),
        (forall|j: int| k <= j < milestones.len() ==> !(done < #[trigger] milestones[j] && milestones[j] <= n))
            ==> next_crossed(milestones, done, n, k) is None,
    decreases milestones.len() - k,
{
    if k < milestones.len() {
        assert(!(done < milestones[k] && milestones[k] <= n) || (done < milestones[k] && milestones[k] <= n));
        law_milestone_is_the_first_crossed(milestones, done, n, k + 1, i);
    }
}

/// What an ingest does next: it stops between batches when told to or done; begins a burst when
/// one is due; goes on with a burst while rows and time are left; and inserts a plain batch
/// otherwise.
pub proof fn law_ingest_takes_its_turns(s: MixedIngest, now: u64, stop: bool)
    requires
        !s.done,
    ensures
        s.phase == IngestPhase::Idle || s.phase == IngestPhase::Plain ==> {
            &&& stop ==> next_step(s, now, stop).1 == IngestAction::Stop
            &&& !stop && s.setup.burst_period_sec > 0 && now >= s.next_burst_ns ==> {
                &&& next_step(s, now, stop).1 == IngestAction::BurstBegins
                &&& next_step(s, now, stop).0.phase matches IngestPhase::Bursting { deadline_ns, remain } && remain
                    == s.setup.burst_size && (now + s.setup.burst_inject_ms * 1_000_000 <= u64::MAX
                    && s.setup.burst_inject_ms > 0 ==> deadline_ns == now + s.setup.burst_inject_ms * 1_000_000)
            }
            &&& !stop && (s.setup.burst_period_sec == 0 || now < s.next_burst_ns) ==> next_step(s, now, stop).1 == (
            IngestAction::InsertPlain { start: s.next_id, rows: s.setup.batch })
        },
        s.phase matches IngestPhase::Bursting { deadline_ns, remain } ==> {
            &&& remain > 0 && now < deadline_ns && !stop ==> next_step(s, now, stop).1 == (IngestAction::InsertBurst {
                start: s.next_id,
                rows: if remain < s.setup.batch {
                    remain
                } else {
                    s.setup.batch
                },
            })
            &&& remain == 0 || now >= deadline_ns || stop ==> {
                &&& next_step(s, now, stop).1 == (IngestAction::InsertPlain { start: s.next_id, rows: s.setup.batch })
                &&& s.next_burst_ns + s.setup.burst_period_sec * 1_000_000_000 <= u64::MAX ==> next_step(
                    s,
                    now,
                    stop,
                ).0.next_burst_ns == s.next_burst_ns + s.setup.burst_period_sec * 1_000_000_000
            }
        },
        s.phase == IngestPhase::AfterBurst ==> next_step(s, now, stop).1 == (IngestAction::InsertPlain {
            start: s.next_id,
            rows: s.setup.batch,
        }),
{
}

/// What an insert leaves: the rows are counted, those of a burst off what remains of it; a failed
/// chunk ends its burst and counts for nothing.
pub proof fn law_inserts_are_counted(s: MixedIngest, rows: u64)
    requires
        s.next_id + rows <= u64::MAX,
        s.setup.stop_after_rows is None,
        !s.done,
    ensures
        s.phase matches IngestPhase::Bursting { deadline_ns, remain } ==> {
            &&& after_insert(s, rows, true).next_id == s.next_id + rows
            &&& rows <= remain ==> after_insert(s, rows, true).phase == (IngestPhase::Bursting {
                deadline_ns,
                remain: (remain - rows) as u64,
            })
            &&& after_insert(s, rows, false).next_id == s.next_id
            &&& after_insert(s, rows, false).phase == IngestPhase::AfterBurst
        },
        s.phase == IngestPhase::Plain ==> {
            &&& after_insert(s, rows, true).next_id == s.next_id + rows
            &&& after_insert(s, rows, false).next_id == s.next_id + rows
            &&& after_insert(s, rows, true).phase == IngestPhase::Idle
        },
        !after_insert(s, rows, true).done,
{
}

/// Digits are read from the left: one more digit makes ten times what was read and itself, unless
/// that is more than the bound; anything else is no digit.
pub proof fn law_digits_are_read_from_the_left(d: Seq<u8>, b: u8, max: u64)
    ensures
        number_in(Seq::empty(), max) == Err::<nat, NumberError>(NumberError::Empty),
        scan_digits(Seq::empty(), max) == Ok::<nat, NumberError>(0),
        scan_digits(d, max) is Ok && (b < 48 || b > 57) ==> scan_digits(d.push(b), max) == Err::<nat, NumberError>(
            NumberError::InvalidDigit,
        ),
        scan_digits(d, max) is Ok && 48 <= b <= 57 && scan_digits(d, max)->Ok_0 * 10 + (b - 48) <= max ==> scan_digits(
            d.push(b),
            max,
        ) == Ok::<nat, NumberError>((scan_digits(d, max)->Ok_0 * 10 + (b - 48)) as nat),
        scan_digits(d, max) is Ok && 48 <= b <= 57 && scan_digits(d, max)->Ok_0 * 10 + (b - 48) > max ==> scan_digits(
            d.push(b),
            max,
        ) == Err::<nat, NumberError>(NumberError::TooLarge),
        scan_digits(d, max) is Err ==> scan_digits(d.push(b), max) == scan_digits(d, max),
        d.len() > 0 && d[0] != 43 ==> number_in(d, max) == scan_digits(d, max),
        d.len() > 0 ==> number_in(seq![43u8] + d, max) == scan_digits(d, max),
{
    assert(d.push(b).drop_last() =~= d);
    assert((seq![43u8] + d).skip(1) =~= d);
}

/// Which parts of the load benchmark each phase runs.
pub proof fn law_phases_run_their_parts(c: LoadConfig)
    ensures
        planned(c).write <==> c.phase == BenchPhase::Full || c.phase == BenchPhase::Ingest,
        planned(c).full_decode <==> c.phase != BenchPhase::Ingest && !c.projection_pipeline_only,
        planned(c).projection_stream <==> c.phase != BenchPhase::Ingest && c.projection_pipeline_only,
        planned(c).query_suite <==> (c.phase == BenchPhase::Full || c.phase == BenchPhase::Query)
            && !c.projection_pipeline_only,
        planned(c).concurrent <==> planned(c).write && c.concurrent_writers && c.threads >= 2,
        planned(c).sharded_log <==> c.concurrent_writers && c.threads >= 2 && c.wal_shards >= 2,
{
}

/// The records that are sampled are among the records, the first of them first.
pub proof fn law_samples_are_records(i: int, read_sample: usize, records: usize)
    requires
        records > 0,
        0 <= i,
    ensures
        0 <= sampled(i, records as int) < records,
        sampled(0, records as int) == 0,
        sampled(i, records as int) == (9973 * i) % records as int,
        1 <= sample_size(read_sample, records) <= records,
        1 <= read_sample <= records ==> sample_size(read_sample, records) == read_sample,
        read_sample > records ==> sample_size(read_sample, records) == records,
{
    vstd::arithmetic::div_mod::lemma_mod_bound(i * 9973, records as int);
    vstd::arithmetic::div_mod::lemma_small_mod(0, records as nat);
    assert(i * 9973 == 9973 * i);
}

/// The regions of records take turns.
pub proof fn law_regions_take_turns(i: int)
    requires
        0 <= i,
    ensures
        region(4 * i) == "us-east"@,
        region(4 * i + 1) == "us-west"@,
        region(4 * i + 2) == "eu-central"@,
        region(4 * i + 3) == "ap-south"@,
{
}

} // verus!
