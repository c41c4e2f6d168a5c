//! What the pipeline benchmarks ingest: checkpoints, chunks, and the alternation of bursts and
//! plain batches.
use vstd::prelude::*;

verus! {

/// Row counts at which a sustained run is measured, unless another maximum is asked for.
pub const MILESTONES: [u64; 3] = [100_000, 500_000, 1_000_000];

/// The larger of two numbers.
pub open spec fn larger(a: int, b: int) -> int {
    if a < b {
        b
    } else {
        a
    }
}

/// The checkpoints of a sustained run: a tenth, a half and all of the maximum, each at least
/// one more than the one before.
pub fn milestone_table(phase_max: Option<u64>) -> (r: Vec<u64>)
    ensures
        match phase_max {
            Some(t) => if t >= 10 {
                r@ == seq![t / 10, t / 2, t]
            } else {
                r@ == MILESTONES@
            },
            None => r@ == MILESTONES@,
        },
        r@.len() == 3,
        r@[0] < r@[1] < r@[2],
{
    if let Some(t) = phase_max {
        if t >= 10 {
            let v: Vec<u64> = vec![t / 10, t / 2, t];
            proof {
                assert(v@ =~= seq![t / 10, t / 2, t]);
            }
            return v;
        }
    }
    let v: Vec<u64> = vec![100_000, 500_000, 1_000_000];
    proof {
        assert(v@ =~= MILESTONES@);
    }
    v
}

/// How many rows go into the next insert.
pub fn chunk_rows(batch: usize, remain: u64) -> (r: u64)
    ensures
        r == (if remain < batch {
            remain as int
        } else {
            batch as int
        }),
        r <= remain,
{
    if remain < batch as u64 {
        remain
    } else {
        batch as u64
    }
}

/// A checkpoint that was reached: its row count, the rows since the last one, and the largest
/// lag sampled between.
#[derive(Debug, Clone, Copy, PartialEq, Eq, Structural)]
pub struct Crossing {
    pub total_raw_rows: u64,
    pub window_rows: u64,
    pub max_lag_sampled_in_window: u64,
}

/// The sampler of a sustained run.
#[derive(Debug)]
pub struct SustainedMeter {
    pub milestones: Vec<u64>,
    pub last_milestone_done: u64,
    pub rows_at_window_start: u64,
    pub window_lag_max: u64,
    pub global_max_lag: u64,
}

/// The first milestone from the `k`-th on that lies beyond `done` and within `n` rows.
pub open spec fn next_crossed(milestones: Seq<u64>, done: u64, n: u64, k: int) -> Option<u64>
    decreases milestones.len() - k,
{
    if k < 0 || k >= milestones.len() {
        None
    } else if done < milestones[k] && n >= milestones[k] {
        Some(milestones[k])
    } else {
        next_crossed(milestones, done, n, k + 1)
    }
}

impl SustainedMeter {
    /// A run before its first row.
    pub fn new(milestones: Vec<u64>) -> (r: Self)
        ensures
            r.milestones@ == milestones@,
            r.last_milestone_done == 0,
            r.rows_at_window_start == 0,
            r.window_lag_max == 0,
            r.global_max_lag == 0,
    {
        SustainedMeter {
            milestones,
            last_milestone_done: 0,
            rows_at_window_start: 0,
            window_lag_max: 0,
            global_max_lag: 0,
        }
    }

    /// Notes a sampled lag.
    pub fn observe_lag(&mut self, lag: u64)
        ensures
            final(self).window_lag_max == larger(old(self).window_lag_max as int, lag as int),
            final(self).global_max_lag == larger(old(self).global_max_lag as int, lag as int),
            final(self).milestones@ == old(self).milestones@,
            final(self).last_milestone_done == old(self).last_milestone_done,
            final(self).rows_at_window_start == old(self).rows_at_window_start,
    {
        if self.window_lag_max < lag {
            self.window_lag_max = lag;
        }
        if self.global_max_lag < lag {
            self.global_max_lag = lag;
        }
    }

    /// The checkpoint that `n` rows reach, at most one for each sample; it starts a new window.
    pub fn cross(&mut self, n: u64) -> (r: Option<Crossing>)
        ensures
            final(self).milestones@ == old(self).milestones@,
            final(self).global_max_lag == old(self).global_max_lag,
            match next_crossed(old(self).milestones@, old(self).last_milestone_done, n, 0) {
                Some(m) => {
                    &&& r == Some(
                        Crossing {
                            total_raw_rows: m,
                            window_rows: if m < old(self).rows_at_window_start {
                                0
                            } else {
                                (m - old(self).rows_at_window_start) as u64
                            },
                            max_lag_sampled_in_window: old(self).window_lag_max,
                        },
                    )
                    &&& final(self).last_milestone_done == m
                    &&& final(self).rows_at_window_start == m
                    &&& final(self).window_lag_max == 0
                },
                None => {
                    &&& r is None
                    &&& final(self).last_milestone_done == old(self).last_milestone_done
                    &&& final(self).rows_at_window_start == old(self).rows_at_window_start
                    &&& final(self).window_lag_max == old(self).window_lag_max
                },
            },
    {
        let mut k: usize = 0;
        while k < self.milestones.len()
            invariant
                0 <= k <= self.milestones@.len(),
                *self == *old(self),
                next_crossed(self.milestones@, self.last_milestone_done, n, 0) == next_crossed(
                    self.milestones@,
                    self.last_milestone_done,
                    n,
                    k as int,
                ),
            decreases self.milestones@.len() - k,
        {
            let m: u64 = self.milestones[k];
            if self.last_milestone_done < m && n >= m {
                let c = Crossing {
                    total_raw_rows: m,
                    window_rows: m.saturating_sub(self.rows_at_window_start),
                    max_lag_sampled_in_window: self.window_lag_max,
                };
                self.last_milestone_done = m;
                self.rows_at_window_start = m;
                self.window_lag_max = 0;
                return Some(c);
            }
            k += 1;
        }
        None
    }

    /// Whether sampling goes on: rows are missing, or the ingest still runs, or the goal was
    /// not seen yet, or a probe is open.
    pub fn keep_sampling(&self, written: u64, goal: u64, ingest_finished: bool, open_probes: usize) -> (r: bool)
        ensures
            r == (written < goal || !ingest_finished || self.last_milestone_done < goal || open_probes > 0),
    {
        written < goal || !ingest_finished || self.last_milestone_done < goal || open_probes > 0
    }
}

/// What a drain does next.
#[derive(Debug, Clone, Copy, PartialEq, Eq, Structural)]
pub enum DrainStep {
    Recovered,
    Wait,
    GiveUp,
}

/// How long a drain may take: five minutes, in nanoseconds.
pub const DRAIN_LIMIT_NS: u64 = 300_000_000_000;

/// What a drain does next, by the lag and the time it has taken.
pub fn drain_step(lag: u64, elapsed_ns: u64) -> (r: DrainStep)
    ensures
        r == (if lag == 0 {
            DrainStep::Recovered
        } else if elapsed_ns > DRAIN_LIMIT_NS {
            DrainStep::GiveUp
        } else {
            DrainStep::Wait
        }),
{
    if lag == 0 {
        DrainStep::Recovered
    } else if elapsed_ns > DRAIN_LIMIT_NS {
        DrainStep::GiveUp
    } else {
        DrainStep::Wait
    }
}

/// Where a mixed ingest stands.
#[derive(Debug, Clone, Copy, PartialEq, Eq, Structural)]
pub enum IngestPhase {
    /// Between batches.
    Idle,
    /// In a burst, until its time or its rows are up.
    Bursting { deadline_ns: u64, remain: u64 },
    /// A burst has ended; a plain batch follows.
    AfterBurst,
    /// A plain batch is being inserted.
    Plain,
}

/// What a mixed ingest does next.
#[derive(Debug, Clone, Copy, PartialEq, Eq, Structural)]
pub enum IngestAction {
    /// A burst begins now.
    BurstBegins,
    /// Insert rows of a burst.
    InsertBurst { start: u64, rows: u64 },
    /// Insert a plain batch.
    InsertPlain { start: u64, rows: u64 },
    /// Nothing more.
    Stop,
}

/// How a mixed ingest is set up: rows in a batch; seconds between bursts (0 for none), rows
/// and milliseconds of a burst; rows after which it ends.
#[derive(Debug, Clone, Copy, PartialEq, Eq, Structural)]
pub struct IngestSetup {
    pub batch: u64,
    pub burst_period_sec: u64,
    pub burst_size: u64,
    pub burst_inject_ms: u64,
    pub stop_after_rows: Option<u64>,
}

/// A mixed ingest.
#[derive(Debug, Clone, Copy, PartialEq, Eq, Structural)]
pub struct MixedIngest {
    pub setup: IngestSetup,
    pub phase: IngestPhase,
    pub next_id: u64,
    pub next_burst_ns: u64,
    pub done: bool,
}

/// `a + b`, at most the largest number.
pub open spec fn capped_sum(a: int, b: int) -> u64 {
    if a + b > u64::MAX {
        u64::MAX
    } else {
        (a + b) as u64
    }
}

/// Seconds in nanoseconds, at most the largest number.
pub open spec fn seconds_ns(s: u64) -> u64 {
    capped_sum(0, s * 1_000_000_000)
}

fn seconds_to_ns(s: u64) -> (r: u64)
    ensures
        r == seconds_ns(s),
{
    if s > u64::MAX / 1_000_000_000 {
        u64::MAX
    } else {
        s * 1_000_000_000
    }
}

/// Whether a number of rows reaches the end of the ingest.
pub open spec fn reaches_end(setup: IngestSetup, next_id: u64) -> bool {
    setup.stop_after_rows matches Some(cap) && (if next_id == 0 {
        0
    } else {
        next_id - 1
    }) >= cap
}

/// The state once a burst has ended: the next one is due a period later.
pub open spec fn burst_ended(s: MixedIngest) -> MixedIngest {
    MixedIngest {
        phase: IngestPhase::AfterBurst,
        next_burst_ns: capped_sum(s.next_burst_ns as int, seconds_ns(s.setup.burst_period_sec) as int),
        ..s
    }
}

/// What an ingest does next. A burst takes chunks until its time is over, its rows are in, or
/// the ingest is to stop; a plain batch follows every burst, and else comes whenever no burst
/// is due.
pub open spec fn next_step(s: MixedIngest, now: u64, stop: bool) -> (MixedIngest, IngestAction) {
    match s.phase {
        IngestPhase::Bursting { deadline_ns, remain } => if remain > 0 && now < deadline_ns && !stop && !s.done {
            (s, IngestAction::InsertBurst { start: s.next_id, rows: if remain < s.setup.batch { remain } else { s.setup.batch } })
        } else {
            plain_step(burst_ended(s))
        },
        IngestPhase::AfterBurst => plain_step(s),
        _ => if stop || s.done {
            (s, IngestAction::Stop)
        } else if s.setup.burst_period_sec > 0 && now >= s.next_burst_ns {
            (
                MixedIngest {
                    phase: IngestPhase::Bursting {
                        deadline_ns: capped_sum(
                            now as int,
                            larger(s.setup.burst_inject_ms as int, 1) * 1_000_000,
                        ),
                        remain: s.setup.burst_size,
                    },
                    ..s
                },
                IngestAction::BurstBegins,
            )
        } else {
            plain_step(s)
        },
    }
}

/// A plain batch, unless the ingest is done.
pub open spec fn plain_step(s: MixedIngest) -> (MixedIngest, IngestAction) {
    if s.done {
        (s, IngestAction::Stop)
    } else {
        (
            MixedIngest { phase: IngestPhase::Plain, ..s },
            IngestAction::InsertPlain { start: s.next_id, rows: s.setup.batch },
        )
    }
}

/// The state after an insert of `rows` rows that succeeded or not. A failed chunk ends its
/// burst; a plain batch counts either way.
pub open spec fn after_insert(s: MixedIngest, rows: u64, ok: bool) -> MixedIngest {
    let id = capped_sum(s.next_id as int, rows as int);
    match s.phase {
        IngestPhase::Bursting { deadline_ns, remain } => if !ok {
            burst_ended(s)
        } else if reaches_end(s.setup, id) {
            burst_ended(MixedIngest { next_id: id, done: true, ..s })
        } else {
            MixedIngest {
                phase: IngestPhase::Bursting {
                    deadline_ns,
                    remain: if remain < rows {
                        0
                    } else {
                        (remain - rows) as u64
                    },
                },
                next_id: id,
                ..s
            }
        },
        _ => MixedIngest {
            phase: IngestPhase::Idle,
            next_id: id,
            done: s.done || reaches_end(s.setup, id),
            ..s
        },
    }
}

impl MixedIngest {
    /// An ingest before its first row; the first burst is due one period after the start.
    pub fn new(setup: IngestSetup) -> (r: Self)
        ensures
            r == (MixedIngest {
                setup,
                phase: IngestPhase::Idle,
                next_id: 1,
                next_burst_ns: seconds_ns(setup.burst_period_sec),
                done: false,
            }),
    {
        MixedIngest {
            setup,
            phase: IngestPhase::Idle,
            next_id: 1,
            next_burst_ns: seconds_to_ns(setup.burst_period_sec),
            done: false,
        }
    }

    fn end_burst(&mut self)
        ensures
            *final(self) == burst_ended(*old(self)),
    {
        self.phase = IngestPhase::AfterBurst;
        self.next_burst_ns = self.next_burst_ns.saturating_add(seconds_to_ns(self.setup.burst_period_sec));
    }

    fn plain(&mut self) -> (r: IngestAction)
        ensures
            (*final(self), r) == plain_step(*old(self)),
    {
        if self.done {
            return IngestAction::Stop;
        }
        self.phase = IngestPhase::Plain;
        IngestAction::InsertPlain { start: self.next_id, rows: self.setup.batch }
    }

    /// What to do at the time `now_ns` since the start.
    pub fn step(&mut self, now_ns: u64, stop: bool) -> (r: IngestAction)
        ensures
            (*final(self), r) == next_step(*old(self), now_ns, stop),
    {
        match self.phase {
            IngestPhase::Bursting { deadline_ns, remain } => {
                if remain > 0 && now_ns < deadline_ns && !stop && !self.done {
                    let rows: u64 = if remain < self.setup.batch {
                        remain
                    } else {
                        self.setup.batch
                    };
                    IngestAction::InsertBurst { start: self.next_id, rows }
                } else {
                    self.end_burst();
                    self.plain()
                }
            },
            IngestPhase::AfterBurst => self.plain(),
            _ => {
                if stop || self.done {
                    return IngestAction::Stop;
                }
                if self.setup.burst_period_sec > 0 && now_ns >= self.next_burst_ns {
                    let ms: u64 = if self.setup.burst_inject_ms < 1 {
                        1
                    } else {
                        self.setup.burst_inject_ms
                    };
                    let span: u64 = if ms > u64::MAX / 1_000_000 {
                        u64::MAX
                    } else {
                        ms * 1_000_000
                    };
                    self.phase = IngestPhase::Bursting {
                        deadline_ns: now_ns.saturating_add(span),
                        remain: self.setup.burst_size,
                    };
                    return IngestAction::BurstBegins;
                }
                self.plain()
            },
        }
    }

    /// Notes how an insert of `rows` rows ended.
    pub fn inserted(&mut self, rows: u64, ok: bool)
        ensures
            *final(self) == after_insert(*old(self), rows, ok),
    {
        let id: u64 = self.next_id.saturating_add(rows);
        let last: u64 = id.saturating_sub(1);
        let end = match self.setup.stop_after_rows {
            Some(cap) => last >= cap,
            None => false,
        };
        match self.phase {
            IngestPhase::Bursting { deadline_ns, remain } => {
                if !ok {
                    self.end_burst();
                } else if end {
                    self.next_id = id;
                    self.done = true;
                    self.end_burst();
                } else {
                    self.next_id = id;
                    self.phase = IngestPhase::Bursting { deadline_ns, remain: remain.saturating_sub(rows) };
                }
            },
            _ => {
                self.phase = IngestPhase::Idle;
                self.next_id = id;
                if end {
                    self.done = true;
                }
            },
        }
    }
}

/// Every insert starts where the one before ended, so no row is inserted twice or left out.
pub proof fn law_inserts_are_contiguous(s: MixedIngest, now: u64, stop: bool)
    ensures
        ({
            let (t, a) = next_step(s, now, stop);
            &&& t.next_id == s.next_id
            &&& a matches IngestAction::InsertBurst { start, .. } ==> start == s.next_id
            &&& a matches IngestAction::InsertPlain { start, .. } ==> start == s.next_id
        }),
{
}

/// A finished ingest inserts nothing more.
pub proof fn law_finished_ingest_stops(s: MixedIngest, now: u64, stop: bool)
    requires
        s.done,
    ensures
        next_step(s, now, stop).1 == IngestAction::Stop,
{
}

/// An insert that brings the rows to the limit finishes the ingest.
pub proof fn law_limit_finishes_the_ingest(s: MixedIngest, rows: u64, cap: u64)
    requires
        s.setup.stop_after_rows == Some(cap),
        s.next_id + rows <= u64::MAX,
        s.next_id + rows > cap,
        s.next_id + rows > 0,
    ensures
        after_insert(s, rows, true).done,
{
}

/// A burst takes no more rows than it is set up with.
pub proof fn law_burst_chunks_fit(s: MixedIngest, now: u64, stop: bool)
    ensures
        ({
            let (t, a) = next_step(s, now, stop);
            a matches IngestAction::InsertBurst { rows, .. } ==> (s.phase matches IngestPhase::Bursting { remain, .. }
                && rows <= remain && rows <= s.setup.batch)
        }),
{
}

} // verus!
