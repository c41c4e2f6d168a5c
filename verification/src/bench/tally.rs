//! The lags of a run, summed up.
use super::lag::LAG_SPIKE;
use vstd::prelude::*;

verus! {

/// What is kept of the lags of a run: how many, their sum, the least and the largest, and how
/// many queries met a large one.
#[derive(Debug, Clone, Copy, PartialEq, Eq, Structural)]
pub struct LagTally {
    pub count: u64,
    pub sum: u128,
    pub least: u64,
    pub largest: u64,
    pub delayed_queries: u64,
}

/// The sum of the lags of some samples.
pub open spec fn lag_sum(samples: Seq<(u64, bool)>) -> nat
    decreases samples.len(),
{
    if samples.len() == 0 {
        0
    } else {
        lag_sum(samples.drop_last()) + samples.last().0 as nat
    }
}

/// How many of some samples are queries that met a large lag.
pub open spec fn delayed(samples: Seq<(u64, bool)>) -> nat
    decreases samples.len(),
{
    if samples.len() == 0 {
        0
    } else {
        delayed(samples.drop_last()) + (if samples.last().1 && samples.last().0 > LAG_SPIKE {
            1nat
        } else {
            0nat
        })
    }
}

/// Whether a tally sums up some samples: lags, each with whether a query met it.
pub open spec fn tallies(t: LagTally, samples: Seq<(u64, bool)>) -> bool {
    &&& t.count == samples.len()
    &&& t.sum == lag_sum(samples)
    &&& t.delayed_queries == delayed(samples)
    &&& samples.len() == 0 ==> t.least == 0 && t.largest == 0
    &&& samples.len() > 0 ==> exists|i: int| 0 <= i < samples.len() && #[trigger] samples[i].0 == t.least
    &&& samples.len() > 0 ==> exists|i: int| 0 <= i < samples.len() && #[trigger] samples[i].0 == t.largest
    &&& forall|i: int| 0 <= i < samples.len() ==> t.least <= #[trigger] samples[i].0 <= t.largest
}

proof fn lemma_sizes(samples: Seq<(u64, bool)>)
    ensures
        lag_sum(samples) <= samples.len() * u64::MAX,
        delayed(samples) <= samples.len(),
    decreases samples.len(),
{
    if samples.len() > 0 {
        lemma_sizes(samples.drop_last());
        let n = samples.len() as int;
        assert((n - 1) * u64::MAX + u64::MAX == n * u64::MAX) by (nonlinear_arith);
    }
}

impl LagTally {
    /// No lags yet.
    pub fn new() -> (r: Self)
        ensures
            tallies(r, Seq::empty()),
    {
        LagTally { count: 0, sum: 0, least: 0, largest: 0, delayed_queries: 0 }
    }

    /// Adds a sample to the ones that are summed up.
    pub fn observe(&mut self, lag: u64, queried: bool)
        requires
            old(self).count < u64::MAX,
            exists|before: Seq<(u64, bool)>| tallies(*old(self), before),
        ensures
            forall|before: Seq<(u64, bool)>| #[trigger]
                tallies(*old(self), before) ==> tallies(*final(self), before.push((lag, queried))),
    {
        let ghost was = *self;
        proof {
            let before = choose|before: Seq<(u64, bool)>| tallies(*self, before);
            lemma_sizes(before);
            assert(before.len() * u64::MAX + u64::MAX <= u128::MAX) by (nonlinear_arith)
                requires
                    before.len() < u64::MAX,
            ;
        }
        if self.count == 0 || lag < self.least {
            self.least = lag;
        }
        if self.count == 0 || self.largest < lag {
            self.largest = lag;
        }
        if queried && lag > LAG_SPIKE {
            self.delayed_queries += 1;
        }
        self.sum += lag as u128;
        self.count += 1;
        proof {
            assert forall|before: Seq<(u64, bool)>| #[trigger] tallies(was, before) implies tallies(
                *self,
                before.push((lag, queried)),
            ) by {
                let after = before.push((lag, queried));
                assert(after.drop_last() =~= before);
                let n = before.len() as int;
                assert(after[n] == (lag, queried));
                if n > 0 {
                    let i = choose|i: int| 0 <= i < before.len() && #[trigger] before[i].0 == was.least;
                    let j = choose|j: int| 0 <= j < before.len() && #[trigger] before[j].0 == was.largest;
                    assert(after[i] == before[i]);
                    assert(after[j] == before[j]);
                }
                assert forall|i: int| 0 <= i < after.len() implies self.least <= #[trigger] after[i].0
                    <= self.largest by {
                    if i < n {
                        assert(after[i] == before[i]);
                        assert(was.least <= before[i].0 <= was.largest);
                    }
                }
            }
        }
    }
}

/// The mean of the lags lies between the least and the largest.
pub proof fn law_mean_lies_between(t: LagTally, samples: Seq<(u64, bool)>)
    requires
        tallies(t, samples),
    ensures
        t.count * t.least <= t.sum <= t.count * t.largest,
{
    lemma_between(samples, t.least, t.largest);
}

proof fn lemma_between(samples: Seq<(u64, bool)>, low: u64, high: u64)
    requires
        forall|i: int| 0 <= i < samples.len() ==> low <= #[trigger] samples[i].0 <= high,
    ensures
        samples.len() * low <= lag_sum(samples) <= samples.len() * high,
    decreases samples.len(),
{
    if samples.len() > 0 {
        let front = samples.drop_last();
        let n = samples.len() as int;
        assert forall|i: int| 0 <= i < front.len() implies low <= #[trigger] front[i].0 <= high by {
            assert(front[i] == samples[i]);
        }
        lemma_between(front, low, high);
        assert(samples[n - 1] == samples.last());
        assert((n - 1) * low + low == n * low) by (nonlinear_arith);
        assert((n - 1) * high + high == n * high) by (nonlinear_arith);
    }
}

} // verus!
