//! Time buckets of a trace, and the regimes that they pass through.
use crate::support::str_map::StrMap;
use crate::support::text::{join2, str_eq, texts};
use vstd::prelude::*;

verus! {

/// The bucket of a time in nanoseconds, for buckets of `bucket_ms` milliseconds.
pub open spec fn bucket_of(t_ns: u64, bucket_ms: u64) -> int {
    t_ns as int / (bucket_ms * 1_000_000)
}

/// The largest bucket of the first `n` times.
pub open spec fn last_bucket(ts: Seq<u64>, bucket_ms: u64, n: nat) -> int
    decreases n,
{
    if n == 0 {
        0
    } else {
        let before = last_bucket(ts, bucket_ms, (n - 1) as nat);
        let here = bucket_of(ts[n - 1], bucket_ms);
        if before < here {
            here
        } else {
            before
        }
    }
}

/// The positions of the first `n` times that fall into a bucket.
pub open spec fn in_bucket(ts: Seq<u64>, bucket_ms: u64, b: int, n: nat) -> Seq<usize>
    decreases n,
{
    if n == 0 {
        Seq::empty()
    } else {
        let before = in_bucket(ts, bucket_ms, b, (n - 1) as nat);
        if bucket_of(ts[n - 1], bucket_ms) == b {
            before.push((n - 1) as usize)
        } else {
            before
        }
    }
}

fn bucket_index(t_ns: u64, bucket_ms: u64) -> (r: u64)
    requires
        bucket_ms > 0,
    ensures
        r == bucket_of(t_ns, bucket_ms),
{
    if bucket_ms > u64::MAX / 1_000_000 {
        proof {
            let w = bucket_ms as int * 1_000_000;
            assert(t_ns as int / w == 0) by (nonlinear_arith)
                requires
                    0 <= t_ns < w,
            ;
        }
        return 0;
    }
    t_ns / (bucket_ms * 1_000_000)
}

/// Puts times into buckets: for each bucket up to the last the positions of its times. Nothing
/// without times, without a width, or when there are more buckets than can be counted.
pub fn bucket_positions(ts_ns: &[u64], bucket_ms: u64) -> (r: Option<Vec<Vec<usize>>>)
    ensures
        match r {
            Some(v) => {
                &&& bucket_ms > 0
                &&& ts_ns@.len() > 0
                &&& v@.len() == last_bucket(ts_ns@, bucket_ms, ts_ns@.len()) + 1
                &&& forall|b: int|
                    0 <= b < v@.len() ==> (#[trigger] v@[b])@ == in_bucket(ts_ns@, bucket_ms, b, ts_ns@.len())
            },
            None => bucket_ms == 0 || ts_ns@.len() == 0 || last_bucket(ts_ns@, bucket_ms, ts_ns@.len()) + 1
                > usize::MAX,
        },
{
    if bucket_ms == 0 || ts_ns.len() == 0 {
        return None;
    }
    let mut last: u64 = 0;
    let mut i: usize = 0;
    while i < ts_ns.len()
        invariant
            0 <= i <= ts_ns@.len(),
            bucket_ms > 0,
            last == last_bucket(ts_ns@, bucket_ms, i as nat),
        decreases ts_ns@.len() - i,
    {
        let here: u64 = bucket_index(ts_ns[i], bucket_ms);
        if last < here {
            last = here;
        }
        i += 1;
    }
    if last >= usize::MAX as u64 {
        return None;
    }
    let count: usize = last as usize + 1;
    let mut out: Vec<Vec<usize>> = Vec::new();
    let mut b: usize = 0;
    while b < count
        invariant
            0 <= b <= count,
            bucket_ms > 0,
            out@.len() == b,
            forall|k: int| 0 <= k < b ==> (#[trigger] out@[k])@ == in_bucket(ts_ns@, bucket_ms, k, ts_ns@.len()),
        decreases count - b,
    {
        let mut here: Vec<usize> = Vec::new();
        let mut j: usize = 0;
        while j < ts_ns.len()
            invariant
                0 <= j <= ts_ns@.len(),
                bucket_ms > 0,
                here@ == in_bucket(ts_ns@, bucket_ms, b as int, j as nat),
            decreases ts_ns@.len() - j,
        {
            if bucket_index(ts_ns[j], bucket_ms) == b as u64 {
                here.push(j);
            }
            j += 1;
        }
        out.push(here);
        b += 1;
    }
    Some(out)
}

/// The step from one regime to the next.
pub open spec fn step_name(regimes: Seq<Seq<char>>, i: int) -> Seq<char> {
    regimes[i] + "->"@ + regimes[i + 1]
}

/// How often a regime occurs among the first `n`.
pub open spec fn dwell(regimes: Seq<Seq<char>>, name: Seq<char>, n: nat) -> nat
    decreases n,
{
    if n == 0 {
        0
    } else {
        dwell(regimes, name, (n - 1) as nat) + (if regimes[n - 1] == name {
            1nat
        } else {
            0
        })
    }
}

/// How often a step occurs among the first `n`.
pub open spec fn step_count(regimes: Seq<Seq<char>>, name: Seq<char>, n: nat) -> nat
    decreases n,
{
    if n == 0 {
        0
    } else {
        step_count(regimes, name, (n - 1) as nat) + (if step_name(regimes, n - 1) == name {
            1nat
        } else {
            0
        })
    }
}

/// How many of the first `n` steps stay in their regime.
pub open spec fn sticky_count(regimes: Seq<Seq<char>>, n: nat) -> nat
    decreases n,
{
    if n == 0 {
        0
    } else {
        sticky_count(regimes, (n - 1) as nat) + (if regimes[n - 1] == regimes[n as int] {
            1nat
        } else {
            0
        })
    }
}

/// The regimes that a trace passes through: how many buckets each lasts, the steps in order
/// and how often each occurs, and how many of them stay.
#[derive(Debug)]
pub struct RegimePath {
    pub dwell_buckets: StrMap<u64>,
    pub transition_counts: StrMap<u64>,
    pub transition_sequence: Vec<String>,
    pub sticky: u64,
    pub total_transitions: u64,
}

/// Whether a map counts the names of the first `n` by `count`.
pub open spec fn counts_dwell(m: Map<Seq<char>, u64>, regimes: Seq<Seq<char>>, n: nat) -> bool {
    forall|name: Seq<char>|
        (#[trigger] m.dom().contains(name) <==> dwell(regimes, name, n) > 0) && (m.dom().contains(name) ==> m[name]
            == dwell(regimes, name, n))
}

/// Whether a map counts the steps among the first `n`.
pub open spec fn counts_steps(m: Map<Seq<char>, u64>, regimes: Seq<Seq<char>>, n: nat) -> bool {
    forall|name: Seq<char>|
        (#[trigger] m.dom().contains(name) <==> step_count(regimes, name, n) > 0) && (m.dom().contains(name)
            ==> m[name] == step_count(regimes, name, n))
}

fn count_up(m: &mut StrMap<u64>, key: String)
    requires
        old(m)@.dom().contains(key@) ==> old(m)@[key@] < u64::MAX,
    ensures
        final(m)@ == old(m)@.insert(
            key@,
            if old(m)@.dom().contains(key@) {
                (old(m)@[key@] + 1) as u64
            } else {
                1
            },
        ),
{
    let n: u64 = match m.get(key.as_str()) {
        Some(n) => *n + 1,
        None => 1,
    };
    let _ = m.insert(key, n);
}

proof fn lemma_dwell_bounded(regimes: Seq<Seq<char>>, name: Seq<char>, n: nat)
    ensures
        dwell(regimes, name, n) <= n,
    decreases n,
{
    if n > 0 {
        lemma_dwell_bounded(regimes, name, (n - 1) as nat);
    }
}

proof fn lemma_steps_bounded(regimes: Seq<Seq<char>>, name: Seq<char>, n: nat)
    ensures
        step_count(regimes, name, n) <= n,
    decreases n,
{
    if n > 0 {
        lemma_steps_bounded(regimes, name, (n - 1) as nat);
    }
}

/// The regimes of the buckets of a trace, one after the other, summed up.
pub fn regime_path(regimes: &Vec<String>) -> (r: RegimePath)
    ensures
        counts_dwell(r.dwell_buckets@, texts(regimes@), regimes@.len()),
        ({
            let steps = (if regimes@.len() == 0 { 0 } else { regimes@.len() - 1 }) as nat;
            &&& counts_steps(r.transition_counts@, texts(regimes@), steps)
            &&& r.transition_sequence@.len() == steps
            &&& forall|i: int|
                0 <= i < steps ==> (#[trigger] r.transition_sequence@[i])@ == step_name(texts(regimes@), i)
            &&& r.sticky == sticky_count(texts(regimes@), steps)
            &&& r.total_transitions == steps
        }),
{
    let ghost seq = texts(regimes@);
    let mut dwell_buckets: StrMap<u64> = StrMap::new();
    let mut i: usize = 0;
    while i < regimes.len()
        invariant
            0 <= i <= regimes@.len(),
            seq == texts(regimes@),
            counts_dwell(dwell_buckets@, seq, i as nat),
        decreases regimes@.len() - i,
    {
        let ghost before = dwell_buckets@;
        proof {
            lemma_dwell_bounded(seq, seq[i as int], i as nat);
            assert(seq[i as int] == regimes@[i as int]@);
        }
        count_up(&mut dwell_buckets, regimes[i].clone());
        proof {
            assert forall|name: Seq<char>|
                (#[trigger] dwell_buckets@.dom().contains(name) <==> dwell(seq, name, (i + 1) as nat) > 0) && (
                dwell_buckets@.dom().contains(name) ==> dwell_buckets@[name] == dwell(seq, name, (i + 1) as nat)) by {
                assert(before.dom().contains(name) <==> dwell(seq, name, i as nat) > 0);
            }
        }
        i += 1;
    }
    let mut transition_counts: StrMap<u64> = StrMap::new();
    let mut transition_sequence: Vec<String> = Vec::new();
    let mut sticky: u64 = 0;
    let steps: usize = if regimes.len() == 0 {
        0
    } else {
        regimes.len() - 1
    };
    let mut k: usize = 0;
    while k < steps
        invariant
            0 <= k <= steps,
            steps == (if regimes@.len() == 0 {
                0
            } else {
                regimes@.len() - 1
            }),
            seq == texts(regimes@),
            counts_steps(transition_counts@, seq, k as nat),
            transition_sequence@.len() == k,
            forall|j: int| 0 <= j < k ==> (#[trigger] transition_sequence@[j])@ == step_name(seq, j),
            sticky == sticky_count(seq, k as nat),
            sticky <= k,
        decreases steps - k,
    {
        let ghost before = transition_counts@;
        let mut key = join2(regimes[k].as_str(), "->");
        key.append(regimes[k + 1].as_str());
        proof {
            assert(key@ =~= step_name(seq, k as int));
            lemma_steps_bounded(seq, step_name(seq, k as int), k as nat);
        }
        count_up(&mut transition_counts, key.clone());
        transition_sequence.push(key);
        if str_eq(regimes[k].as_str(), regimes[k + 1].as_str()) {
            sticky += 1;
        }
        proof {
            assert forall|name: Seq<char>|
                (#[trigger] transition_counts@.dom().contains(name) <==> step_count(seq, name, (k + 1) as nat) > 0)
                    && (transition_counts@.dom().contains(name) ==> transition_counts@[name] == step_count(
                    seq,
                    name,
                    (k + 1) as nat,
                )) by {
                assert(before.dom().contains(name) <==> step_count(seq, name, k as nat) > 0);
            }
        }
        k += 1;
    }
    RegimePath { dwell_buckets, transition_counts, transition_sequence, sticky, total_transitions: k as u64 }
}

/// Every time falls into one bucket, and no bucket lies behind the last.
pub proof fn law_times_are_bucketed_once(ts: Seq<u64>, bucket_ms: u64, n: nat, i: int)
    requires
        0 <= i < n <= ts.len() <= usize::MAX,
        bucket_ms > 0,
    ensures
        bucket_of(ts[i], bucket_ms) <= last_bucket(ts, bucket_ms, n),
        in_bucket(ts, bucket_ms, bucket_of(ts[i], bucket_ms), n).contains(i as usize),
    decreases n,
{
    let b = bucket_of(ts[i], bucket_ms);
    let before = in_bucket(ts, bucket_ms, b, (n - 1) as nat);
    let now = in_bucket(ts, bucket_ms, b, n);
    if i < n - 1 {
        law_times_are_bucketed_once(ts, bucket_ms, (n - 1) as nat, i);
        assert(now[before.index_of(i as usize)] == i as usize);
    } else {
        assert(now[before.len() as int] == i as usize);
    }
}

} // verus!
