//! Rows that are watched until a query sees them. Times are nanoseconds.
use vstd::prelude::*;

verus! {

/// A checkpoint of a sustained run, and when its row was first seen, counted from the time at
/// which the checkpoint was reached.
#[derive(Debug, Clone, Copy, PartialEq, Eq, Structural)]
pub struct Checkpoint {
    pub total_raw_rows: u64,
    pub window_rows: u64,
    pub max_lag_sampled_in_window: u64,
    pub visible_after_ns: Option<u64>,
}

/// A row that no query has seen yet.
#[derive(Debug, Clone, Copy, PartialEq, Eq, Structural)]
pub struct Probe {
    pub row: u64,
    pub since_ns: u64,
}

/// The first checkpoint from `k` on that stands for a row.
pub open spec fn checkpoint_of(cs: Seq<Checkpoint>, row: u64, k: int) -> Option<int>
    decreases cs.len() - k,
{
    if k < 0 || k >= cs.len() {
        None
    } else if cs[k].total_raw_rows == row {
        Some(k)
    } else {
        checkpoint_of(cs, row, k + 1)
    }
}

/// The checkpoints once a row was seen.
pub open spec fn marked(cs: Seq<Checkpoint>, row: u64, after_ns: u64) -> Seq<Checkpoint> {
    match checkpoint_of(cs, row, 0) {
        Some(k) => cs.update(k, Checkpoint { visible_after_ns: Some(after_ns), ..cs[k] }),
        None => cs,
    }
}

/// The checkpoints once the first `n` probes were tried; `seen` says of each when its row was
/// seen, if it was.
pub open spec fn all_marked(cs: Seq<Checkpoint>, probes: Seq<Probe>, seen: Seq<Option<u64>>, n: nat) -> Seq<
    Checkpoint,
>
    decreases n,
{
    if n == 0 {
        cs
    } else {
        let before = all_marked(cs, probes, seen, (n - 1) as nat);
        match seen[n - 1] {
            Some(t) => marked(before, probes[n - 1].row, t),
            None => before,
        }
    }
}

/// The probes among the first `n` whose rows were not seen.
pub open spec fn unseen(probes: Seq<Probe>, seen: Seq<Option<u64>>, n: nat) -> Seq<Probe>
    decreases n,
{
    if n == 0 {
        Seq::empty()
    } else {
        let before = unseen(probes, seen, (n - 1) as nat);
        if seen[n - 1] is None {
            before.push(probes[n - 1])
        } else {
            before
        }
    }
}

fn mark(cs: &mut Vec<Checkpoint>, row: u64, after_ns: u64)
    ensures
        final(cs)@ == marked(old(cs)@, row, after_ns),
{
    let ghost before = cs@;
    let mut k: usize = 0;
    while k < cs.len() && cs[k].total_raw_rows != row
        invariant
            0 <= k <= cs@.len(),
            cs@ == before,
            checkpoint_of(before, row, 0) == checkpoint_of(before, row, k as int),
        decreases cs@.len() - k,
    {
        k += 1;
    }
    if k < cs.len() {
        let mut c = cs[k];
        c.visible_after_ns = Some(after_ns);
        cs.set(k, c);
    }
}

/// Drops the probes whose rows were seen and notes in the checkpoints when that was.
pub fn resolve_vis_probes(probes: &Vec<Probe>, seen: &Vec<Option<u64>>, checkpoints: &mut Vec<Checkpoint>) -> (r: Vec<
    Probe,
>)
    requires
        seen@.len() == probes@.len(),
    ensures
        r@ == unseen(probes@, seen@, probes@.len()),
        final(checkpoints)@ == all_marked(old(checkpoints)@, probes@, seen@, probes@.len()),
{
    let ghost before = checkpoints@;
    let mut out: Vec<Probe> = Vec::new();
    let mut i: usize = 0;
    while i < probes.len()
        invariant
            0 <= i <= probes@.len(),
            seen@.len() == probes@.len(),
            out@ == unseen(probes@, seen@, i as nat),
            checkpoints@ == all_marked(before, probes@, seen@, i as nat),
        decreases probes@.len() - i,
    {
        match seen[i] {
            Some(t) => {
                mark(checkpoints, probes[i].row, t);
            },
            None => {
                out.push(probes[i]);
            },
        }
        i += 1;
    }
    out
}

proof fn lemma_checkpoint_of(cs: Seq<Checkpoint>, row: u64, k: int)
    requires
        0 <= k,
    ensures
        match checkpoint_of(cs, row, k) {
            Some(j) => k <= j < cs.len() && cs[j].total_raw_rows == row,
            None => true,
        },
    decreases cs.len() - k,
{
    if k < cs.len() && cs[k].total_raw_rows != row {
        lemma_checkpoint_of(cs, row, k + 1);
    }
}

/// Probing changes no count of a checkpoint, and forgets no time that was noted.
pub proof fn law_probing_keeps_the_counts(cs: Seq<Checkpoint>, probes: Seq<Probe>, seen: Seq<Option<u64>>, n: nat, i: int)
    requires
        n <= probes.len(),
        seen.len() == probes.len(),
        0 <= i < cs.len(),
    ensures
        all_marked(cs, probes, seen, n).len() == cs.len(),
        ({
            let after = all_marked(cs, probes, seen, n)[i];
            &&& after.total_raw_rows == cs[i].total_raw_rows
            &&& after.window_rows == cs[i].window_rows
            &&& after.max_lag_sampled_in_window == cs[i].max_lag_sampled_in_window
            &&& cs[i].visible_after_ns is Some ==> after.visible_after_ns is Some
        }),
    decreases n,
{
    if n > 0 {
        law_probing_keeps_the_counts(cs, probes, seen, (n - 1) as nat, i);
        let before = all_marked(cs, probes, seen, (n - 1) as nat);
        lemma_checkpoint_of(before, probes[n - 1].row, 0);
    }
}

} // verus!
