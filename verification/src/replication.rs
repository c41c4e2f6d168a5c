//! Replication of a log: which entries of a batch a replica applies, and how far it then is.
use crate::recovery::{mark_after, WalEntry};
use vstd::prelude::*;

verus! {

/// How far a replica has followed its source.
#[derive(Debug, Clone, Copy, PartialEq, Eq, Structural)]
pub struct ReplicationCheckpoint {
    pub last_applied_source_sequence: u64,
}

impl Default for ReplicationCheckpoint {
    fn default() -> (r: Self)
        ensures
            r.last_applied_source_sequence == 0,
    {
        ReplicationCheckpoint { last_applied_source_sequence: 0 }
    }
}

/// Entries of the source's log.
#[derive(Debug, PartialEq, Eq)]
pub struct ReplicationBatch {
    pub entries: Vec<WalEntry>,
}

impl Clone for ReplicationBatch {
    fn clone(&self) -> (r: Self)
        ensures
            r.entries@.len() == self.entries@.len(),
            forall|i: int|
                0 <= i < r.entries@.len() ==> (#[trigger] r.entries@[i]).sequence == self.entries@[i].sequence
                    && r.entries@[i].payload@ == self.entries@[i].payload@,
    {
        let mut entries: Vec<WalEntry> = Vec::new();
        let mut i: usize = 0;
        while i < self.entries.len()
            invariant
                0 <= i <= self.entries@.len(),
                entries@.len() == i,
                forall|k: int|
                    0 <= k < i ==> (#[trigger] entries@[k]).sequence == self.entries@[k].sequence
                        && entries@[k].payload@ == self.entries@[k].payload@,
            decreases self.entries@.len() - i,
        {
            entries.push(self.entries[i].clone());
            i += 1;
        }
        ReplicationBatch { entries }
    }
}

/// What became of a batch.
#[derive(Debug, Clone, Copy, PartialEq, Eq, Structural)]
pub struct ReplicationApplyReport {
    pub applied: usize,
    pub skipped_replay: usize,
    pub checkpoint_after: ReplicationCheckpoint,
}

/// The first sequence that a replica still needs.
pub fn next_sequence(checkpoint: ReplicationCheckpoint) -> (r: u64)
    ensures
        r == (if checkpoint.last_applied_source_sequence == u64::MAX {
            u64::MAX
        } else {
            (checkpoint.last_applied_source_sequence + 1) as u64
        }),
{
    checkpoint.last_applied_source_sequence.saturating_add(1)
}

/// Which of the first `n` entries are applied: those beyond the mark that they find.
pub open spec fn to_apply(entries: Seq<WalEntry>, mark: u64, n: nat) -> Seq<usize>
    decreases n,
{
    if n == 0 {
        Seq::empty()
    } else {
        let before = to_apply(entries, mark, (n - 1) as nat);
        if entries[n - 1].sequence > mark_after(entries, mark, (n - 1) as nat) {
            before.push((n - 1) as usize)
        } else {
            before
        }
    }
}

/// The positions of the entries that a replica applies, in order, and the report once it has
/// applied them; the others were applied before.
pub fn plan_batch(checkpoint: ReplicationCheckpoint, entries: &[WalEntry]) -> (r: (Vec<usize>, ReplicationApplyReport))
    ensures
        r.0@ == to_apply(entries@, checkpoint.last_applied_source_sequence, entries@.len()),
        r.1.applied == r.0@.len(),
        r.1.skipped_replay == entries@.len() - r.0@.len(),
        r.1.checkpoint_after.last_applied_source_sequence == mark_after(
            entries@,
            checkpoint.last_applied_source_sequence,
            entries@.len(),
        ),
{
    let start: u64 = checkpoint.last_applied_source_sequence;
    let mut mark: u64 = start;
    let mut apply: Vec<usize> = Vec::new();
    let mut skipped: usize = 0;
    let mut i: usize = 0;
    while i < entries.len()
        invariant
            0 <= i <= entries@.len(),
            mark == mark_after(entries@, start, i as nat),
            apply@ == to_apply(entries@, start, i as nat),
            skipped + apply@.len() == i,
        decreases entries@.len() - i,
    {
        if entries[i].sequence > mark {
            apply.push(i);
            mark = entries[i].sequence;
        } else {
            skipped += 1;
        }
        i += 1;
    }
    let applied: usize = apply.len();
    let report = ReplicationApplyReport {
        applied,
        skipped_replay: skipped,
        checkpoint_after: ReplicationCheckpoint { last_applied_source_sequence: mark },
    };
    (apply, report)
}

/// A checkpoint never goes back, and no entry of the batch lies beyond it afterwards.
pub proof fn law_checkpoint_advances(entries: Seq<WalEntry>, mark: u64, n: nat)
    requires
        n <= entries.len(),
    ensures
        mark_after(entries, mark, n) >= mark,
        forall|i: int| 0 <= i < n ==> (#[trigger] entries[i]).sequence <= mark_after(entries, mark, n),
    decreases n,
{
    if n > 0 {
        law_checkpoint_advances(entries, mark, (n - 1) as nat);
    }
}

/// A batch that comes again is skipped as a whole.
pub proof fn law_replayed_batch_is_skipped(entries: Seq<WalEntry>, mark: u64)
    ensures
        ({
            let after = mark_after(entries, mark, entries.len());
            &&& to_apply(entries, after, entries.len()).len() == 0
            &&& mark_after(entries, after, entries.len()) == after
        }),
{
    law_checkpoint_advances(entries, mark, entries.len());
    lemma_nothing_beyond(entries, mark_after(entries, mark, entries.len()), entries.len());
}

proof fn lemma_nothing_beyond(entries: Seq<WalEntry>, mark: u64, n: nat)
    requires
        n <= entries.len(),
        forall|i: int| 0 <= i < n ==> (#[trigger] entries[i]).sequence <= mark,
    ensures
        to_apply(entries, mark, n).len() == 0,
        mark_after(entries, mark, n) == mark,
    decreases n,
{
    if n > 0 {
        lemma_nothing_beyond(entries, mark, (n - 1) as nat);
    }
}

/// A log in order is applied without gaps: of entries with rising sequences exactly those
/// beyond the checkpoint are applied.
pub proof fn law_ordered_entries_are_applied(entries: Seq<WalEntry>, mark: u64, n: nat, i: int)
    requires
        0 <= i < n <= entries.len() <= usize::MAX,
        forall|a: int, b: int|
            0 <= a < b < entries.len() ==> (#[trigger] entries[a]).sequence < (#[trigger] entries[b]).sequence,
    ensures
        entries[i].sequence > mark ==> to_apply(entries, mark, n).contains(i as usize),
    decreases n,
{
    let before = to_apply(entries, mark, (n - 1) as nat);
    let now = to_apply(entries, mark, n);
    if i < n - 1 {
        law_ordered_entries_are_applied(entries, mark, (n - 1) as nat, i);
        if before.contains(i as usize) {
            assert(now[before.index_of(i as usize)] == i as usize);
        }
    } else {
        lemma_mark_below(entries, mark, (n - 1) as nat);
        if entries[i].sequence > mark {
            assert(now[before.len() as int] == i as usize);
        }
    }
}

proof fn lemma_mark_below(entries: Seq<WalEntry>, mark: u64, n: nat)
    requires
        n <= entries.len(),
        forall|a: int, b: int|
            0 <= a < b < entries.len() ==> (#[trigger] entries[a]).sequence < (#[trigger] entries[b]).sequence,
    ensures
        mark_after(entries, mark, n) == mark || (n > 0 && mark_after(entries, mark, n) == entries[n - 1].sequence),
    decreases n,
{
    if n > 0 {
        lemma_mark_below(entries, mark, (n - 1) as nat);
        if n > 1 {
            assert(entries[n - 2].sequence < entries[n - 1].sequence);
        }
    }
}

} // verus!
