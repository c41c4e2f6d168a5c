//! The background materializer: what a tick decodes, when it ends, and how long it then
//! sleeps.
use crate::json_value::{json_in, parse_json};
use crate::recovery::WalEntry;
use vstd::prelude::*;

verus! {

/// A tick of the materializer.
#[derive(Debug, Clone, Copy, PartialEq, Eq, Structural)]
pub struct MaterializerTick {
    /// The last sequence that was applied.
    pub last_applied_seq: u64,
    /// How many rounds are left.
    pub rounds_left: usize,
    /// Whether this tick has applied anything.
    pub applied_any: bool,
    /// How many sequences waited after the last round.
    pub pending_after: u64,
}

/// The highest of a sequence and some others.
pub open spec fn highest(start: u64, seqs: Seq<u64>) -> u64
    decreases seqs.len(),
{
    if seqs.len() == 0 {
        start
    } else {
        let before = highest(start, seqs.drop_last());
        if before < seqs.last() {
            seqs.last()
        } else {
            before
        }
    }
}

/// The sequences of the first `n` journal entries whose payload is JSON.
pub open spec fn readable_sequences(entries: Seq<WalEntry>, n: nat) -> Seq<u64>
    decreases n,
{
    if n == 0 {
        Seq::empty()
    } else {
        let before = readable_sequences(entries, (n - 1) as nat);
        if json_in(entries[n - 1].payload@) is Some {
            before.push(entries[n - 1].sequence)
        } else {
            before
        }
    }
}

/// The documents of the first `n` journal entries whose payload is JSON.
pub open spec fn readable_values(entries: Seq<WalEntry>, n: nat) -> Seq<serde_json::Value>
    decreases n,
{
    if n == 0 {
        Seq::empty()
    } else {
        let before = readable_values(entries, (n - 1) as nat);
        match json_in(entries[n - 1].payload@) {
            Some(v) => before.push(v),
            None => before,
        }
    }
}

/// The documents among journal entries, with their sequences; an entry that is no JSON is left
/// out.
pub fn readable_documents(entries: &[WalEntry]) -> (r: (Vec<serde_json::Value>, Vec<u64>))
    ensures
        r.0@ == readable_values(entries@, entries@.len()),
        r.1@ == readable_sequences(entries@, entries@.len()),
        r.0@.len() == r.1@.len(),
{
    let mut docs: Vec<serde_json::Value> = Vec::new();
    let mut sequences: Vec<u64> = Vec::new();
    let mut i: usize = 0;
    while i < entries.len()
        invariant
            0 <= i <= entries@.len(),
            docs@ == readable_values(entries@, i as nat),
            sequences@ == readable_sequences(entries@, i as nat),
            docs@.len() == sequences@.len(),
        decreases entries@.len() - i,
    {
        if let Some(doc) = parse_json(entries[i].payload.as_slice()) {
            docs.push(doc);
            sequences.push(entries[i].sequence);
        }
        i += 1;
    }
    (docs, sequences)
}

/// `a - b`, at least zero.
pub open spec fn left_over(a: u64, b: u64) -> u64 {
    if a < b {
        0
    } else {
        (a - b) as u64
    }
}

/// The tick after a round that applied `applied` of the decoded entries up to `max_seq`, with
/// the log at `high_water`, if that is known.
pub open spec fn after_round(t: MaterializerTick, applied: u64, max_seq: u64, high_water: Option<u64>) -> MaterializerTick {
    let last = if applied > 0 {
        max_seq
    } else {
        t.last_applied_seq
    };
    MaterializerTick {
        last_applied_seq: last,
        rounds_left: if applied > 0 && t.rounds_left > 0 {
            (t.rounds_left - 1) as usize
        } else {
            0
        },
        applied_any: t.applied_any || applied > 0,
        pending_after: left_over(
            match high_water {
                Some(h) => h,
                None => last,
            },
            last,
        ),
    }
}

impl MaterializerTick {
    /// A tick of at most `max_batches` rounds, at least one.
    pub fn begin(last_applied_seq: u64, max_batches: usize) -> (r: Self)
        ensures
            r == (MaterializerTick {
                last_applied_seq,
                rounds_left: if max_batches < 1 {
                    1
                } else {
                    max_batches
                },
                applied_any: false,
                pending_after: 0,
            }),
    {
        MaterializerTick {
            last_applied_seq,
            rounds_left: if max_batches < 1 {
                1
            } else {
                max_batches
            },
            applied_any: false,
            pending_after: 0,
        }
    }

    /// What the next round decodes: the first sequence, and how many entries, at least one;
    /// nothing when the tick has ended.
    pub fn request(&self, batch: usize) -> (r: Option<(u64, usize)>)
        ensures
            r == (if self.rounds_left == 0 {
                None
            } else {
                Some(
                    (
                        if self.last_applied_seq == u64::MAX {
                            u64::MAX
                        } else {
                            (self.last_applied_seq + 1) as u64
                        },
                        if batch < 1 {
                            1
                        } else {
                            batch
                        },
                    ),
                )
            }),
    {
        if self.rounds_left == 0 {
            return None;
        }
        let size: usize = if batch < 1 {
            1
        } else {
            batch
        };
        Some((self.last_applied_seq.saturating_add(1), size))
    }

    /// The highest sequence among the entries of a round that could be read.
    pub fn max_sequence(&self, readable: &[u64]) -> (r: u64)
        ensures
            r == highest(self.last_applied_seq, readable@),
    {
        let mut best: u64 = self.last_applied_seq;
        let mut i: usize = 0;
        proof {
            assert(readable@.take(0) =~= Seq::<u64>::empty());
        }
        while i < readable.len()
            invariant
                0 <= i <= readable@.len(),
                best == highest(self.last_applied_seq, readable@.take(i as int)),
            decreases readable@.len() - i,
        {
            proof {
                assert(readable@.take(i + 1).drop_last() =~= readable@.take(i as int));
            }
            if best < readable[i] {
                best = readable[i];
            }
            i += 1;
        }
        proof {
            assert(readable@.take(readable@.len() as int) =~= readable@);
        }
        best
    }

    /// What a round applies: the documents of its entries, and the highest sequence once they are
    /// applied. An entry that is no JSON counts for neither.
    pub fn round_documents(&self, entries: &[WalEntry]) -> (r: (Vec<serde_json::Value>, u64))
        ensures
            r.0@ == readable_values(entries@, entries@.len()),
            r.1 == highest(self.last_applied_seq, readable_sequences(entries@, entries@.len())),
    {
        let (docs, sequences) = readable_documents(entries);
        let max: u64 = self.max_sequence(sequences.as_slice());
        (docs, max)
    }

    /// Ends a tick that found nothing to decode.
    pub fn nothing_decoded(&mut self)
        ensures
            *final(self) == (MaterializerTick { rounds_left: 0, ..*old(self) }),
    {
        self.rounds_left = 0;
    }

    /// Notes what a round applied.
    pub fn round_applied(&mut self, applied: u64, max_seq: u64, high_water: Option<u64>)
        ensures
            *final(self) == after_round(*old(self), applied, max_seq, high_water),
    {
        if applied > 0 {
            self.last_applied_seq = max_seq;
            self.applied_any = true;
            if self.rounds_left > 0 {
                self.rounds_left = self.rounds_left - 1;
            }
        } else {
            self.rounds_left = 0;
        }
        let mark: u64 = match high_water {
            Some(h) => h,
            None => self.last_applied_seq,
        };
        self.pending_after = mark.saturating_sub(self.last_applied_seq);
    }

    /// How long to sleep after the tick: the idle time when nothing waits or nothing was
    /// applied, else the interval.
    pub fn sleep_ms(&self, interval_ms: u64, idle_ms: u64) -> (r: u64)
        ensures
            r == (if self.pending_after == 0 || !self.applied_any {
                idle_ms
            } else {
                interval_ms
            }),
    {
        if self.pending_after == 0 || !self.applied_any {
            idle_ms
        } else {
            interval_ms
        }
    }
}

/// The applied sequence never goes back, and every round that goes on uses one up.
pub proof fn law_rounds_advance(t: MaterializerTick, applied: u64, readable: Seq<u64>, high_water: Option<u64>)
    requires
        t.rounds_left > 0,
    ensures
        ({
            let u = after_round(t, applied, highest(t.last_applied_seq, readable), high_water);
            u.last_applied_seq >= t.last_applied_seq && u.rounds_left < t.rounds_left
        }),
{
    lemma_highest(t.last_applied_seq, readable);
}

proof fn lemma_highest(start: u64, seqs: Seq<u64>)
    ensures
        highest(start, seqs) >= start,
    decreases seqs.len(),
{
    if seqs.len() > 0 {
        lemma_highest(start, seqs.drop_last());
    }
}

} // verus!
