//! Recovery at startup: which log entries are not yet in the strand pool.
use crate::model::StrandView;
use crate::processor::is_wal_strand;
use crate::storage::{frames, pool_holds, starts_frame, top_version};
use crate::support::bytes::copy_bytes;
use vstd::prelude::*;

verus! {

/// An entry of the write-ahead log.
#[derive(Debug, PartialEq, Eq)]
pub struct WalEntry {
    pub sequence: u64,
    pub payload: Vec<u8>,
}

impl Clone for WalEntry {
    fn clone(&self) -> (r: Self)
        ensures
            r.sequence == self.sequence,
            r.payload@ == self.payload@,
    {
        WalEntry { sequence: self.sequence, payload: copy_bytes(self.payload.as_slice()) }
    }
}

/// What a replay did.
#[derive(Debug, Clone, Copy, PartialEq, Eq, Structural)]
pub struct RecoveryStats {
    /// The highest sequence in the strand pool before the replay.
    pub pool_high_water_before: u64,
    /// How many entries were applied.
    pub replayed: usize,
}

/// The positions of the first `n` entries whose sequence lies above the mark, in order.
pub open spec fn pending(entries: Seq<WalEntry>, mark: u64, n: nat) -> Seq<usize>
    decreases n,
{
    if n == 0 {
        Seq::empty()
    } else {
        let before = pending(entries, mark, (n - 1) as nat);
        if entries[n - 1].sequence > mark {
            before.push((n - 1) as usize)
        } else {
            before
        }
    }
}

/// The mark after the first `n` entries: each entry beyond the mark is applied and becomes the
/// mark.
pub open spec fn mark_after(entries: Seq<WalEntry>, mark: u64, n: nat) -> u64
    decreases n,
{
    if n == 0 {
        mark
    } else {
        let before = mark_after(entries, mark, (n - 1) as nat);
        if entries[n - 1].sequence > before {
            entries[n - 1].sequence
        } else {
            before
        }
    }
}

/// The positions of the entries to replay, in order, and the statistics of the replay.
pub fn plan_replay(entries: &[WalEntry], pool_high_water: u64) -> (r: (Vec<usize>, RecoveryStats))
    ensures
        r.0@ == pending(entries@, pool_high_water, entries@.len()),
        r.1.pool_high_water_before == pool_high_water,
        r.1.replayed == r.0@.len(),
{
    let mut out: Vec<usize> = Vec::new();
    let mut i: usize = 0;
    while i < entries.len()
        invariant
            0 <= i <= entries@.len(),
            out@ == pending(entries@, pool_high_water, i as nat),
        decreases entries@.len() - i,
    {
        if entries[i].sequence > pool_high_water {
            out.push(i);
        }
        i += 1;
    }
    let replayed: usize = out.len();
    (out, RecoveryStats { pool_high_water_before: pool_high_water, replayed })
}

proof fn lemma_mark_bounds(entries: Seq<WalEntry>, mark: u64, n: nat)
    requires
        n <= entries.len(),
    ensures
        mark_after(entries, mark, n) >= mark,
        forall|i: int| 0 <= i < n ==> (#[trigger] entries[i]).sequence <= mark_after(entries, mark, n),
    decreases n,
{
    if n > 0 {
        lemma_mark_bounds(entries, mark, (n - 1) as nat);
    }
}

/// A replay leaves nothing to replay: with the mark that it reaches, no entry is pending.
pub proof fn law_replay_is_idempotent(entries: Seq<WalEntry>, mark: u64)
    ensures
        pending(entries, mark_after(entries, mark, entries.len()), entries.len()).len() == 0,
{
    lemma_mark_bounds(entries, mark, entries.len());
    lemma_none_pending(entries, mark_after(entries, mark, entries.len()), entries.len());
}

proof fn lemma_none_pending(entries: Seq<WalEntry>, mark: u64, n: nat)
    requires
        n <= entries.len(),
        forall|i: int| 0 <= i < n ==> (#[trigger] entries[i]).sequence <= mark,
    ensures
        pending(entries, mark, n).len() == 0,
    decreases n,
{
    if n > 0 {
        lemma_none_pending(entries, mark, (n - 1) as nat);
    }
}

/// A replay applies exactly the entries above the mark.
pub proof fn law_pending_is_exact(entries: Seq<WalEntry>, mark: u64, n: nat, i: int)
    requires
        0 <= i < n <= entries.len() <= usize::MAX,
    ensures
        pending(entries, mark, n).contains(i as usize) <==> entries[i].sequence > mark,
    decreases n,
{
    let before = pending(entries, mark, (n - 1) as nat);
    let now = pending(entries, mark, n);
    lemma_pending_below(entries, mark, (n - 1) as nat);
    if i < n - 1 {
        law_pending_is_exact(entries, mark, (n - 1) as nat, i);
        if before.contains(i as usize) {
            let k = before.index_of(i as usize);
            assert(now[k] == i as usize);
        }
        if now.contains(i as usize) {
            let k = now.index_of(i as usize);
            if k < before.len() {
                assert(before[k] == i as usize);
            }
        }
    } else {
        if entries[i].sequence > mark {
            assert(now[before.len() as int] == i as usize);
        } else if now.contains(i as usize) {
            let k = now.index_of(i as usize);
            assert(before[k] == i as usize);
        }
    }
}

proof fn lemma_pending_below(entries: Seq<WalEntry>, mark: u64, n: nat)
    requires
        n <= entries.len() <= usize::MAX,
    ensures
        forall|k: int| 0 <= k < pending(entries, mark, n).len() ==> #[trigger] pending(entries, mark, n)[k] < n,
    decreases n,
{
    if n > 0 {
        lemma_pending_below(entries, mark, (n - 1) as nat);
        let before = pending(entries, mark, (n - 1) as nat);
        let now = pending(entries, mark, n);
        assert forall|k: int| 0 <= k < now.len() implies #[trigger] now[k] < n by {
            if k < before.len() {
                assert(before[k] < n - 1);
            }
        }
    }
}

/// A replay counts the entries above the mark and takes them in the order of the log.
pub proof fn law_pending_counts_in_order(entries: Seq<WalEntry>, mark: u64, n: nat)
    requires
        n <= entries.len() <= usize::MAX,
    ensures
        pending(entries, mark, n).len() == entries.take(n as int).filter(|e: WalEntry| e.sequence > mark).len(),
        forall|j: int, k: int|
            0 <= j < k < pending(entries, mark, n).len() ==> #[trigger] pending(entries, mark, n)[j]
                < #[trigger] pending(entries, mark, n)[k],
    decreases n,
{
    let above = |e: WalEntry| e.sequence > mark;
    let now = pending(entries, mark, n);
    if n == 0 {
        assert(entries.take(0).filter(above) =~= Seq::<WalEntry>::empty()) by {
            reveal(Seq::filter);
        }
    } else {
        let before = pending(entries, mark, (n - 1) as nat);
        law_pending_counts_in_order(entries, mark, (n - 1) as nat);
        lemma_pending_below(entries, mark, (n - 1) as nat);
        assert(entries.take(n as int).drop_last() =~= entries.take(n - 1));
        assert(entries.take(n as int).last() == entries[n - 1]);
        assert(now.len() == entries.take(n as int).filter(above).len()) by {
            reveal(Seq::filter);
        }
        assert forall|j: int, k: int| 0 <= j < k < now.len() implies #[trigger] now[j] < #[trigger] now[k] by {
            assert(now[j] == before[j]);
            if k < before.len() {
                assert(now[k] == before[k]);
            }
        }
    }
}

/// Whether `ws` are the strands of the entries to replay, one for each and in order.
pub open spec fn replays(ws: Seq<StrandView>, entries: Seq<WalEntry>, mark: u64, collection_id: u32) -> bool {
    let at = pending(entries, mark, entries.len());
    &&& ws.len() == at.len()
    &&& forall|k: int|
        0 <= k < ws.len() ==> is_wal_strand(
            #[trigger] ws[k],
            collection_id,
            entries[at[k] as int].sequence,
            entries[at[k] as int].payload@,
            ws[k].created_at,
        )
}

proof fn lemma_pending_prefix(entries: Seq<WalEntry>, mark: u64, n: nat, m: nat)
    requires
        n <= m,
    ensures
        pending(entries, mark, n).is_prefix_of(pending(entries, mark, m)),
    decreases m,
{
    if n < m {
        lemma_pending_prefix(entries, mark, n, (m - 1) as nat);
    }
}

proof fn lemma_top_after(entries: Seq<WalEntry>, vs: Seq<StrandView>, ws: Seq<StrandView>, collection_id: u32, n: nat)
    requires
        n <= entries.len() <= usize::MAX,
        replays(ws, entries, top_version(vs), collection_id),
    ensures
        pending(entries, top_version(vs), n).len() <= ws.len(),
        top_version(vs + ws.take(pending(entries, top_version(vs), n).len() as int)) == mark_after(
            entries,
            top_version(vs),
            n,
        ),
    decreases n,
{
    let mark = top_version(vs);
    lemma_pending_prefix(entries, mark, n, entries.len());
    if n == 0 {
        assert(vs + ws.take(0) =~= vs);
    } else {
        lemma_top_after(entries, vs, ws, collection_id, (n - 1) as nat);
        lemma_mark_bounds(entries, mark, (n - 1) as nat);
        let before = pending(entries, mark, (n - 1) as nat);
        let c = before.len() as int;
        if entries[n - 1].sequence > mark {
            let at = pending(entries, mark, entries.len());
            assert(pending(entries, mark, n)[c] == at[c]);
            assert(ws[c].version == entries[n - 1].sequence);
            assert((vs + ws.take(c + 1)).drop_last() =~= vs + ws.take(c));
            assert((vs + ws.take(c + 1)).last() == ws[c]);
        }
    }
}

proof fn lemma_frames_join(vs: Seq<StrandView>, ws: Seq<StrandView>)
    ensures
        frames(vs + ws) == frames(vs) + frames(ws),
    decreases ws.len(),
{
    if ws.len() == 0 {
        assert(vs + ws =~= vs);
        assert(frames(vs) + frames(ws) =~= frames(vs));
    } else {
        lemma_frames_join(vs, ws.drop_last());
        assert((vs + ws).drop_last() =~= vs + ws.drop_last());
        assert((vs + ws).last() == ws.last());
        assert(frames(vs + ws) =~= frames(vs) + frames(ws));
    }
}

/// A replay brings the pool up to the log. Where the strands of the pending entries are
/// written behind those that the pool holds, the pool holds its old strands followed by one
/// for each pending entry, in the order of the log; its highest version is the mark that the
/// replay reaches; and a second replay finds nothing to apply.
pub proof fn law_replay_completes_the_pool(
    entries: Seq<WalEntry>,
    vs: Seq<StrandView>,
    ws: Seq<StrandView>,
    collection_id: u32,
    rest: Seq<u8>,
)
    requires
        entries.len() <= usize::MAX,
        replays(ws, entries, top_version(vs), collection_id),
        !starts_frame(rest),
    ensures
        pool_holds(frames(vs) + frames(ws) + rest, vs + ws),
        top_version(vs + ws) == mark_after(entries, top_version(vs), entries.len()),
        pending(entries, top_version(vs + ws), entries.len()).len() == 0,
{
    lemma_top_after(entries, vs, ws, collection_id, entries.len());
    assert(ws.take(ws.len() as int) =~= ws);
    law_replay_is_idempotent(entries, top_version(vs));
    lemma_frames_join(vs, ws);
    let pool = frames(vs) + frames(ws) + rest;
    assert(pool.skip(frames(vs + ws).len() as int) =~= rest);
}

} // verus!
