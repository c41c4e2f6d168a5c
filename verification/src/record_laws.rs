//! Calls on versions, transactions, pools, logs and the audit log, one after the other.
use crate::audit::{AuditEntry, AuditError, AuditLog, AuditWrite};
use crate::complement::{find_corruption, generate_complement, is_valid_pairing, Corruption};
use crate::encoding::{
    decode_codons_to_bytes, encode_bytes_to_codons, law_decode_inverts_encode, EncodedPayload,
    EncodingError,
};
use crate::group_commit::GroupCommit;
use crate::json_value::Record;
use crate::model::{Codon, Strand};
use crate::mvcc::{law_compaction_keeps_visibility, VersionChain};
use crate::mvcc_laws::{
    law_compaction_drops_what_nobody_sees, law_conflicts_are_later_versions,
    law_last_write_is_the_last, law_snapshot_sees_the_last_version_in_time,
};
use crate::pool_laws::{
    law_mark_is_the_highest_sequence, law_pools_grow_by_doubling, law_replica_applies_what_is_beyond,
};
use crate::processor::{strand_from_wal_payload_at, strand_signature};
use crate::recovery::{law_pending_counts_in_order, law_pending_is_exact, plan_replay, RecoveryStats, WalEntry};
use crate::replication::{next_sequence, plan_batch, ReplicationApplyReport, ReplicationCheckpoint};
use crate::storage::{append_to_map, AppendPlan, CollectionState, PoolState, StorageError};
use crate::transaction::{
    law_commit_is_seen_afterwards, law_read_your_writes, Transaction, TransactionManager, TxnStatus,
};
use vstd::prelude::*;

verus! {

/// What a chain shows of a write: it at any time from its own on until a later version, and
/// nothing of it before.
pub proof fn law_writing_and_reading_a_version(
    chain: &mut VersionChain,
    record: Record,
    txn_id: u64,
    ts: u64,
    snapshot: u64,
    r: Option<&Record>,
    before: Option<&Record>,
)
    requires
        old(chain).wf(),
        call_ensures(VersionChain::insert_version, (chain, record, txn_id, ts), ()),
        call_ensures(VersionChain::visible_at, (final(chain), snapshot), r),
        call_ensures(VersionChain::visible_at, (old(chain), snapshot), before),
    ensures
        final(chain).versions().len() == old(chain).versions().len() + 1,
        ts <= snapshot && (forall|i: int|
            0 <= i < old(chain).versions().len() ==> (#[trigger] old(chain).versions()[i]).ts <= ts) ==> r is Some
            && r->0@ == record@,
        snapshot < ts && before is Some ==> r is Some && r->0@ == before->0@,
        snapshot < ts && before is None ==> r is None,
{
    let s = old(chain).versions();
    let v = crate::mvcc::VersionView { txn_id, ts, record: Some(record@) };
    crate::mvcc::lemma_with_version(s, v);
    if snapshot < ts {
        crate::mvcc::law_later_write_is_not_seen(s, v, snapshot);
    } else if forall|i: int| 0 <= i < s.len() ==> (#[trigger] s[i]).ts <= ts {
        crate::mvcc::law_newest_write_is_seen(s, v, snapshot);
    }
}

/// A record that was deleted last is not seen from then on.
pub proof fn law_deleting_a_version(
    chain: &mut VersionChain,
    txn_id: u64,
    ts: u64,
    snapshot: u64,
    r: Option<&Record>,
)
    requires
        old(chain).wf(),
        call_ensures(VersionChain::delete, (chain, txn_id, ts), ()),
        call_ensures(VersionChain::visible_at, (final(chain), snapshot), r),
        ts <= snapshot,
        forall|i: int| 0 <= i < old(chain).versions().len() ==> (#[trigger] old(chain).versions()[i]).ts <= ts,
    ensures
        r is None,
{
    let v = crate::mvcc::VersionView { txn_id, ts, record: None };
    crate::mvcc::law_newest_write_is_seen(old(chain).versions(), v, snapshot);
}

/// A compaction changes nothing for snapshots from the oldest on; it leaves the floor, and of the
/// others drops what no snapshot sees.
pub proof fn law_compacting_a_chain(
    chain: &mut VersionChain,
    oldest: u64,
    floor: usize,
    snapshot: u64,
    before: Option<&Record>,
    r: Option<&Record>,
)
    requires
        old(chain).wf(),
        call_ensures(VersionChain::compact_for_oldest_snapshot_with_floor, (chain, oldest, floor), ()),
        call_ensures(VersionChain::visible_at, (old(chain), snapshot), before),
        call_ensures(VersionChain::visible_at, (final(chain), snapshot), r),
        oldest <= snapshot,
    ensures
        before is Some <==> r is Some,
        before is Some ==> r->0@ == before->0@,
        final(chain).versions().len() <= old(chain).versions().len(),
        final(chain).versions().len() < old(chain).versions().len() ==> final(chain).versions().len() >= floor,
        final(chain).versions().len() > floor && final(chain).versions().len() >= 2 ==> final(chain).versions()[1].ts
            > oldest,
{
    let s = old(chain).versions();
    law_compaction_keeps_visibility(s, oldest, floor as nat, snapshot);
    law_compaction_drops_what_nobody_sees(s, oldest, floor as nat);
    let d = crate::mvcc::dropped(s, oldest, floor as nat) as int;
    let t = final(chain).versions();
    if t.len() >= 2 {
        assert(t[1] == s[d + 1]);
    }
}

/// A transaction reads what it has written itself: the record after an upsert, nothing after a
/// deletion.
pub proof fn law_reading_own_writes(
    m: &TransactionManager,
    txn: &mut Transaction,
    id: u64,
    record: Record,
    r: Option<Record>,
)
    requires
        call_ensures(TransactionManager::upsert, (m, txn, id, record), ()),
        call_ensures(TransactionManager::read, (m, final(txn), id), r),
    ensures
        r is Some,
        r->0@ == record@,
{
    law_read_your_writes(
        m.chains(),
        old(txn).writes(),
        final(txn).snapshot_ts,
        crate::transaction::WriteView { record_id: id, record: Some(record@) },
    );
}

/// A transaction reads nothing of what it has deleted.
pub proof fn law_reading_own_deletions(m: &TransactionManager, txn: &mut Transaction, id: u64, r: Option<Record>)
    requires
        call_ensures(TransactionManager::delete, (m, txn, id), ()),
        call_ensures(TransactionManager::read, (m, final(txn), id), r),
    ensures
        r is None,
{
    law_read_your_writes(
        m.chains(),
        old(txn).writes(),
        final(txn).snapshot_ts,
        crate::transaction::WriteView { record_id: id, record: None },
    );
}

/// A commit succeeds exactly where the transaction is active and no record that it writes has a
/// version later than its snapshot. A transaction that begins after it reads the last of its
/// writes to a record; a refused commit changes nothing.
pub proof fn law_committing(
    m: &mut TransactionManager,
    txn: &mut Transaction,
    r: Result<u64, &'static str>,
    next: &mut TransactionManager,
    reader: Transaction,
    i: int,
    read: Option<Record>,
)
    requires
        old(m).consistent(),
        old(m).clock() < u64::MAX,
        call_ensures(TransactionManager::commit, (m, txn), r),
        old(next).chains() == final(m).chains(),
        old(next).clock() == final(m).clock(),
        call_ensures(TransactionManager::begin, (next,), reader),
        0 <= i < old(txn).writes().len(),
        forall|j: int| i < j < old(txn).writes().len() ==> (#[trigger] old(txn).writes()[j]).record_id
            != old(txn).writes()[i].record_id,
        call_ensures(TransactionManager::read, (final(next), &reader, old(txn).writes()[i].record_id), read),
    ensures
        r is Ok <==> old(txn).status == TxnStatus::Active && forall|k: int, n: int|
            0 <= k < old(txn).writes().len() && old(m).chains().dom().contains(
                (#[trigger] old(txn).writes()[k]).record_id,
            ) && 0 <= n < old(m).chains()[old(txn).writes()[k].record_id].len() ==> (
            #[trigger] old(m).chains()[old(txn).writes()[k].record_id][n]).ts <= old(txn).snapshot_ts,
        r matches Ok(ts) ==> {
            &&& ts == old(m).clock() + 1
            &&& final(txn).status == TxnStatus::Committed
            &&& crate::mvcc::record_view(read) == old(txn).writes()[i].record
        },
        r is Err ==> final(m).chains() == old(m).chains() && final(m).clock() == old(m).clock() && final(txn).status
            == old(txn).status,
{
    let c = old(m).chains();
    let ops = old(txn).writes();
    let snapshot = old(txn).snapshot_ts;
    law_conflicts_are_later_versions(c, ops, snapshot);
    if r is Ok {
        let ts = r->Ok_0;
        assert(crate::transaction::chains_ok(c, ts)) by {
            assert(crate::transaction::chains_ok(c, old(m).clock()));
        }
        law_commit_is_seen_afterwards(c, ops, old(txn).txn_id, ts, ops.len(), reader.snapshot_ts, ops[i].record_id);
        assert(ops.take(ops.len() as int) =~= ops);
        law_last_write_is_the_last(ops, ops[i].record_id, i);
        assert(reader.writes() =~= Seq::empty());
    }
}

/// A transaction that was rolled back leaves no trace.
pub proof fn law_rolling_back(m: &mut TransactionManager, txn: &mut Transaction, r: Result<(), &'static str>)
    requires
        call_ensures(TransactionManager::rollback, (m, txn), r),
    ensures
        r is Ok <==> old(txn).status == TxnStatus::Active,
        final(m).chains() == old(m).chains(),
        final(m).clock() == old(m).clock(),
        r is Ok ==> final(txn).status == TxnStatus::RolledBack && final(txn).write_set@.len() == 0,
        r is Ok ==> !final(m).active().dom().contains(old(txn).txn_id),
{
}

/// An entry goes behind the filled part of a pool, which grows where it must.
pub proof fn law_appending_to_a_pool(pool: &mut PoolState, len: usize, plan: AppendPlan)
    requires
        old(pool).wf(),
        old(pool).len + len <= usize::MAX,
        call_ensures(PoolState::append, (pool, len), plan),
    ensures
        plan.offset == old(pool).len,
        plan.end == old(pool).len + len,
        final(pool).len == old(pool).len + len,
        final(pool).len <= final(pool).capacity,
        old(pool).len + len <= old(pool).capacity ==> final(pool).capacity == old(pool).capacity && plan.grow_to is None,
        old(pool).len + len > old(pool).capacity ==> plan.grow_to == Some(final(pool).capacity)
            && final(pool).capacity >= 1024 * 1024,
{
    law_pools_grow_by_doubling(old(pool).capacity as nat, plan.end as nat);
}

/// An entry goes into a map exactly where it fits behind the filled part.
pub proof fn law_appending_to_a_map(capacity: usize, len: usize, more: usize, r: Result<(usize, usize), StorageError>)
    requires
        call_ensures(append_to_map, (capacity, len, more), r),
    ensures
        r is Ok <==> len + more <= capacity,
        r matches Ok(span) ==> span.0 == len && span.1 == len + more,
        r matches Err(e) ==> e is BufferFull,
{
}

/// The mark of a collection goes up to a sequence, and never down.
pub proof fn law_recording_a_sequence(c: &mut CollectionState, sequence: u64)
    requires
        call_ensures(CollectionState::record_materialized_sequence, (c, sequence), ()),
    ensures
        final(c).materialized_high_water_sequence >= sequence,
        final(c).materialized_high_water_sequence >= old(c).materialized_high_water_sequence,
        final(c).materialized_high_water_sequence == sequence || final(c).materialized_high_water_sequence
            == old(c).materialized_high_water_sequence,
{
}

/// A replay takes exactly the entries above the pool's mark, in order, and counts them.
pub proof fn law_planning_a_replay(entries: &[WalEntry], mark: u64, r: (Vec<usize>, RecoveryStats), i: int, j: int, k: int)
    requires
        call_ensures(plan_replay, (entries, mark), r),
        0 <= i < entries@.len() <= usize::MAX,
    ensures
        r.0@.contains(i as usize) <==> entries@[i].sequence > mark,
        0 <= j < k < r.0@.len() ==> r.0@[j] < r.0@[k],
        r.1.pool_high_water_before == mark,
        r.1.replayed == entries@.filter(|e: WalEntry| e.sequence > mark).len(),
{
    law_pending_is_exact(entries@, mark, entries@.len(), i);
    law_pending_counts_in_order(entries@, mark, entries@.len());
    assert(entries@.take(entries@.len() as int) =~= entries@);
}

/// A replica applies the entries beyond its checkpoint and beyond those before them, counts them
/// and the others, and moves its checkpoint to the highest.
pub proof fn law_planning_a_batch(
    checkpoint: ReplicationCheckpoint,
    entries: &[WalEntry],
    r: (Vec<usize>, ReplicationApplyReport),
    i: int,
    next: u64,
)
    requires
        call_ensures(plan_batch, (checkpoint, entries), r),
        0 <= i < entries@.len() <= usize::MAX,
        call_ensures(next_sequence, (checkpoint,), next),
    ensures
        r.0@.contains(i as usize) <==> entries@[i].sequence > checkpoint.last_applied_source_sequence && forall|j: int|
            0 <= j < i ==> (#[trigger] entries@[j]).sequence < entries@[i].sequence,
        r.1.applied == r.0@.len(),
        r.1.applied + r.1.skipped_replay == entries@.len(),
        r.1.checkpoint_after.last_applied_source_sequence >= checkpoint.last_applied_source_sequence,
        r.1.checkpoint_after.last_applied_source_sequence >= entries@[i].sequence,
        checkpoint.last_applied_source_sequence < u64::MAX ==> next == checkpoint.last_applied_source_sequence + 1,
{
    law_replica_applies_what_is_beyond(entries@, checkpoint.last_applied_source_sequence, entries@.len(), i);
    law_mark_is_the_highest_sequence(entries@, checkpoint.last_applied_source_sequence, entries@.len());
}

/// What was encoded decodes to the same bytes.
pub proof fn law_encoding_and_decoding(bytes: &[u8], e: EncodedPayload, r: Result<Vec<u8>, EncodingError>)
    requires
        call_ensures(encode_bytes_to_codons, (bytes,), e),
        call_ensures(decode_codons_to_bytes, (&e,), r),
    ensures
        e.original_len == bytes@.len(),
        e.codons@.len() == (4 * bytes@.len() + 2) / 3,
        r is Ok,
        r->Ok_0@ == bytes@,
{
    law_decode_inverts_encode(bytes@);
    crate::encoding::law_length_from_codon_count(bytes@);
}

/// A generated complement pairs with its strand, and nothing of it is found corrupt.
pub proof fn law_generating_and_checking_a_complement(
    codons: &[Codon],
    made: Vec<Codon>,
    other: &[Codon],
    paired: bool,
    found: Vec<Corruption>,
)
    requires
        crate::model::codons_valid(codons@),
        call_ensures(generate_complement, (codons,), made),
        other@ == made@,
        call_ensures(is_valid_pairing, (codons, other), paired),
        call_ensures(find_corruption, (codons, other), found),
    ensures
        made@.len() == codons@.len(),
        paired,
        found@.len() == 0,
{
    crate::complement::law_generated_complement_pairs(codons@);
    crate::complement::law_no_corruption_iff_paired(codons@, made@);
}

/// The strand of a log entry bears its sequence, collection and time, and its payload can be read.
pub proof fn law_making_the_strand_of_an_entry(
    collection_id: u32,
    sequence: u64,
    payload: &[u8],
    now: u64,
    s: Strand,
    signature: [u8; 8],
)
    requires
        call_ensures(strand_from_wal_payload_at, (collection_id, sequence, payload, now), s),
        call_ensures(strand_signature, (sequence,), signature),
        payload@.len() <= 49151,
    ensures
        s.version == sequence,
        s.signature@ == signature@,
        crate::support::bytes::from_le(s.signature@) == sequence,
        s.collection_id == collection_id,
        s.created_at == now,
        s.updated_at == now,
        s.telomere.immortal,
        crate::query::fields::has_value(s@, "_payload"@, payload@),
{
    crate::pool_laws::law_strand_of_a_log_entry(s@, collection_id, sequence, payload@, now);
    crate::query::write_read_laws::law_span_of_an_intron(payload@);
    crate::query::fields::law_wal_payload_is_readable(s@, collection_id, sequence, payload@, now);
}

/// An entry that was appended says what was done and is the last; a log that was intact verifies
/// with it.
pub proof fn law_appending_to_the_audit_log(
    log: &mut AuditLog,
    write: AuditWrite,
    id: &str,
    r: Result<&AuditEntry, AuditError>,
    before: Result<(), AuditError>,
    after: Result<(), AuditError>,
)
    requires
        call_ensures(AuditLog::append_with_id, (log, write, id), r),
        call_ensures(AuditLog::verify_integrity, (old(log),), before),
        call_ensures(AuditLog::verify_integrity, (final(log),), after),
    ensures
        r is Ok,
        final(log).view().len() == old(log).view().len() + 1,
        final(log).view().last() == r->Ok_0@,
        r->Ok_0.identity_id@ == write.identity_id@,
        r->Ok_0.operation@ == write.operation@,
        r->Ok_0.collection@ == write.collection@,
        r->Ok_0.timestamp_ns == write.timestamp_ns,
        r->Ok_0.strand_count == write.strand_count,
        old(log).view().len() == 0 ==> r->Ok_0.prev_hash is None,
        old(log).view().len() > 0 ==> r->Ok_0.prev_hash is Some && r->Ok_0.prev_hash->0@
            == old(log).view().last().entry_hash,
        before is Ok ==> after is Ok,
{
}

/// A group that is full after a record is synced and starts anew; one that is not, and has no time
/// limit, waits on with one record more.
pub proof fn law_counting_into_a_group(g: &mut GroupCommit, r: bool, waiting: bool)
    requires
        call_ensures(GroupCommit::after_record, (g,), r),
        call_ensures(GroupCommit::has_pending, (final(g),), waiting),
    ensures
        old(g).pending() + 1 >= old(g).policy().max_batch ==> r,
        old(g).policy().max_interval is None && old(g).pending() + 1 < old(g).policy().max_batch ==> !r,
        r ==> final(g).pending() == 0 && !waiting,
        !r ==> final(g).pending() == old(g).pending() + 1 && waiting,
        final(g).policy() == old(g).policy(),
{
}

/// What a transaction sees of all records is what its snapshot shows of each, once.
pub proof fn law_reading_all_records(m: &TransactionManager, txn: &Transaction, r: Vec<(u64, Record)>, i: int, j: int, k: int)
    requires
        m.consistent(),
        call_ensures(TransactionManager::visible_records, (m, txn), r),
        0 <= i < r@.len(),
    ensures
        0 <= j < r@.len() && r@[i].0 == r@[j].0 ==> i == j,
        0 <= k < crate::transaction::chain(m.chains(), r@[i].0).len() && crate::transaction::chain(
            m.chains(),
            r@[i].0,
        )[k].ts <= txn.snapshot_ts && (k + 1 < crate::transaction::chain(m.chains(), r@[i].0).len()
            ==> crate::transaction::chain(m.chains(), r@[i].0)[k + 1].ts > txn.snapshot_ts)
            ==> crate::transaction::chain(m.chains(), r@[i].0)[k].record == Some(r@[i].1@),
{
    let id = r@[i].0;
    assert(crate::mvcc::visible(crate::transaction::chain(m.chains(), id), txn.snapshot_ts) == Some(r@[i].1@));
    if m.chains().dom().contains(id) {
        law_snapshot_sees_the_last_version_in_time(m.chains()[id], txn.snapshot_ts, k);
    }
}

/// The oldest snapshot is that of a running transaction, and none is older.
pub proof fn law_oldest_snapshot(m: &TransactionManager, r: Option<u64>, id: u64)
    requires
        call_ensures(TransactionManager::oldest_active_snapshot, (m,), r),
        m.active().dom().contains(id),
    ensures
        r is Some,
        r->0 <= m.active()[id],
        exists|k: u64| #[trigger] m.active().dom().contains(k) && m.active()[k] == r->0,
{
}

/// A compaction changes nothing for a running transaction, forgets no record, and leaves each at
/// most the versions that it had.
pub proof fn law_compacting_versions(m: &mut TransactionManager, floor: usize, txn: u64, id: u64)
    requires
        old(m).consistent(),
        call_ensures(TransactionManager::compact_versions_with_floor, (m, floor), ()),
        old(m).active().dom().contains(txn),
    ensures
        crate::mvcc::visible(crate::transaction::chain(final(m).chains(), id), old(m).active()[txn])
            == crate::mvcc::visible(crate::transaction::chain(old(m).chains(), id), old(m).active()[txn]),
        final(m).chains().dom().contains(id) <==> old(m).chains().dom().contains(id),
        crate::transaction::chain(final(m).chains(), id).len() <= crate::transaction::chain(old(m).chains(), id).len(),
        final(m).active() == old(m).active(),
        final(m).clock() == old(m).clock(),
{
    let oldest = choose|oldest: Option<u64>| #[trigger]
        crate::transaction::is_oldest(old(m).active(), oldest) && crate::transaction::compacted(
            old(m).chains(),
            final(m).chains(),
            oldest,
            floor as nat,
        );
    crate::transaction::law_compaction_keeps_running_snapshots(
        old(m).chains(),
        final(m).chains(),
        old(m).clock(),
        old(m).active(),
        oldest,
        floor as nat,
        txn,
        id,
    );
    if old(m).chains().dom().contains(id) {
        assert(final(m).chains().dom().contains(id));
        law_compaction_drops_what_nobody_sees(old(m).chains()[id], oldest->0, floor as nat);
    } else {
        assert(!final(m).chains().dom().contains(id));
    }
}

/// A pool is opened behind the strands that it holds, with the highest of their versions as its
/// mark, and all of them are decoded again in order.
pub proof fn law_opening_and_decoding_a_pool(
    strands: &[u8],
    complement: &[u8],
    meta: &[u8],
    r: Result<CollectionState, StorageError>,
    decoded: Result<Vec<Strand>, crate::codec::CodecError>,
    vs: Seq<crate::model::StrandView>,
    rest: Seq<u8>,
)
    requires
        call_ensures(CollectionState::open, (strands, complement, meta), r),
        call_ensures(crate::storage::decode_all_strands, (strands,), decoded),
        strands@ == crate::storage::frames(vs) + rest,
        !crate::storage::starts_frame(rest),
    ensures
        r is Ok,
        r->Ok_0.strands.len == crate::storage::frames(vs).len(),
        forall|i: int| 0 <= i < vs.len() ==> (#[trigger] vs[i]).version <= r->Ok_0.materialized_high_water_sequence,
        vs.len() > 0 ==> exists|i: int|
            0 <= i < vs.len() && (#[trigger] vs[i]).version == r->Ok_0.materialized_high_water_sequence,
        decoded is Ok,
        crate::model::strand_views(decoded->Ok_0@) == vs,
{
    let n = crate::storage::frames(vs).len() as int;
    assert(strands@.skip(n) =~= rest);
    assert(crate::storage::pool_holds(strands@, vs));
    crate::pool_laws::law_top_version_is_the_highest(vs);
}

/// A scrub checks each strand, and counts those without a checksum and those with another than
/// that of their frame.
pub proof fn law_scrubbing_a_pool(
    strands: &[u8],
    meta: &[u8],
    r: Result<crate::integrity::ScrubReport, crate::codec::CodecError>,
    vs: Seq<crate::model::StrandView>,
    rest: Seq<u8>,
) -> (m: Map<u64, u32>)
    requires
        call_ensures(crate::integrity::scrub_pools, (strands, meta), r),
        strands@ == crate::storage::frames(vs) + rest,
        !crate::storage::starts_frame(rest),
    ensures
        crate::integrity::crc_entries(m, meta@),
        r is Ok,
        r->Ok_0.checked == vs.len(),
        r->Ok_0.missing_crc == vs.filter(|v: crate::model::StrandView| !m.dom().contains(v.version)).len(),
        r->Ok_0.mismatched_crc == vs.filter(
            |v: crate::model::StrandView|
                m.dom().contains(v.version) && m[v.version] != crate::digest::crc32_of(crate::codec::strand_frame(v)),
        ).len(),
{
    let n = crate::storage::frames(vs).len() as int;
    assert(strands@.skip(n) =~= rest);
    assert(crate::storage::pool_holds(strands@, vs));
    let m = choose|m: Map<u64, u32>| #[trigger]
        crate::integrity::crc_entries(m, meta@) && crate::integrity::scrubbed(r, strands@, m);
    crate::pool_laws::law_scrub_counts_strands(m, vs);
    m
}

} // verus!
