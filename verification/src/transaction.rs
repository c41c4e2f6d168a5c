//! Transactions over version chains: snapshot reads, buffered writes, and a commit that the
//! first writer wins.
use crate::json_value::{clone_record, RecordView};
use crate::mvcc::{
    by_time, dropped, law_compaction_keeps_visibility, law_later_write_is_not_seen,
    law_newest_write_is_seen, record_view, visible, with_version, Record, VersionChain,
    VersionView,
};
use crate::support::int_map::IntMap;
use vstd::prelude::*;

verus! {

/// Where a transaction stands.
#[derive(Debug, Clone, Copy, PartialEq, Eq, Structural)]
pub enum TxnStatus {
    Active,
    Committed,
    RolledBack,
}

/// A buffered write.
#[derive(Debug)]
pub enum WriteOp {
    Upsert { record_id: u64, record: Record },
    Delete { record_id: u64 },
}

/// What a [`WriteOp`] holds: the record's number, and its new value or `None`.
pub struct WriteView {
    pub record_id: u64,
    pub record: Option<RecordView>,
}

impl View for WriteOp {
    type V = WriteView;

    open spec fn view(&self) -> WriteView {
        match self {
            WriteOp::Upsert { record_id, record } => WriteView { record_id: *record_id, record: Some(record@) },
            WriteOp::Delete { record_id } => WriteView { record_id: *record_id, record: None },
        }
    }
}

/// What a sequence of writes holds.
pub open spec fn write_views(s: Seq<WriteOp>) -> Seq<WriteView> {
    Seq::new(s.len(), |i: int| s[i]@)
}

/// A transaction: its snapshot, its writes so far, and where it stands.
#[derive(Debug)]
pub struct Transaction {
    pub txn_id: u64,
    pub snapshot_ts: u64,
    pub write_set: Vec<WriteOp>,
    pub status: TxnStatus,
}

impl Transaction {
    /// The writes so far, the oldest first.
    pub open spec fn writes(self) -> Seq<WriteView> {
        write_views(self.write_set@)
    }
}

/// The last of the writes to a record.
pub open spec fn last_write(ops: Seq<WriteView>, id: u64) -> Option<WriteView>
    decreases ops.len(),
{
    if ops.len() == 0 {
        None
    } else if ops.last().record_id == id {
        Some(ops.last())
    } else {
        last_write(ops.drop_last(), id)
    }
}

/// Version chains by record number.
pub type Chains = Map<u64, Seq<VersionView>>;

/// The versions of a record; none where there is no chain.
pub open spec fn chain(c: Chains, id: u64) -> Seq<VersionView> {
    if c.dom().contains(id) {
        c[id]
    } else {
        Seq::empty()
    }
}

/// The chains after one write.
pub open spec fn written(c: Chains, op: WriteView, txn_id: u64, ts: u64) -> Chains {
    c.insert(
        op.record_id,
        with_version(chain(c, op.record_id), VersionView { txn_id, ts, record: op.record }),
    )
}

/// The chains after the first `n` writes.
pub open spec fn applied(c: Chains, ops: Seq<WriteView>, txn_id: u64, ts: u64, n: nat) -> Chains
    decreases n,
{
    if n == 0 {
        c
    } else {
        written(applied(c, ops, txn_id, ts, (n - 1) as nat), ops[n - 1], txn_id, ts)
    }
}

/// Whether every chain is in order and no version is later than the clock.
pub open spec fn chains_ok(c: Chains, clock: u64) -> bool {
    &&& forall|id: u64| #[trigger] c.dom().contains(id) ==> by_time(c[id])
    &&& forall|id: u64, i: int|
        #![trigger c[id][i]]
        c.dom().contains(id) && 0 <= i < c[id].len() ==> c[id][i].ts <= clock
}

/// Whether a record that a transaction writes was written after its snapshot.
pub open spec fn conflicts(c: Chains, ops: Seq<WriteView>, snapshot: u64) -> bool {
    exists|i: int| 0 <= i < ops.len() && overtaken(c, (#[trigger] ops[i]).record_id, snapshot)
}

/// Whether the latest version of a record is later than the snapshot.
pub open spec fn overtaken(c: Chains, id: u64, snapshot: u64) -> bool {
    chain(c, id).len() > 0 && chain(c, id).last().ts > snapshot
}

/// What a transaction reads: its own last write, or what its snapshot sees.
pub open spec fn reads(c: Chains, ops: Seq<WriteView>, snapshot: u64, id: u64) -> Option<RecordView> {
    match last_write(ops, id) {
        Some(w) => w.record,
        None => visible(chain(c, id), snapshot),
    }
}

/// Version chains, running transactions with their snapshots, and the clock.
#[derive(Debug)]
pub struct TransactionManager {
    chains: IntMap<VersionChain>,
    active_txns: IntMap<u64>,
    next_txn_id: u64,
    clock_ts: u64,
}

/// What a map of chains holds.
spec fn chain_views(m: Map<u64, VersionChain>) -> Chains {
    m.map_values(|c: VersionChain| c.versions())
}

spec fn chains_wf(m: Map<u64, VersionChain>) -> bool {
    forall|id: u64| #[trigger] m.dom().contains(id) ==> m[id].wf()
}

/// Whether `t` is one more than `s`, or the same at the upper end.
pub open spec fn next_of(s: u64, t: u64) -> bool {
    t == (if s < u64::MAX {
        (s + 1) as u64
    } else {
        s
    })
}

/// The oldest of some snapshots.
pub open spec fn is_oldest(active: Map<u64, u64>, oldest: Option<u64>) -> bool {
    match oldest {
        Some(t) => (exists|id: u64| #[trigger] active.dom().contains(id) && active[id] == t) && forall|id: u64| #[trigger]
            active.dom().contains(id) ==> t <= active[id],
        None => forall|id: u64| !#[trigger] active.dom().contains(id),
    }
}

/// The chains after compaction for the oldest snapshot; without one only the latest versions
/// count.
pub open spec fn compacted(before: Chains, after: Chains, oldest: Option<u64>, floor: nat) -> bool {
    let t = match oldest {
        Some(t) => t,
        None => u64::MAX,
    };
    &&& forall|id: u64| #[trigger] after.dom().contains(id) <==> before.dom().contains(id)
    &&& forall|id: u64| #[trigger]
        after.dom().contains(id) ==> after[id] == before[id].skip(dropped(before[id], t, floor) as int)
}

impl TransactionManager {
    #[verifier::type_invariant]
    spec fn wf(self) -> bool {
        &&& chains_wf(self.chains@)
        &&& chains_ok(chain_views(self.chains@), self.clock_ts)
        &&& forall|id: u64| #[trigger] self.active_txns@.dom().contains(id) ==> self.active_txns@[id] <= self.clock_ts
    }

    /// The version chains.
    pub closed spec fn chains(self) -> Chains {
        chain_views(self.chains@)
    }

    /// The snapshots of the running transactions.
    pub closed spec fn active(self) -> Map<u64, u64> {
        self.active_txns@
    }

    /// The number given to the last transaction.
    pub closed spec fn last_txn(self) -> u64 {
        self.next_txn_id
    }

    /// The time of the last commit.
    pub closed spec fn clock(self) -> u64 {
        self.clock_ts
    }

    /// A manager without records.
    pub fn new() -> (r: Self)
        ensures
            r.chains() == Chains::empty(),
            r.active() == Map::<u64, u64>::empty(),
            r.last_txn() == 0,
            r.clock() == 0,
    {
        let r = TransactionManager { chains: IntMap::new(), active_txns: IntMap::new(), next_txn_id: 0, clock_ts: 0 };
        proof {
            assert(r.chains() =~= Chains::empty());
        }
        r
    }

    /// What holds of every manager: chains are in order of time, and neither a version nor a
    /// snapshot is later than the clock.
    pub open spec fn consistent(self) -> bool {
        &&& chains_ok(self.chains(), self.clock())
        &&& forall|id: u64| #[trigger] self.active().dom().contains(id) ==> self.active()[id] <= self.clock()
    }

    /// Starts a transaction that sees what has been committed so far.
    pub fn begin(&mut self) -> (r: Transaction)
        ensures
            final(self).consistent(),
            next_of(old(self).last_txn(), final(self).last_txn()),
            final(self).chains() == old(self).chains(),
            final(self).clock() == old(self).clock(),
            final(self).active() == old(self).active().insert(r.txn_id, r.snapshot_ts),
            r.txn_id == final(self).last_txn(),
            r.snapshot_ts == old(self).clock(),
            r.write_set@.len() == 0,
            r.status == TxnStatus::Active,
    {
        proof {
            use_type_invariant(&*self);
        }
        if self.next_txn_id < u64::MAX {
            self.next_txn_id = self.next_txn_id + 1;
        }
        let txn_id: u64 = self.next_txn_id;
        let snapshot_ts: u64 = self.clock_ts;
        let mut active: IntMap<u64> = IntMap::new();
        std::mem::swap(&mut active, &mut self.active_txns);
        let _ = active.insert(txn_id, snapshot_ts);
        self.active_txns = active;
        Transaction { txn_id, snapshot_ts, write_set: Vec::new(), status: TxnStatus::Active }
    }

    /// The record as the transaction sees it.
    pub fn read(&self, txn: &Transaction, record_id: u64) -> (r: Option<Record>)
        ensures
            record_view(r) == reads(self.chains(), txn.writes(), txn.snapshot_ts, record_id),
            self.consistent(),
    {
        proof {
            use_type_invariant(self);
        }
        let ghost ops = txn.writes();
        let mut n: usize = txn.write_set.len();
        proof {
            assert(ops.take(n as int) =~= ops);
        }
        while n > 0
            invariant
                0 <= n <= txn.write_set@.len(),
                self.consistent(),
                ops == txn.writes(),
                last_write(ops.take(n as int), record_id) == last_write(ops, record_id),
            decreases n,
        {
            proof {
                assert(ops.take(n as int).last() == txn.write_set@[n - 1]@);
                assert(ops.take(n as int).drop_last() =~= ops.take(n - 1));
            }
            match &txn.write_set[n - 1] {
                WriteOp::Upsert { record_id: id, record } => {
                    if *id == record_id {
                        return Some(clone_record(record));
                    }
                },
                WriteOp::Delete { record_id: id } => {
                    if *id == record_id {
                        return None;
                    }
                },
            }
            n -= 1;
        }
        match self.chains.get(record_id) {
            Some(c) => match c.visible_at(txn.snapshot_ts) {
                Some(x) => Some(clone_record(x)),
                None => None,
            },
            None => None,
        }
    }

    /// Every record that the transaction's snapshot sees, each once; the transaction's own
    /// writes do not count.
    pub fn visible_records(&self, txn: &Transaction) -> (r: Vec<(u64, Record)>)
        ensures
            forall|i: int|
                0 <= i < r@.len() ==> visible(chain(self.chains(), (#[trigger] r@[i]).0), txn.snapshot_ts) == Some(
                    r@[i].1@,
                ),
            forall|i: int, j: int|
                0 <= i < r@.len() && 0 <= j < r@.len() && (#[trigger] r@[i]).0 == (#[trigger] r@[j]).0 ==> i == j,
            forall|id: u64|
                (#[trigger] visible(chain(self.chains(), id), txn.snapshot_ts)) is Some ==> exists|i: int|
                    0 <= i < r@.len() && (#[trigger] r@[i]).0 == id,
    {
        proof {
            use_type_invariant(self);
        }
        let n = self.chains.len();
        let ghost keys = self.chains.keys();
        let mut out: Vec<(u64, Record)> = Vec::new();
        let mut k: usize = 0;
        while k < n
            invariant
                0 <= k <= n,
                n == keys.len(),
                keys == self.chains.keys(),
                keys.no_duplicates(),
                chains_wf(self.chains@),
                forall|i: int|
                    0 <= i < out@.len() ==> visible(
                        chain(self.chains(), (#[trigger] out@[i]).0),
                        txn.snapshot_ts,
                    ) == Some(out@[i].1@),
                forall|i: int| 0 <= i < out@.len() ==> keys.take(k as int).contains((#[trigger] out@[i]).0),
                forall|i: int, j: int|
                    0 <= i < out@.len() && 0 <= j < out@.len() && (#[trigger] out@[i]).0 == (
                    #[trigger] out@[j]).0 ==> i == j,
                forall|q: int|
                    0 <= q < k && visible(chain(self.chains(), #[trigger] keys[q]), txn.snapshot_ts) is Some
                        ==> exists|i: int| 0 <= i < out@.len() && (#[trigger] out@[i]).0 == keys[q],
            decreases n - k,
        {
            let id: u64 = self.chains.key(k);
            let c = self.chains.value(k);
            let ghost before = out@;
            proof {
                assert(chain(self.chains(), id) == c.versions());
                assert forall|i: int| 0 <= i < before.len() implies (#[trigger] before[i]).0 != id by {
                    let done = keys.take(k as int);
                    let q = done.index_of(before[i].0);
                    assert(keys[q] != keys[k as int]);
                }
                assert forall|i: int| 0 <= i < before.len() implies keys.take(k + 1).contains(
                    (#[trigger] before[i]).0,
                ) by {
                    let q = keys.take(k as int).index_of(before[i].0);
                    assert(keys.take(k + 1)[q] == before[i].0);
                }
                assert(keys.take(k + 1)[k as int] == id);
            }
            if let Some(x) = c.visible_at(txn.snapshot_ts) {
                out.push((id, clone_record(x)));
                proof {
                    assert forall|q: int|
                        0 <= q < k + 1 && visible(
                            chain(self.chains(), #[trigger] keys[q]),
                            txn.snapshot_ts,
                        ) is Some implies exists|i: int| 0 <= i < out@.len() && (#[trigger] out@[i]).0 == keys[q] by {
                        if q < k {
                            let i = choose|i: int| 0 <= i < before.len() && (#[trigger] before[i]).0 == keys[q];
                            assert(out@[i].0 == keys[q]);
                        } else {
                            assert(out@[before.len() as int].0 == keys[q]);
                        }
                    }
                }
            }
            k += 1;
        }
        proof {
            assert forall|id: u64|
                (#[trigger] visible(chain(self.chains(), id), txn.snapshot_ts)) is Some implies exists|i: int|
                0 <= i < out@.len() && (#[trigger] out@[i]).0 == id by {
                if self.chains@.dom().contains(id) {
                    assert(keys.contains(id));
                    let q = keys.index_of(id);
                    assert(keys[q] == id);
                } else {
                    assert(chain(self.chains(), id) =~= Seq::<VersionView>::empty());
                }
            }
        }
        out
    }

    /// Buffers a new value for a record.
    pub fn upsert(&self, txn: &mut Transaction, record_id: u64, record: Record)
        ensures
            final(txn).writes() == old(txn).writes().push(WriteView { record_id, record: Some(record@) }),
            final(txn).txn_id == old(txn).txn_id,
            final(txn).snapshot_ts == old(txn).snapshot_ts,
            final(txn).status == old(txn).status,
    {
        let ghost before = txn.writes();
        txn.write_set.push(WriteOp::Upsert { record_id, record });
        proof {
            assert(txn.writes() =~= before.push(WriteView { record_id, record: Some(record@) }));
        }
    }

    /// Buffers the deletion of a record.
    pub fn delete(&self, txn: &mut Transaction, record_id: u64)
        ensures
            final(txn).writes() == old(txn).writes().push(WriteView { record_id, record: None }),
            final(txn).txn_id == old(txn).txn_id,
            final(txn).snapshot_ts == old(txn).snapshot_ts,
            final(txn).status == old(txn).status,
    {
        let ghost before = txn.writes();
        txn.write_set.push(WriteOp::Delete { record_id });
        proof {
            assert(txn.writes() =~= before.push(WriteView { record_id, record: None }));
        }
    }

    /// Whether a transaction can commit: it is active, and no record that it writes was
    /// written after its snapshot.
    pub fn can_commit(&self, txn: &Transaction) -> (r: Result<(), &'static str>)
        ensures
            match r {
                Ok(_) => txn.status == TxnStatus::Active && !conflicts(
                    self.chains(),
                    txn.writes(),
                    txn.snapshot_ts,
                ),
                Err(e) => {
                    &&& txn.status != TxnStatus::Active ==> e@ == "transaction is not active"@
                    &&& txn.status == TxnStatus::Active ==> e@ == "write-write conflict"@ && conflicts(
                        self.chains(),
                        txn.writes(),
                        txn.snapshot_ts,
                    )
                },
            },
    {
        if txn.status != TxnStatus::Active {
            return Err("transaction is not active");
        }
        let mut i: usize = 0;
        while i < txn.write_set.len()
            invariant
                0 <= i <= txn.write_set@.len(),
                txn.status == TxnStatus::Active,
                forall|j: int|
                    0 <= j < i ==> !overtaken(self.chains(), (#[trigger] txn.writes()[j]).record_id, txn.snapshot_ts),
            decreases txn.write_set@.len() - i,
        {
            let id: u64 = match &txn.write_set[i] {
                WriteOp::Upsert { record_id, .. } => *record_id,
                WriteOp::Delete { record_id } => *record_id,
            };
            proof {
                assert(txn.writes()[i as int].record_id == id);
            }
            if let Some(c) = self.chains.get(id) {
                proof {
                    assert(chain(self.chains(), id) == c.versions());
                }
                if let Some(ts) = c.latest_ts() {
                    if ts > txn.snapshot_ts {
                        proof {
                            assert(overtaken(self.chains(), txn.writes()[i as int].record_id, txn.snapshot_ts));
                        }
                        return Err("write-write conflict");
                    }
                }
            }
            i += 1;
        }
        Ok(())
    }

    /// Commits a transaction: all its writes at one new time, or none and an error.
    pub fn commit(&mut self, txn: &mut Transaction) -> (r: Result<u64, &'static str>)
        ensures
            final(self).consistent(),
            final(self).last_txn() == old(self).last_txn(),
            final(txn).txn_id == old(txn).txn_id,
            final(txn).snapshot_ts == old(txn).snapshot_ts,
            match r {
                Ok(ts) => {
                    &&& old(txn).status == TxnStatus::Active
                    &&& !conflicts(old(self).chains(), old(txn).writes(), old(txn).snapshot_ts)
                    &&& next_of(old(self).clock(), ts)
                    &&& final(self).clock() == ts
                    &&& final(self).chains() == applied(
                        old(self).chains(),
                        old(txn).writes(),
                        old(txn).txn_id,
                        ts,
                        old(txn).writes().len(),
                    )
                    &&& final(self).active() == old(self).active().remove(old(txn).txn_id)
                    &&& final(txn).status == TxnStatus::Committed
                    &&& final(txn).write_set@.len() == 0
                },
                Err(e) => {
                    &&& *final(self) == *old(self)
                    &&& *final(txn) == *old(txn)
                    &&& old(txn).status != TxnStatus::Active ==> e@ == "transaction is not active"@
                    &&& old(txn).status == TxnStatus::Active ==> e@ == "write-write conflict"@ && conflicts(
                        old(self).chains(),
                        old(txn).writes(),
                        old(txn).snapshot_ts,
                    )
                },
            },
    {
        proof {
            use_type_invariant(&*self);
        }
        match self.can_commit(txn) {
            Ok(_) => {},
            Err(e) => {
                return Err(e);
            },
        }
        let ghost before = self.chains();
        let commit_ts: u64 = if self.clock_ts < u64::MAX {
            self.clock_ts + 1
        } else {
            self.clock_ts
        };
        let mut chains: IntMap<VersionChain> = IntMap::new();
        std::mem::swap(&mut chains, &mut self.chains);
        let mut active: IntMap<u64> = IntMap::new();
        std::mem::swap(&mut active, &mut self.active_txns);
        let chains = apply_writes(chains, &txn.write_set, txn.txn_id, commit_ts, Ghost(self.clock_ts));
        let _ = active.remove(txn.txn_id);
        self.clock_ts = commit_ts;
        self.chains = chains;
        self.active_txns = active;
        txn.write_set = Vec::new();
        txn.status = TxnStatus::Committed;
        Ok(commit_ts)
    }

    /// Gives a transaction up; its writes are gone.
    pub fn rollback(&mut self, txn: &mut Transaction) -> (r: Result<(), &'static str>)
        ensures
            final(self).consistent(),
            final(self).chains() == old(self).chains(),
            final(self).clock() == old(self).clock(),
            final(self).last_txn() == old(self).last_txn(),
            final(txn).txn_id == old(txn).txn_id,
            final(txn).snapshot_ts == old(txn).snapshot_ts,
            match r {
                Ok(_) => {
                    &&& old(txn).status == TxnStatus::Active
                    &&& final(txn).status == TxnStatus::RolledBack
                    &&& final(txn).write_set@.len() == 0
                    &&& final(self).active() == old(self).active().remove(old(txn).txn_id)
                },
                Err(e) => {
                    &&& old(txn).status != TxnStatus::Active
                    &&& e@ == "transaction is not active"@
                    &&& *final(txn) == *old(txn)
                    &&& final(self).active() == old(self).active()
                },
            },
    {
        proof {
            use_type_invariant(&*self);
        }
        if txn.status != TxnStatus::Active {
            return Err("transaction is not active");
        }
        txn.write_set = Vec::new();
        let mut active: IntMap<u64> = IntMap::new();
        std::mem::swap(&mut active, &mut self.active_txns);
        let _ = active.remove(txn.txn_id);
        self.active_txns = active;
        txn.status = TxnStatus::RolledBack;
        Ok(())
    }

    /// The oldest snapshot of a running transaction.
    pub fn oldest_active_snapshot(&self) -> (r: Option<u64>)
        ensures
            is_oldest(self.active(), r),
    {
        let n = self.active_txns.len();
        let ghost keys = self.active_txns.keys();
        let ghost m = self.active_txns@;
        let mut best: Option<u64> = None;
        let mut i: usize = 0;
        while i < n
            invariant
                0 <= i <= n,
                n == keys.len(),
                keys == self.active_txns.keys(),
                m == self.active_txns@,
                match best {
                    Some(t) => (exists|id: u64| #[trigger] m.dom().contains(id) && m[id] == t) && forall|j: int|
                        0 <= j < i ==> t <= m[#[trigger] keys[j]],
                    None => i == 0,
                },
            decreases n - i,
        {
            let t: u64 = *self.active_txns.value(i);
            proof {
                assert(m.dom().contains(keys[i as int]) && m[keys[i as int]] == t);
            }
            match best {
                Some(b) => {
                    if t < b {
                        best = Some(t);
                    }
                },
                None => {
                    best = Some(t);
                },
            }
            i += 1;
        }
        proof {
            assert forall|id: u64| #[trigger] m.dom().contains(id) implies keys.contains(id) by {}
            assert forall|id: u64| #[trigger] m.dom().contains(id) implies exists|j: int|
                0 <= j < keys.len() && #[trigger] keys[j] == id by {
                let j = keys.index_of(id);
                assert(keys[j] == id);
            }
        }
        best
    }

    /// Drops versions that no running transaction can see.
    pub fn compact_versions(&mut self)
        ensures
            final(self).consistent(),
            exists|oldest: Option<u64>| #[trigger]
                is_oldest(old(self).active(), oldest) && compacted(old(self).chains(), final(self).chains(), oldest, 1),
            final(self).active() == old(self).active(),
            final(self).clock() == old(self).clock(),
            final(self).last_txn() == old(self).last_txn(),
    {
        self.compact_versions_with_floor(1);
    }

    /// The same, keeping at least the `min_versions_to_keep` newest versions of every record.
    pub fn compact_versions_with_floor(&mut self, min_versions_to_keep: usize)
        ensures
            final(self).consistent(),
            exists|oldest: Option<u64>| #[trigger]
                is_oldest(old(self).active(), oldest) && compacted(
                    old(self).chains(),
                    final(self).chains(),
                    oldest,
                    min_versions_to_keep as nat,
                ),
            final(self).active() == old(self).active(),
            final(self).clock() == old(self).clock(),
            final(self).last_txn() == old(self).last_txn(),
    {
        proof {
            use_type_invariant(&*self);
        }
        let oldest = self.oldest_active_snapshot();
        let boundary: u64 = match oldest {
            Some(t) => t,
            None => u64::MAX,
        };
        let mut chains: IntMap<VersionChain> = IntMap::new();
        std::mem::swap(&mut chains, &mut self.chains);
        let chains = compact_chains(chains, boundary, min_versions_to_keep, Ghost(self.clock_ts));
        self.chains = chains;
        proof {
            assert(is_oldest(old(self).active(), oldest));
        }
    }

    /// How many versions of a record there are.
    pub fn record_version_count(&self, record_id: u64) -> (r: usize)
        ensures
            r == chain(self.chains(), record_id).len(),
    {
        match self.chains.get(record_id) {
            Some(c) => c.version_count(),
            None => 0,
        }
    }
}

/// Writes every operation into the chains.
fn apply_writes(
    chains: IntMap<VersionChain>,
    ops: &Vec<WriteOp>,
    txn_id: u64,
    ts: u64,
    Ghost(clock): Ghost<u64>,
) -> (r: IntMap<VersionChain>)
    requires
        chains_wf(chains@),
        chains_ok(chain_views(chains@), clock),
        clock <= ts,
    ensures
        chains_wf(r@),
        chains_ok(chain_views(r@), ts),
        chain_views(r@) == applied(chain_views(chains@), write_views(ops@), txn_id, ts, ops@.len()),
{
    let ghost start = chain_views(chains@);
    let ghost views = write_views(ops@);
    let mut m = chains;
    let mut i: usize = 0;
    while i < ops.len()
        invariant
            0 <= i <= ops@.len(),
            views == write_views(ops@),
            chains_wf(m@),
            chains_ok(chain_views(m@), ts),
            chain_views(m@) == applied(start, views, txn_id, ts, i as nat),
        decreases ops@.len() - i,
    {
        let ghost before = m@;
        let id: u64 = match &ops[i] {
            WriteOp::Upsert { record_id, .. } => *record_id,
            WriteOp::Delete { record_id } => *record_id,
        };
        let mut c = match m.remove(id) {
            Some(c) => c,
            None => VersionChain::new(id),
        };
        let ghost old_versions = c.versions();
        proof {
            assert(old_versions == chain(chain_views(before), id));
        }
        match &ops[i] {
            WriteOp::Upsert { record, .. } => {
                c.insert_version(clone_record(record), txn_id, ts);
            },
            WriteOp::Delete { .. } => {
                c.delete(txn_id, ts);
            },
        }
        let ghost v = VersionView { txn_id, ts, record: views[i as int].record };
        proof {
            assert(c.versions() == with_version(old_versions, v));
        }
        let ghost new_versions = c.versions();
        let _ = m.insert(id, c);
        proof {
            assert(chain_views(m@) =~= written(chain_views(before), views[i as int], txn_id, ts));
            lemma_written_ok(chain_views(before), views[i as int], txn_id, ts);
        }
        i += 1;
    }
    m
}

/// A write at the clock keeps the chains in order.
proof fn lemma_written_ok(c: Chains, op: WriteView, txn_id: u64, ts: u64)
    requires
        chains_ok(c, ts),
    ensures
        chains_ok(written(c, op, txn_id, ts), ts),
        written(c, op, txn_id, ts)[op.record_id] == chain(c, op.record_id).push(
            VersionView { txn_id, ts, record: op.record },
        ),
{
    let v = VersionView { txn_id, ts, record: op.record };
    let s = chain(c, op.record_id);
    assert forall|i: int| 0 <= i < s.len() implies (#[trigger] s[i]).ts <= ts by {
        assert(c[op.record_id][i].ts <= ts);
    }
    crate::mvcc::lemma_newest_goes_last(s, v);
    let after = written(c, op, txn_id, ts);
    assert forall|id: u64, i: int|
        #![trigger after[id][i]]
        after.dom().contains(id) && 0 <= i < after[id].len() implies after[id][i].ts <= ts by {
        if id == op.record_id {
            if i < s.len() {
                assert(after[id][i] == s[i]);
            }
        } else {
            assert(after[id][i] == c[id][i]);
        }
    }
    assert forall|id: u64| #[trigger] after.dom().contains(id) implies by_time(after[id]) by {
        if id != op.record_id {
            assert(c.dom().contains(id));
        }
    }
}

/// Compacts every chain.
fn compact_chains(chains: IntMap<VersionChain>, boundary: u64, floor: usize, Ghost(clock): Ghost<u64>) -> (r: IntMap<
    VersionChain,
>)
    requires
        chains_wf(chains@),
        chains_ok(chain_views(chains@), clock),
    ensures
        chains_wf(r@),
        chains_ok(chain_views(r@), clock),
        forall|id: u64| #[trigger] chain_views(r@).dom().contains(id) <==> chain_views(chains@).dom().contains(id),
        forall|id: u64| #[trigger]
            chain_views(r@).dom().contains(id) ==> chain_views(r@)[id] == chain_views(chains@)[id].skip(
                dropped(chain_views(chains@)[id], boundary, floor as nat) as int,
            ),
{
    let n = chains.len();
    let ghost keys = chains.keys();
    let ghost start = chains@;
    let mut ids: Vec<u64> = Vec::new();
    let mut k: usize = 0;
    while k < n
        invariant
            0 <= k <= n,
            n == keys.len(),
            keys == chains.keys(),
            ids@ == keys.take(k as int),
        decreases n - k,
    {
        ids.push(chains.key(k));
        proof {
            assert(keys.take(k + 1) =~= keys.take(k as int).push(keys[k as int]));
        }
        k += 1;
    }
    proof {
        assert(keys.take(n as int) =~= keys);
    }
    let mut m = chains;
    let mut i: usize = 0;
    while i < ids.len()
        invariant
            0 <= i <= ids@.len(),
            ids@ == keys,
            keys.no_duplicates(),
            forall|q: u64| #[trigger] keys.contains(q) <==> start.dom().contains(q),
            chains_wf(start),
            chains_wf(m@),
            forall|id: u64| #[trigger] m@.dom().contains(id) <==> start.dom().contains(id),
            forall|j: int|
                0 <= j < i ==> m@[#[trigger] keys[j]].versions() == start[keys[j]].versions().skip(
                    dropped(start[keys[j]].versions(), boundary, floor as nat) as int,
                ),
            forall|j: int| i <= j < keys.len() ==> m@[#[trigger] keys[j]] == start[keys[j]],
        decreases ids@.len() - i,
    {
        let id: u64 = ids[i];
        let ghost before = m@;
        proof {
            assert(keys[i as int] == id);
            assert(keys.contains(id));
        }
        if let Some(c) = m.remove(id) {
            let mut c = c;
            c.compact_for_oldest_snapshot_with_floor(boundary, floor);
            let _ = m.insert(id, c);
        }
        proof {
            assert forall|j: int| 0 <= j < keys.len() && j != i implies m@[#[trigger] keys[j]] == before[keys[j]] by {
                assert(keys[j] != keys[i as int]);
            }
        }
        i += 1;
    }
    proof {
        let after = chain_views(m@);
        let from = chain_views(start);
        assert forall|id: u64| #[trigger] after.dom().contains(id) implies after[id] == from[id].skip(
            dropped(from[id], boundary, floor as nat) as int,
        ) by {
            assert(start.dom().contains(id));
            assert(keys.contains(id));
            let j = keys.index_of(id);
            assert(keys[j] == id);
        }
        assert forall|id: u64, x: int|
            #![trigger after[id][x]]
            after.dom().contains(id) && 0 <= x < after[id].len() implies after[id][x].ts <= clock by {
            assert(start.dom().contains(id));
            let d = dropped(from[id], boundary, floor as nat) as int;
            assert(after[id] == from[id].skip(d));
            crate::mvcc::law_compaction_keeps_floor(from[id], boundary, floor as nat);
            assert(after[id][x] == from[id][x + d]);
        }
        assert forall|id: u64| #[trigger] after.dom().contains(id) implies by_time(after[id]) by {
            assert(m@[id].wf());
        }
    }
    m
}

proof fn lemma_applied_chain(c: Chains, ops: Seq<WriteView>, txn_id: u64, ts: u64, n: nat)
    requires
        n <= ops.len(),
        chains_ok(c, ts),
    ensures
        chains_ok(applied(c, ops, txn_id, ts, n), ts),
    decreases n,
{
    if n > 0 {
        lemma_applied_chain(c, ops, txn_id, ts, (n - 1) as nat);
        lemma_written_ok(applied(c, ops, txn_id, ts, (n - 1) as nat), ops[n - 1], txn_id, ts);
    }
}

/// A commit changes nothing for a transaction that began before it: what it reads stays what
/// it was.
pub proof fn law_commit_keeps_earlier_snapshots(
    c: Chains,
    ops: Seq<WriteView>,
    txn_id: u64,
    ts: u64,
    n: nat,
    own: Seq<WriteView>,
    snapshot: u64,
    id: u64,
)
    requires
        n <= ops.len(),
        chains_ok(c, ts),
        snapshot < ts,
    ensures
        reads(applied(c, ops, txn_id, ts, n), own, snapshot, id) == reads(c, own, snapshot, id),
    decreases n,
{
    if n > 0 {
        law_commit_keeps_earlier_snapshots(c, ops, txn_id, ts, (n - 1) as nat, own, snapshot, id);
        let before = applied(c, ops, txn_id, ts, (n - 1) as nat);
        lemma_applied_chain(c, ops, txn_id, ts, (n - 1) as nat);
        let op = ops[n - 1];
        let v = VersionView { txn_id, ts, record: op.record };
        if op.record_id == id {
            law_later_write_is_not_seen(chain(before, id), v, snapshot);
        }
    }
}

/// What a transaction wrote is read by every transaction that begins after its commit, and all
/// of it at once; other records are as they were.
pub proof fn law_commit_is_seen_afterwards(
    c: Chains,
    ops: Seq<WriteView>,
    txn_id: u64,
    ts: u64,
    n: nat,
    snapshot: u64,
    id: u64,
)
    requires
        n <= ops.len(),
        chains_ok(c, ts),
        snapshot >= ts,
    ensures
        visible(chain(applied(c, ops, txn_id, ts, n), id), snapshot) == (match last_write(ops.take(n as int), id) {
            Some(w) => w.record,
            None => visible(chain(c, id), snapshot),
        }),
    decreases n,
{
    if n > 0 {
        law_commit_is_seen_afterwards(c, ops, txn_id, ts, (n - 1) as nat, snapshot, id);
        let before = applied(c, ops, txn_id, ts, (n - 1) as nat);
        lemma_applied_chain(c, ops, txn_id, ts, (n - 1) as nat);
        let op = ops[n - 1];
        assert(ops.take(n as int).drop_last() =~= ops.take(n - 1));
        assert(ops.take(n as int).last() == op);
        let v = VersionView { txn_id, ts, record: op.record };
        if op.record_id == id {
            let s = chain(before, id);
            assert forall|i: int| 0 <= i < s.len() implies (#[trigger] s[i]).ts <= ts by {
                assert(before[id][i].ts <= ts);
            }
            law_newest_write_is_seen(s, v, snapshot);
        }
    } else {
        assert(ops.take(0) =~= Seq::<WriteView>::empty());
    }
}

/// A transaction reads its own writes.
pub proof fn law_read_your_writes(c: Chains, ops: Seq<WriteView>, snapshot: u64, w: WriteView)
    ensures
        reads(c, ops.push(w), snapshot, w.record_id) == w.record,
{
    assert(ops.push(w).last() == w);
}

/// Of two transactions that write a record the second to commit is refused, if it began before
/// the first committed.
pub proof fn law_second_writer_conflicts(
    c: Chains,
    first: Seq<WriteView>,
    txn_id: u64,
    ts: u64,
    second: Seq<WriteView>,
    snapshot: u64,
    i: int,
    j: int,
)
    requires
        chains_ok(c, ts),
        snapshot < ts,
        0 <= i < first.len(),
        0 <= j < second.len(),
        first[i].record_id == second[j].record_id,
    ensures
        conflicts(applied(c, first, txn_id, ts, first.len()), second, snapshot),
{
    let id = second[j].record_id;
    lemma_latest_is_commit(c, first, txn_id, ts, first.len(), i);
    assert(overtaken(applied(c, first, txn_id, ts, first.len()), second[j].record_id, snapshot));
}

proof fn lemma_latest_is_commit(c: Chains, ops: Seq<WriteView>, txn_id: u64, ts: u64, n: nat, i: int)
    requires
        chains_ok(c, ts),
        0 <= i < n <= ops.len(),
    ensures
        chain(applied(c, ops, txn_id, ts, n), ops[i].record_id).len() > 0,
        chain(applied(c, ops, txn_id, ts, n), ops[i].record_id).last().ts == ts,
    decreases n,
{
    let before = applied(c, ops, txn_id, ts, (n - 1) as nat);
    lemma_applied_chain(c, ops, txn_id, ts, (n - 1) as nat);
    lemma_written_ok(before, ops[n - 1], txn_id, ts);
    if i < n - 1 {
        lemma_latest_is_commit(c, ops, txn_id, ts, (n - 1) as nat, i);
    }
}

/// Compaction changes nothing for any running transaction, nor for those to come.
pub proof fn law_compaction_keeps_running_snapshots(
    before: Chains,
    after: Chains,
    clock: u64,
    active: Map<u64, u64>,
    oldest: Option<u64>,
    floor: nat,
    txn: u64,
    id: u64,
)
    requires
        chains_ok(before, clock),
        is_oldest(active, oldest),
        compacted(before, after, oldest, floor),
        active.dom().contains(txn),
    ensures
        visible(chain(after, id), active[txn]) == visible(chain(before, id), active[txn]),
        active[txn] <= clock ==> visible(chain(after, id), clock) == visible(chain(before, id), clock),
{
    let t = oldest->0;
    assert(t <= active[txn]);
    if before.dom().contains(id) {
        assert(after.dom().contains(id));
        law_compaction_keeps_visibility(before[id], t, floor, active[txn]);
        if active[txn] <= clock {
            law_compaction_keeps_visibility(before[id], t, floor, clock);
        }
    } else {
        assert(!after.dom().contains(id));
    }
}

/// Compaction without running transactions keeps what a new one would see.
pub proof fn law_compaction_keeps_the_latest(
    before: Chains,
    after: Chains,
    clock: u64,
    floor: nat,
    id: u64,
)
    requires
        chains_ok(before, clock),
        compacted(before, after, None, floor),
    ensures
        visible(chain(after, id), clock) == visible(chain(before, id), clock),
{
    if before.dom().contains(id) {
        assert(after.dom().contains(id));
        crate::mvcc::lemma_compaction_keeps_all_seen(before[id], u64::MAX, floor, clock);
    } else {
        assert(!after.dom().contains(id));
    }
}

} // verus!
