//! Which version a snapshot sees, where a write goes, how much a compaction drops, and which
//! writes conflict, said of the versions and their times.
use crate::mvcc::{
    by_time, dropped, lemma_not_later, lemma_split, not_later, visible,
    with_version, VersionView,
};
use crate::transaction::{
    applied, chain, chains_ok, conflicts, last_write, overtaken, reads, written, Chains, WriteView,
};
use vstd::prelude::*;

verus! {

/// A snapshot sees the last version that is not later than itself, and nothing where every
/// version is later.
pub proof fn law_snapshot_sees_the_last_version_in_time(s: Seq<VersionView>, snapshot: u64, i: int)
    requires
        by_time(s),
    ensures
        0 <= i < s.len() && s[i].ts <= snapshot && (i + 1 < s.len() ==> s[i + 1].ts > snapshot) ==> visible(
            s,
            snapshot,
        ) == s[i].record,
        (forall|k: int| 0 <= k < s.len() ==> (#[trigger] s[k]).ts > snapshot) ==> visible(s, snapshot) is None,
{
    if 0 <= i < s.len() && s[i].ts <= snapshot && (i + 1 < s.len() ==> s[i + 1].ts > snapshot) {
        assert forall|k: int| 0 <= k < i + 1 implies (#[trigger] s[k]).ts <= snapshot by {
            if k < i {
                assert(s[k].ts <= s[i].ts);
            }
        }
        assert forall|k: int| i + 1 <= k < s.len() implies (#[trigger] s[k]).ts > snapshot by {
            if k > i + 1 {
                assert(s[i + 1].ts <= s[k].ts);
            }
        }
        lemma_split(s, snapshot, (i + 1) as nat);
    }
    if forall|k: int| 0 <= k < s.len() ==> (#[trigger] s[k]).ts > snapshot {
        lemma_split(s, snapshot, 0);
    }
}

/// A write adds one version and keeps the others in their order: the earlier ones and those of
/// the same time before it, the later ones behind.
pub proof fn law_write_goes_behind_its_time(s: Seq<VersionView>, v: VersionView) -> (k: int)
    requires
        by_time(s),
    ensures
        0 <= k <= s.len(),
        with_version(s, v) =~= s.take(k).push(v) + s.skip(k),
        forall|i: int| 0 <= i < k ==> (#[trigger] s[i]).ts <= v.ts,
        forall|i: int| k <= i < s.len() ==> (#[trigger] s[i]).ts > v.ts,
{
    lemma_not_later(s, v.ts);
    not_later(s, v.ts) as int
}

/// A compaction drops all that it may: what is left is as many versions as the floor asks for
/// (at least one), or the oldest one left is the one that the oldest snapshot sees, or none is
/// old enough to go.
pub proof fn law_compaction_drops_what_nobody_sees(s: Seq<VersionView>, oldest: u64, floor: nat)
    requires
        by_time(s),
    ensures
        ({
            let d = dropped(s, oldest, floor) as int;
            let least: nat = if floor < 1 {
                1
            } else {
                floor
            };
            &&& 0 <= d <= s.len()
            &&& s.len() > 0 ==> d < s.len()
            &&& d > 0 ==> s.len() - d >= least
            &&& s.len() - d > least ==> d + 1 >= s.len() || s[d + 1].ts > oldest
            &&& d > 0 ==> s[d].ts <= oldest
        }),
{
    lemma_not_later(s, oldest);
}

/// The last of the writes to a record is the one that no other to it follows.
pub proof fn law_last_write_is_the_last(ops: Seq<WriteView>, id: u64, i: int)
    ensures
        0 <= i < ops.len() && ops[i].record_id == id && (forall|j: int|
            i < j < ops.len() ==> (#[trigger] ops[j]).record_id != id) ==> last_write(ops, id) == Some(ops[i]),
        (forall|j: int| 0 <= j < ops.len() ==> (#[trigger] ops[j]).record_id != id) ==> last_write(ops, id) is None,
    decreases ops.len(),
{
    if ops.len() > 0 {
        let front = ops.drop_last();
        law_last_write_is_the_last(front, id, i);
        if 0 <= i < front.len() && (forall|j: int| i < j < ops.len() ==> (#[trigger] ops[j]).record_id != id) {
            assert(ops[ops.len() - 1].record_id != id);
            assert forall|j: int| i < j < front.len() implies (#[trigger] front[j]).record_id != id by {
                assert(ops[j].record_id != id);
            }
        }
        if forall|j: int| 0 <= j < ops.len() ==> (#[trigger] ops[j]).record_id != id {
            assert(ops[ops.len() - 1].record_id != id);
            assert forall|j: int| 0 <= j < front.len() implies (#[trigger] front[j]).record_id != id by {
                assert(ops[j].record_id != id);
            }
        }
    }
}

/// A transaction reads its own last write to a record; where it wrote none, it reads the last
/// version that its snapshot is not earlier than.
pub proof fn law_transaction_reads_own_writes_or_its_snapshot(
    c: Chains,
    ops: Seq<WriteView>,
    snapshot: u64,
    id: u64,
    i: int,
    k: int,
)
    requires
        by_time(chain(c, id)),
    ensures
        0 <= i < ops.len() && ops[i].record_id == id && (forall|j: int|
            i < j < ops.len() ==> (#[trigger] ops[j]).record_id != id) ==> reads(c, ops, snapshot, id) == ops[i].record,
        (forall|j: int| 0 <= j < ops.len() ==> (#[trigger] ops[j]).record_id != id) && 0 <= k < chain(c, id).len()
            && chain(c, id)[k].ts <= snapshot && (k + 1 < chain(c, id).len() ==> chain(c, id)[k + 1].ts > snapshot)
            ==> reads(c, ops, snapshot, id) == chain(c, id)[k].record,
{
    law_last_write_is_the_last(ops, id, i);
    law_snapshot_sees_the_last_version_in_time(chain(c, id), snapshot, k);
}

/// A transaction conflicts exactly where a record that it writes has a version later than its
/// snapshot.
pub proof fn law_conflicts_are_later_versions(c: Chains, ops: Seq<WriteView>, snapshot: u64)
    requires
        forall|id: u64| #[trigger] c.dom().contains(id) ==> by_time(c[id]),
    ensures
        conflicts(c, ops, snapshot) <==> exists|i: int, k: int|
            0 <= i < ops.len() && c.dom().contains((#[trigger] ops[i]).record_id) && 0 <= k < c[ops[i].record_id].len()
                && (#[trigger] c[ops[i].record_id][k]).ts > snapshot,
{
    if conflicts(c, ops, snapshot) {
        let i = choose|i: int| 0 <= i < ops.len() && overtaken(c, (#[trigger] ops[i]).record_id, snapshot);
        let s = c[ops[i].record_id];
        assert(s[s.len() - 1].ts > snapshot);
        assert(c[ops[i].record_id][s.len() - 1].ts > snapshot);
    }
    if exists|i: int, k: int|
        0 <= i < ops.len() && c.dom().contains((#[trigger] ops[i]).record_id) && 0 <= k < c[ops[i].record_id].len() && (
        #[trigger] c[ops[i].record_id][k]).ts > snapshot {
        let (i, k) = choose|i: int, k: int|
            0 <= i < ops.len() && c.dom().contains((#[trigger] ops[i]).record_id) && 0 <= k < c[ops[i].record_id].len()
                && (#[trigger] c[ops[i].record_id][k]).ts > snapshot;
        let s = c[ops[i].record_id];
        if k < s.len() - 1 {
            assert(s[k].ts <= s[s.len() - 1].ts);
        }
        assert(overtaken(c, ops[i].record_id, snapshot));
    }
}

/// One write of a commit gives its record a version with the number of the transaction, the
/// time of the commit and the record written, and leaves every other record alone.
pub proof fn law_write_makes_one_version(c: Chains, op: WriteView, txn_id: u64, ts: u64, other: u64)
    requires
        chains_ok(c, ts),
    ensures
        chain(written(c, op, txn_id, ts), op.record_id) =~= chain(c, op.record_id).push(
            VersionView { txn_id, ts, record: op.record },
        ),
        other != op.record_id ==> chain(written(c, op, txn_id, ts), other) == chain(c, other),
{
    let s = chain(c, op.record_id);
    assert forall|i: int| 0 <= i < s.len() implies (#[trigger] s[i]).ts <= ts by {
        assert(c[op.record_id][i].ts <= ts);
    }
    crate::mvcc::lemma_newest_goes_last(s, VersionView { txn_id, ts, record: op.record });
}

/// A commit applies all of its writes, one after the other.
pub proof fn law_commit_applies_every_write(c: Chains, ops: Seq<WriteView>, txn_id: u64, ts: u64, n: nat)
    requires
        n < ops.len(),
    ensures
        applied(c, ops, txn_id, ts, 0) == c,
        applied(c, ops, txn_id, ts, n + 1) == written(applied(c, ops, txn_id, ts, n), ops[n as int], txn_id, ts),
{
}

} // verus!
