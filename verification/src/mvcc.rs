//! Version chains: every write of a record with its time, and what a snapshot sees of them.
use crate::json_value::RecordView;
use vstd::prelude::*;

pub use crate::json_value::Record;

verus! {

/// One version of a record; `None` marks its deletion.
#[derive(Debug)]
pub struct VersionEntry {
    pub txn_id: u64,
    pub ts: u64,
    pub record: Option<Record>,
}

/// What a [`VersionEntry`] holds.
pub struct VersionView {
    pub txn_id: u64,
    pub ts: u64,
    pub record: Option<RecordView>,
}

/// What an optional record holds.
pub open spec fn record_view(r: Option<Record>) -> Option<RecordView> {
    match r {
        Some(x) => Some(x@),
        None => None,
    }
}

impl View for VersionEntry {
    type V = VersionView;

    open spec fn view(&self) -> VersionView {
        VersionView { txn_id: self.txn_id, ts: self.ts, record: record_view(self.record) }
    }
}

/// What a sequence of versions holds.
pub open spec fn version_views(s: Seq<VersionEntry>) -> Seq<VersionView> {
    Seq::new(s.len(), |i: int| s[i]@)
}

/// Whether versions stand in the order of their times.
pub open spec fn by_time(s: Seq<VersionView>) -> bool {
    forall|i: int, j: int| 0 <= i < j < s.len() ==> (#[trigger] s[i]).ts <= (#[trigger] s[j]).ts
}

/// How many versions are not later than `ts`, in a sequence in order of time.
pub open spec fn not_later(s: Seq<VersionView>, ts: u64) -> nat
    decreases s.len(),
{
    if s.len() == 0 {
        0
    } else if s.last().ts <= ts {
        s.len()
    } else {
        not_later(s.drop_last(), ts)
    }
}

/// The versions with a new one behind all that are not later.
pub open spec fn with_version(s: Seq<VersionView>, v: VersionView) -> Seq<VersionView> {
    s.insert(not_later(s, v.ts) as int, v)
}

/// What a snapshot sees: the record of the last version that is not later.
pub open spec fn visible(s: Seq<VersionView>, snapshot: u64) -> Option<RecordView> {
    let n = not_later(s, snapshot);
    if n == 0 {
        None
    } else {
        s[n - 1].record
    }
}

/// How many of the oldest versions are dropped when `oldest` is the oldest snapshot: all but
/// the last that it can see, as long as `floor` versions are left.
pub open spec fn dropped(s: Seq<VersionView>, oldest: u64, floor: nat) -> nat {
    let k = not_later(s, oldest);
    let least = if floor < 1 {
        1
    } else {
        floor
    };
    if s.len() <= 1 || k == 0 {
        0
    } else if s.len() - (k - 1) >= least {
        (k - 1) as nat
    } else if s.len() >= least {
        (s.len() - least) as nat
    } else {
        0
    }
}

pub proof fn lemma_not_later(s: Seq<VersionView>, ts: u64)
    requires
        by_time(s),
    ensures
        not_later(s, ts) <= s.len(),
        forall|i: int| 0 <= i < not_later(s, ts) ==> (#[trigger] s[i]).ts <= ts,
        forall|i: int| not_later(s, ts) <= i < s.len() ==> (#[trigger] s[i]).ts > ts,
    decreases s.len(),
{
    if s.len() > 0 {
        if s.last().ts <= ts {
            assert forall|i: int| 0 <= i < s.len() implies (#[trigger] s[i]).ts <= ts by {
                if i < s.len() - 1 {
                    assert(s[i].ts <= s[s.len() - 1].ts);
                }
            }
        } else {
            let front = s.drop_last();
            lemma_not_later(front, ts);
            assert forall|i: int| 0 <= i < not_later(s, ts) implies (#[trigger] s[i]).ts <= ts by {
                assert(front[i] == s[i]);
            }
            assert forall|i: int| not_later(s, ts) <= i < s.len() implies (#[trigger] s[i]).ts > ts by {
                if i < front.len() {
                    assert(front[i].ts > ts);
                }
            }
        }
    }
}

/// A split of the versions at `n` by time is the one that counts.
pub proof fn lemma_split(s: Seq<VersionView>, ts: u64, n: nat)
    requires
        by_time(s),
        n <= s.len(),
        forall|i: int| 0 <= i < n ==> (#[trigger] s[i]).ts <= ts,
        forall|i: int| n <= i < s.len() ==> (#[trigger] s[i]).ts > ts,
    ensures
        not_later(s, ts) == n,
{
    lemma_not_later(s, ts);
    let k = not_later(s, ts);
    if k < n {
        assert(s[k as int].ts <= ts);
    } else if n < k {
        assert(s[n as int].ts <= ts);
    }
}

pub proof fn lemma_with_version(s: Seq<VersionView>, v: VersionView)
    requires
        by_time(s),
    ensures
        by_time(with_version(s, v)),
        with_version(s, v).len() == s.len() + 1,
{
    lemma_not_later(s, v.ts);
    let k = not_later(s, v.ts) as int;
    let t = with_version(s, v);
    assert forall|i: int, j: int| 0 <= i < j < t.len() implies (#[trigger] t[i]).ts <= (#[trigger] t[j]).ts by {
        let a = if i < k { i } else { i - 1 };
        let b = if j < k { j } else { j - 1 };
        if i != k && j != k {
            assert(t[i] == s[a] && t[j] == s[b]);
        } else if i == k {
            assert(t[j] == s[b]);
        } else {
            assert(t[i] == s[a]);
        }
    }
}

/// The versions of one record, the oldest first.
#[derive(Debug)]
pub struct VersionChain {
    pub record_id: u64,
    versions: Vec<VersionEntry>,
}

impl VersionChain {
    /// The record that the versions are of.
    pub closed spec fn id(self) -> u64 {
        self.record_id
    }

    /// The versions, the oldest first.
    pub closed spec fn versions(self) -> Seq<VersionView> {
        version_views(self.versions@)
    }

    /// Whether the versions stand in the order of their times.
    pub open spec fn wf(self) -> bool {
        by_time(self.versions())
    }

    /// A record without versions.
    pub fn new(record_id: u64) -> (r: Self)
        ensures
            r.wf(),
            r.id() == record_id,
            r.versions() == Seq::<VersionView>::empty(),
    {
        let r = VersionChain { record_id, versions: Vec::new() };
        proof {
            assert(r.versions() =~= Seq::<VersionView>::empty());
        }
        r
    }

    fn position(&self, ts: u64) -> (r: usize)
        requires
            self.wf(),
        ensures
            r == not_later(self.versions(), ts),
            r <= self.versions@.len(),
    {
        let ghost s = self.versions();
        let mut n: usize = self.versions.len();
        proof {
            assert(s.take(n as int) =~= s);
        }
        while n > 0
            invariant
                0 <= n <= self.versions@.len(),
                s == version_views(self.versions@),
                not_later(s.take(n as int), ts) == not_later(s, ts),
            decreases n,
        {
            proof {
                assert(s.take(n as int).last() == self.versions@[n - 1]@);
                assert(s.take(n as int).drop_last() =~= s.take(n - 1));
            }
            if self.versions[n - 1].ts <= ts {
                return n;
            }
            n -= 1;
        }
        n
    }

    fn add(&mut self, entry: VersionEntry)
        requires
            old(self).wf(),
        ensures
            final(self).wf(),
            final(self).id() == old(self).id(),
            final(self).versions() == with_version(old(self).versions(), entry@),
    {
        let pos: usize = self.position(entry.ts);
        let ghost before = self.versions();
        proof {
            lemma_with_version(before, entry@);
        }
        self.versions.insert(pos, entry);
        proof {
            assert(self.versions() =~= with_version(before, entry@));
        }
    }

    /// Adds a version at the time `ts`.
    pub fn insert_version(&mut self, record: Record, txn_id: u64, ts: u64)
        requires
            old(self).wf(),
        ensures
            final(self).wf(),
            final(self).id() == old(self).id(),
            final(self).versions() == with_version(
                old(self).versions(),
                (VersionView { txn_id, ts, record: Some(record@) }),
            ),
    {
        self.add(VersionEntry { txn_id, ts, record: Some(record) });
    }

    /// Marks the record as deleted at the time `ts`.
    pub fn delete(&mut self, txn_id: u64, ts: u64)
        requires
            old(self).wf(),
        ensures
            final(self).wf(),
            final(self).id() == old(self).id(),
            final(self).versions() == with_version(
                old(self).versions(),
                (VersionView { txn_id, ts, record: None }),
            ),
    {
        self.add(VersionEntry { txn_id, ts, record: None });
    }

    /// The record as a snapshot sees it.
    pub fn visible_at(&self, snapshot_ts: u64) -> (r: Option<&Record>)
        requires
            self.wf(),
        ensures
            match r {
                Some(x) => visible(self.versions(), snapshot_ts) == Some(x@),
                None => visible(self.versions(), snapshot_ts) is None,
            },
    {
        let n: usize = self.position(snapshot_ts);
        if n == 0 {
            return None;
        }
        proof {
            assert(self.versions()[n - 1] == self.versions@[n - 1]@);
        }
        match &self.versions[n - 1].record {
            Some(x) => Some(x),
            None => None,
        }
    }

    /// How many versions there are.
    pub fn version_count(&self) -> (r: usize)
        ensures
            r == self.versions().len(),
    {
        self.versions.len()
    }

    /// The time of the latest version.
    pub fn latest_ts(&self) -> (r: Option<u64>)
        ensures
            r == (if self.versions().len() == 0 {
                None
            } else {
                Some(self.versions().last().ts)
            }),
    {
        if self.versions.len() == 0 {
            None
        } else {
            Some(self.versions[self.versions.len() - 1].ts)
        }
    }

    /// Drops versions that no snapshot from `oldest_active_snapshot` on can see.
    pub fn compact_for_oldest_snapshot(&mut self, oldest_active_snapshot: u64)
        requires
            old(self).wf(),
        ensures
            final(self).wf(),
            final(self).id() == old(self).id(),
            final(self).versions() == old(self).versions().skip(
                dropped(old(self).versions(), oldest_active_snapshot, 1) as int,
            ),
    {
        self.compact_for_oldest_snapshot_with_floor(oldest_active_snapshot, 1);
    }

    /// The same, keeping at least the `min_versions_to_keep` newest versions.
    pub fn compact_for_oldest_snapshot_with_floor(&mut self, oldest_active_snapshot: u64, min_versions_to_keep: usize)
        requires
            old(self).wf(),
        ensures
            final(self).wf(),
            final(self).id() == old(self).id(),
            final(self).versions() == old(self).versions().skip(
                dropped(old(self).versions(), oldest_active_snapshot, min_versions_to_keep as nat) as int,
            ),
    {
        let ghost s = self.versions();
        let len: usize = self.versions.len();
        let k: usize = self.position(oldest_active_snapshot);
        let least: usize = if min_versions_to_keep < 1 {
            1
        } else {
            min_versions_to_keep
        };
        let drop_count: usize = if len <= 1 || k == 0 {
            0
        } else if len - (k - 1) >= least {
            k - 1
        } else if len >= least {
            len - least
        } else {
            0
        };
        proof {
            assert(drop_count == dropped(s, oldest_active_snapshot, min_versions_to_keep as nat));
        }
        let tail = self.versions.split_off(drop_count);
        self.versions = tail;
        proof {
            assert(self.versions() =~= s.skip(drop_count as int));
            assert forall|i: int, j: int| 0 <= i < j < self.versions().len() implies (
            #[trigger] self.versions()[i]).ts <= (#[trigger] self.versions()[j]).ts by {
                assert(s[i + drop_count].ts <= s[j + drop_count].ts);
            }
        }
    }
}

/// A version that no other is later than goes to the end.
pub proof fn lemma_newest_goes_last(s: Seq<VersionView>, v: VersionView)
    requires
        by_time(s),
        forall|i: int| 0 <= i < s.len() ==> (#[trigger] s[i]).ts <= v.ts,
    ensures
        with_version(s, v) == s.push(v),
        by_time(s.push(v)),
{
    lemma_split(s, v.ts, s.len());
    lemma_with_version(s, v);
    assert(with_version(s, v) =~= s.push(v));
}

/// Compaction keeps what a snapshot sees that sees every version.
pub proof fn lemma_compaction_keeps_all_seen(s: Seq<VersionView>, oldest: u64, floor: nat, snapshot: u64)
    requires
        by_time(s),
        forall|i: int| 0 <= i < s.len() ==> (#[trigger] s[i]).ts <= snapshot,
    ensures
        visible(s.skip(dropped(s, oldest, floor) as int), snapshot) == visible(s, snapshot),
{
    lemma_not_later(s, oldest);
    let d = dropped(s, oldest, floor);
    law_compaction_keeps_floor(s, oldest, floor);
    let t = s.skip(d as int);
    assert forall|i: int, j: int| 0 <= i < j < t.len() implies (#[trigger] t[i]).ts <= (#[trigger] t[j]).ts by {
        assert(s[i + d].ts <= s[j + d].ts);
    }
    assert forall|i: int| 0 <= i < t.len() implies (#[trigger] t[i]).ts <= snapshot by {
        assert(t[i] == s[i + d]);
    }
    lemma_split(s, snapshot, s.len());
    lemma_split(t, snapshot, t.len());
    if s.len() > 0 {
        assert(t[t.len() - 1] == s[s.len() - 1]);
    }
}

/// A snapshot sees a write exactly when the write is not later, on a record without others.
pub proof fn law_snapshot_never_sees_future_write(v: VersionView, snapshot: u64)
    ensures
        visible(with_version(Seq::empty(), v), snapshot) == (if v.ts <= snapshot {
            v.record
        } else {
            None
        }),
{
    let none = Seq::<VersionView>::empty();
    let t = with_version(none, v);
    assert(not_later(none, v.ts) == 0);
    assert(t =~= seq![v]);
    lemma_split(
        t,
        snapshot,
        if v.ts <= snapshot {
            1
        } else {
            0
        },
    );
}

/// A later write changes nothing for an earlier snapshot.
pub proof fn law_later_write_is_not_seen(s: Seq<VersionView>, v: VersionView, snapshot: u64)
    requires
        by_time(s),
        snapshot < v.ts,
    ensures
        visible(with_version(s, v), snapshot) == visible(s, snapshot),
{
    lemma_not_later(s, v.ts);
    lemma_not_later(s, snapshot);
    lemma_with_version(s, v);
    let k = not_later(s, v.ts) as int;
    let n = not_later(s, snapshot);
    let t = with_version(s, v);
    assert(n <= k) by {
        if n > k {
            assert(s[k].ts <= snapshot);
        }
    }
    assert forall|i: int| 0 <= i < n implies (#[trigger] t[i]).ts <= snapshot by {
        assert(t[i] == s[i]);
    }
    assert forall|i: int| n <= i < t.len() implies (#[trigger] t[i]).ts > snapshot by {
        if i < k {
            assert(t[i] == s[i]);
        } else if i > k {
            assert(t[i] == s[i - 1]);
        }
    }
    lemma_split(t, snapshot, n);
    if n > 0 {
        assert(t[n - 1] == s[n - 1]);
    }
}

/// The newest write is what every later snapshot sees.
pub proof fn law_newest_write_is_seen(s: Seq<VersionView>, v: VersionView, snapshot: u64)
    requires
        by_time(s),
        forall|i: int| 0 <= i < s.len() ==> (#[trigger] s[i]).ts <= v.ts,
        v.ts <= snapshot,
    ensures
        visible(with_version(s, v), snapshot) == v.record,
{
    lemma_split(s, v.ts, s.len());
    lemma_with_version(s, v);
    let t = with_version(s, v);
    assert(t =~= s.push(v));
    assert forall|i: int| 0 <= i < t.len() implies (#[trigger] t[i]).ts <= snapshot by {
        if i < s.len() {
            assert(t[i] == s[i]);
        }
    }
    lemma_split(t, snapshot, t.len());
}

/// Compaction changes nothing for snapshots from the oldest one on.
pub proof fn law_compaction_keeps_visibility(s: Seq<VersionView>, oldest: u64, floor: nat, snapshot: u64)
    requires
        by_time(s),
        oldest <= snapshot,
    ensures
        visible(s.skip(dropped(s, oldest, floor) as int), snapshot) == visible(s, snapshot),
        by_time(s.skip(dropped(s, oldest, floor) as int)),
{
    let d = dropped(s, oldest, floor);
    let t = s.skip(d as int);
    lemma_not_later(s, oldest);
    lemma_not_later(s, snapshot);
    let k = not_later(s, oldest);
    let n = not_later(s, snapshot);
    assert(k <= n) by {
        if n < k {
            assert(s[n as int].ts <= oldest);
        }
    }
    assert forall|i: int, j: int| 0 <= i < j < t.len() implies (#[trigger] t[i]).ts <= (#[trigger] t[j]).ts by {
        assert(s[i + d].ts <= s[j + d].ts);
    }
    if d == 0 {
        assert(t =~= s);
    } else {
        assert(d <= k - 1);
        assert forall|i: int| 0 <= i < n - d implies (#[trigger] t[i]).ts <= snapshot by {
            assert(t[i] == s[i + d]);
        }
        assert forall|i: int| n - d <= i < t.len() implies (#[trigger] t[i]).ts > snapshot by {
            assert(t[i] == s[i + d]);
        }
        lemma_split(t, snapshot, (n - d) as nat);
        assert(t[n - d - 1] == s[n - 1]);
    }
}

/// Compaction leaves the newest versions alone: at least as many as the floor asks for, or all.
pub proof fn law_compaction_keeps_floor(s: Seq<VersionView>, oldest: u64, floor: nat)
    requires
        by_time(s),
    ensures
        dropped(s, oldest, floor) <= s.len(),
        s.len() - dropped(s, oldest, floor) >= (if s.len() < floor {
            s.len()
        } else {
            floor
        }),
        s.len() > 0 ==> dropped(s, oldest, floor) < s.len(),
{
    lemma_not_later(s, oldest);
}

/// A deletion hides the record from every later snapshot.
pub proof fn law_deleted_record_is_invisible(s: Seq<VersionView>, txn_id: u64, ts: u64, snapshot: u64)
    requires
        by_time(s),
        forall|i: int| 0 <= i < s.len() ==> (#[trigger] s[i]).ts <= ts,
        ts <= snapshot,
    ensures
        visible(with_version(s, VersionView { txn_id, ts, record: None }), snapshot) is None,
{
    law_newest_write_is_seen(s, VersionView { txn_id, ts, record: None }, snapshot);
}

} // verus!
