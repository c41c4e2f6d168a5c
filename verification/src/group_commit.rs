//! Group commit: when a batch of records is to be forced to disk.
use crate::clock::{moment, nanos_in, nanos_since, whole_nanos};
use std::time::{Duration, Instant};
use vstd::prelude::*;

verus! {

/// Bounds on an unsynced group.
#[derive(Debug, Clone, Copy)]
pub struct GroupCommitPolicy {
    /// Sync after this many records, at least one.
    pub max_batch: usize,
    /// Sync when the first record of the group has waited this long, if set.
    pub max_interval: Option<Duration>,
}

/// Whether a group of `pending` records is full.
pub open spec fn batch_full(policy: GroupCommitPolicy, pending: nat) -> bool {
    pending >= (if policy.max_batch < 1 {
        1
    } else {
        policy.max_batch as nat
    })
}

/// Whether a group of `pending` records that has waited `waited` nanoseconds is to be synced.
pub open spec fn sync_due(policy: GroupCommitPolicy, pending: nat, waited: u128) -> bool {
    batch_full(policy, pending) || (policy.max_interval matches Some(iv) && waited >= nanos_in(iv))
}

impl GroupCommitPolicy {
    /// Whether a group of `pending` records that has waited `waited` nanoseconds is to be
    /// synced.
    pub fn due(&self, pending: usize, waited: u128) -> (r: bool)
        ensures
            r == sync_due(*self, pending as nat, waited),
    {
        let full = pending >= 1 && pending >= self.max_batch;
        let waited_enough = match self.max_interval {
            Some(iv) => waited >= whole_nanos(iv),
            None => false,
        };
        full || waited_enough
    }
}

/// Whether the machine's clock can measure `waited` nanoseconds since an instant.
pub closed spec fn measured(t: Instant, waited: u128) -> bool {
    call_ensures(nanos_since, (&t,), waited)
}

/// Whether the machine's clock is what gave an instant.
pub closed spec fn begun(t: Instant) -> bool {
    call_ensures(moment, (), t)
}

/// Records since the last sync, and since when the first of them waits.
#[derive(Debug)]
pub struct GroupCommit {
    policy: GroupCommitPolicy,
    pending_since_sync: usize,
    unsynced_since: Option<Instant>,
}

impl GroupCommit {
    /// The bounds.
    pub closed spec fn policy(self) -> GroupCommitPolicy {
        self.policy
    }

    /// How many records wait.
    pub closed spec fn pending(self) -> nat {
        self.pending_since_sync as nat
    }

    /// Since when the first record of the group waits; nothing before it came.
    pub closed spec fn since(self) -> Option<Instant> {
        self.unsynced_since
    }

    /// No records yet.
    pub fn new(policy: GroupCommitPolicy) -> (r: Self)
        ensures
            r.policy() == policy,
            r.pending() == 0,
            r.since() is None,
    {
        GroupCommit { policy, pending_since_sync: 0, unsynced_since: None }
    }

    /// Counts a record that was appended; `true` when the group is to be synced now, which
    /// ends it. The waiting time counts from the first record of the group, by the machine's
    /// clock.
    pub fn after_record(&mut self) -> (r: bool)
        requires
            old(self).pending() < usize::MAX,
        ensures
            final(self).policy() == old(self).policy(),
            exists|t: Instant, waited: u128| #[trigger]
                measured(t, waited) && (match old(self).since() {
                    Some(s) => t == s,
                    None => begun(t),
                }) && r == sync_due(
                    old(self).policy(),
                    old(self).pending() + 1,
                    waited,
                ) && (!r ==> final(self).since() == Some(t)),
            r ==> final(self).pending() == 0 && final(self).since() is None,
            !r ==> final(self).pending() == old(self).pending() + 1,
            batch_full(old(self).policy(), old(self).pending() + 1) ==> r,
            old(self).policy().max_interval is None ==> r == batch_full(old(self).policy(), old(self).pending() + 1),
    {
        let pending: usize = self.pending_since_sync + 1;
        let since = match self.unsynced_since {
            Some(t) => t,
            None => moment(),
        };
        let waited: u128 = nanos_since(&since);
        let due = self.policy.due(pending, waited);
        if due {
            self.pending_since_sync = 0;
            self.unsynced_since = None;
        } else {
            self.pending_since_sync = pending;
            self.unsynced_since = Some(since);
        }
        proof {
            let count = (old(self).pending() + 1) as nat;
            assert(due == sync_due(old(self).policy(), count, waited));
            assert(measured(since, waited));
        }
        due
    }

    /// Whether records wait.
    pub fn has_pending(&self) -> (r: bool)
        ensures
            r == (self.pending() > 0),
    {
        self.pending_since_sync > 0
    }
}

/// A longer wait never takes a sync back, nor do more records.
pub proof fn law_due_stays_due(policy: GroupCommitPolicy, pending: nat, more: nat, waited: u128, longer: u128)
    requires
        sync_due(policy, pending, waited),
        pending <= more,
        waited <= longer,
    ensures
        sync_due(policy, more, longer),
{
}

} // verus!
