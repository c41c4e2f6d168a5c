//! Lifecycle policies: strands are immortal unless a collection opts in to expiry, and deleted
//! strands are kept for a grace period.
use crate::clock::{nanos_in, whole_nanos};
use crate::model::{RefreshPolicy, Strand, StrandView, Telomere};
use crate::support::bytes::lex_less;
use crate::support::sort::{
    arranged, lemma_arranged, lemma_lex_is_order, sort_signatures, strict_weak_order,
};
use crate::support::text::owned;
use std::collections::HashMap;
use std::time::Duration;
use vstd::prelude::*;

verus! {

broadcast use vstd::std_specs::hash::group_hash_axioms;

/// Whether strands of a collection can expire.
#[derive(Debug, Clone, Copy, PartialEq, Eq, Structural)]
pub enum LifecycleMode {
    Immortal,
    Telomere,
}

/// What happens to an expired strand.
#[derive(Debug, Clone, Copy, PartialEq, Eq, Structural)]
pub enum ExpireAction {
    Nothing,
    Archive,
    Delete,
}

/// The lifecycle of a collection's strands.
#[derive(Debug, Clone, Copy, PartialEq, Eq, Structural)]
pub struct LifecyclePolicy {
    pub mode: LifecycleMode,
    pub initial_count: u16,
    pub refresh_policy: RefreshPolicy,
    pub on_expire: ExpireAction,
    pub minimum_age_ns: u64,
}

/// The policy of collections that have none of their own.
pub open spec fn immortal_policy() -> LifecyclePolicy {
    LifecyclePolicy {
        mode: LifecycleMode::Immortal,
        initial_count: u16::MAX,
        refresh_policy: RefreshPolicy::Immortal,
        on_expire: ExpireAction::Nothing,
        minimum_age_ns: 0,
    }
}

/// The policy of a collection: its own, or the immortal one.
pub open spec fn policy_of(policies: Map<u32, LifecyclePolicy>, collection_id: u32) -> LifecyclePolicy {
    if policies.dom().contains(collection_id) {
        policies[collection_id]
    } else {
        immortal_policy()
    }
}

/// Policies by collection.
#[derive(Debug)]
pub struct LifecyclePolicyStore {
    policies_by_collection: HashMap<u32, LifecyclePolicy>,
}

impl LifecyclePolicyStore {
    /// The policies that were set.
    pub closed spec fn policies(self) -> Map<u32, LifecyclePolicy> {
        self.policies_by_collection@
    }

    /// No policies.
    pub fn new() -> (r: Self)
        ensures
            r.policies() == Map::<u32, LifecyclePolicy>::empty(),
    {
        LifecyclePolicyStore { policies_by_collection: HashMap::new() }
    }

    /// Sets the policy of a collection.
    pub fn set_policy(&mut self, collection_id: u32, policy: LifecyclePolicy)
        ensures
            final(self).policies() == old(self).policies().insert(collection_id, policy),
    {
        self.policies_by_collection.insert(collection_id, policy);
    }

    /// Takes the policy of a collection back.
    pub fn clear_policy(&mut self, collection_id: u32)
        ensures
            final(self).policies() == old(self).policies().remove(collection_id),
    {
        self.policies_by_collection.remove(&collection_id);
    }

    /// The policy of a collection.
    pub fn policy_for(&self, collection_id: u32) -> (r: LifecyclePolicy)
        ensures
            r == policy_of(self.policies(), collection_id),
    {
        effective_policy_for_collection(collection_id, &self.policies_by_collection)
    }
}

impl Default for LifecyclePolicy {
    fn default() -> (r: Self)
        ensures
            r == immortal_policy(),
    {
        Self::immortal_default()
    }
}

impl LifecyclePolicy {
    /// The policy of collections that have none of their own.
    pub fn immortal_default() -> (r: Self)
        ensures
            r == immortal_policy(),
    {
        LifecyclePolicy {
            mode: LifecycleMode::Immortal,
            initial_count: u16::MAX,
            refresh_policy: RefreshPolicy::Immortal,
            on_expire: ExpireAction::Nothing,
            minimum_age_ns: 0,
        }
    }

    /// A policy with expiry. The minimum age is kept in nanoseconds, its low 64 bits.
    pub fn telomere_opt_in(
        initial_count: u16,
        refresh_policy: RefreshPolicy,
        on_expire: ExpireAction,
        minimum_age: Duration,
    ) -> (r: Self)
        ensures
            r == (LifecyclePolicy {
                mode: LifecycleMode::Telomere,
                initial_count,
                refresh_policy,
                on_expire,
                minimum_age_ns: (nanos_in(minimum_age) % 0x1_0000_0000_0000_0000) as u64,
            }),
    {
        LifecyclePolicy {
            mode: LifecycleMode::Telomere,
            initial_count,
            refresh_policy,
            on_expire,
            minimum_age_ns: (whole_nanos(minimum_age) % 0x1_0000_0000_0000_0000) as u64,
        }
    }
}

/// What is to be done with a strand, the gentlest first.
#[derive(Debug, Clone, Copy, PartialEq, Eq, PartialOrd, Ord, Structural)]
pub enum LifecycleDecision {
    Keep,
    NeedsManualRefresh,
    Archive,
    SoftDelete,
}

/// A strand in the deleted pool.
#[derive(Debug, PartialEq, Eq)]
pub struct DeletedStrandRecord {
    pub signature: [u8; 8],
    pub collection_id: u32,
    pub deleted_at_ns: u64,
    pub purge_after_ns: u64,
    pub reason: String,
}

impl Clone for DeletedStrandRecord {
    fn clone(&self) -> (r: Self)
        ensures
            r == *self,
    {
        DeletedStrandRecord {
            signature: self.signature,
            collection_id: self.collection_id,
            deleted_at_ns: self.deleted_at_ns,
            purge_after_ns: self.purge_after_ns,
            reason: self.reason.clone(),
        }
    }
}

/// How long deleted strands are kept.
#[derive(Debug, Clone, Copy, PartialEq, Eq, Structural)]
pub struct DeleteConfig {
    pub grace_period_ns: u64,
}

impl DeleteConfig {
    /// A grace period, kept in nanoseconds, its low 64 bits.
    pub fn with_grace_period(period: Duration) -> (r: Self)
        ensures
            r.grace_period_ns == nanos_in(period) % 0x1_0000_0000_0000_0000,
    {
        DeleteConfig { grace_period_ns: (whole_nanos(period) % 0x1_0000_0000_0000_0000) as u64 }
    }

    /// A grace period of thirty days.
    pub fn default_soft_delete() -> (r: Self)
        ensures
            r.grace_period_ns == 30 * 24 * 60 * 60 * 1_000_000_000,
    {
        DeleteConfig { grace_period_ns: 2_592_000_000_000_000 }
    }
}

impl Default for DeleteConfig {
    fn default() -> (r: Self)
        ensures
            r.grace_period_ns == 30 * 24 * 60 * 60 * 1_000_000_000,
    {
        Self::default_soft_delete()
    }
}

/// What a sweep purged.
#[derive(Debug, PartialEq, Eq)]
pub struct HardDeleteSweepResult {
    pub purged_signatures: Vec<[u8; 8]>,
}

/// The policy of a collection.
pub fn effective_policy_for_collection(collection_id: u32, collection_policies: &HashMap<u32, LifecyclePolicy>) -> (r:
    LifecyclePolicy)
    ensures
        r == policy_of(collection_policies@, collection_id),
{
    match collection_policies.get(&collection_id) {
        Some(p) => *p,
        None => LifecyclePolicy::immortal_default(),
    }
}

/// A strand with another telomere.
pub open spec fn with_telomere(v: StrandView, t: Telomere) -> StrandView {
    StrandView { telomere: t, ..v }
}

/// The telomere of a new strand.
pub open spec fn new_telomere(policy: LifecyclePolicy, now: u64) -> Telomere {
    Telomere {
        count: if policy.mode == LifecycleMode::Immortal {
            u16::MAX
        } else {
            policy.initial_count
        },
        immortal: policy.mode == LifecycleMode::Immortal,
        last_refresh: now,
        refresh_policy: policy.refresh_policy,
    }
}

/// Gives a new strand the telomere of its policy.
pub fn initialize_telomere_for_new_strand(strand: &mut Strand, policy: LifecyclePolicy, now_ns: u64)
    ensures
        final(strand)@ == with_telomere(old(strand)@, new_telomere(policy, now_ns)),
{
    let immortal = policy.mode == LifecycleMode::Immortal;
    strand.telomere = Telomere {
        count: if immortal {
            u16::MAX
        } else {
            policy.initial_count
        },
        immortal,
        last_refresh: now_ns,
        refresh_policy: policy.refresh_policy,
    };
}

/// The telomere after a replication: one shorter, unless it is immortal or spent.
pub open spec fn replicated(t: Telomere) -> Telomere {
    if t.immortal || t.count == 0 {
        t
    } else {
        Telomere { count: (t.count - 1) as u16, ..t }
    }
}

/// Counts a replication.
pub fn apply_replication_event(strand: &mut Strand)
    ensures
        final(strand)@ == with_telomere(old(strand)@, replicated(old(strand).telomere)),
{
    if strand.telomere.immortal || strand.telomere.count == 0 {
        return;
    }
    let t = strand.telomere;
    strand.telomere = Telomere {
        count: t.count - 1,
        immortal: t.immortal,
        last_refresh: t.last_refresh,
        refresh_policy: t.refresh_policy,
    };
}

/// The telomere after a refresh: where the strand or the policy is immortal, it is immortal
/// and only the time changes; else it starts anew by the policy.
pub open spec fn refreshed(t: Telomere, policy: LifecyclePolicy, now: u64) -> Telomere {
    if policy.mode == LifecycleMode::Immortal || t.immortal {
        Telomere { immortal: true, last_refresh: now, ..t }
    } else {
        Telomere {
            count: policy.initial_count,
            immortal: false,
            last_refresh: now,
            refresh_policy: policy.refresh_policy,
        }
    }
}

/// Refreshes the telomere of a strand.
pub fn refresh_strand_telomere(strand: &mut Strand, policy: LifecyclePolicy, now_ns: u64)
    ensures
        final(strand)@ == with_telomere(old(strand)@, refreshed(old(strand).telomere, policy, now_ns)),
{
    if policy.mode == LifecycleMode::Immortal || strand.telomere.immortal {
        let t = strand.telomere;
        strand.telomere = Telomere {
            count: t.count,
            immortal: true,
            last_refresh: now_ns,
            refresh_policy: t.refresh_policy,
        };
        return;
    }
    strand.telomere = Telomere {
        count: policy.initial_count,
        immortal: false,
        last_refresh: now_ns,
        refresh_policy: policy.refresh_policy,
    };
}

/// Whether `picks` says which of the first `n` strands were refreshed: those of the collection
/// that the predicate accepts.
pub open spec fn picked<F: FnMut(&Strand) -> bool>(
    predicate: F,
    strands: Seq<Strand>,
    collection_id: u32,
    picks: Seq<bool>,
    n: int,
) -> bool {
    &&& picks.len() == n
    &&& forall|i: int|
        0 <= i < n ==> if strands[i].collection_id != collection_id {
            !#[trigger] picks[i]
        } else {
            call_ensures(predicate, (&strands[i],), picks[i])
        }
}

/// How many are picked.
pub open spec fn pick_count(picks: Seq<bool>) -> nat
    decreases picks.len(),
{
    if picks.len() == 0 {
        0
    } else {
        pick_count(picks.drop_last()) + (if picks.last() {
            1nat
        } else {
            0
        })
    }
}

/// Refreshes the strands of a collection that the predicate accepts, and counts them.
pub fn refresh_collection_strands<F: FnMut(&Strand) -> bool>(
    strands: &mut Vec<Strand>,
    collection_id: u32,
    policy: LifecyclePolicy,
    now_ns: u64,
    mut predicate: F,
) -> (r: usize)
    requires
        forall|s: &Strand| call_requires(predicate, (s,)),
    ensures
        final(strands)@.len() == old(strands)@.len(),
        exists|picks: Seq<bool>| #[trigger]
            picked(predicate, old(strands)@, collection_id, picks, old(strands)@.len() as int) && r == pick_count(picks)
                && forall|i: int|
                0 <= i < picks.len() ==> (#[trigger] final(strands)@[i])@ == (if picks[i] {
                    with_telomere(old(strands)@[i]@, refreshed(old(strands)@[i].telomere, policy, now_ns))
                } else {
                    old(strands)@[i]@
                }),
{
    let ghost before = strands@;
    let ghost asked = predicate;
    let ghost mut picks: Seq<bool> = Seq::empty();
    let mut refreshed_count: usize = 0;
    let mut i: usize = 0;
    while i < strands.len()
        invariant
            0 <= i <= before.len(),
            strands@.len() == before.len(),
            predicate == asked,
            forall|s: &Strand| call_requires(predicate, (s,)),
            picked(asked, before, collection_id, picks, i as int),
            refreshed_count == pick_count(picks),
            refreshed_count <= i,
            forall|k: int|
                0 <= k < i ==> (#[trigger] strands@[k])@ == (if picks[k] {
                    with_telomere(before[k]@, refreshed(before[k].telomere, policy, now_ns))
                } else {
                    before[k]@
                }),
            forall|k: int| i <= k < before.len() ==> #[trigger] strands@[k] == before[k],
        decreases before.len() - i,
    {
        let take = strands[i].collection_id == collection_id && predicate(&strands[i]);
        proof {
            let old_picks = picks;
            picks = picks.push(take);
            assert(picks.drop_last() =~= old_picks);
        }
        if take {
            refresh_strand_telomere(&mut strands[i], policy, now_ns);
            refreshed_count += 1;
        }
        i += 1;
    }
    proof {
        assert(picked(asked, before, collection_id, picks, before.len() as int));
    }
    refreshed_count
}

/// The record of a strand that is deleted at `now_ns`; it can be purged after the grace
/// period.
pub fn soft_delete_record_for_strand(strand: &Strand, now_ns: u64, cfg: DeleteConfig, reason: &str) -> (r:
    DeletedStrandRecord)
    ensures
        r.signature == strand.signature,
        r.collection_id == strand.collection_id,
        r.deleted_at_ns == now_ns,
        r.purge_after_ns == (if now_ns + cfg.grace_period_ns > u64::MAX {
            u64::MAX as int
        } else {
            now_ns + cfg.grace_period_ns
        }),
        r.reason@ == reason@,
{
    DeletedStrandRecord {
        signature: strand.signature,
        collection_id: strand.collection_id,
        deleted_at_ns: now_ns,
        purge_after_ns: now_ns.saturating_add(cfg.grace_period_ns),
        reason: owned(reason),
    }
}

/// The records of a pool that are past their grace period, or not.
pub open spec fn records_past(pool: Seq<DeletedStrandRecord>, now: u64, past: bool) -> Seq<DeletedStrandRecord>
    decreases pool.len(),
{
    if pool.len() == 0 {
        Seq::empty()
    } else {
        let before = records_past(pool.drop_last(), now, past);
        if (now >= pool.last().purge_after_ns) == past {
            before.push(pool.last())
        } else {
            before
        }
    }
}

/// The signatures of records.
pub open spec fn signatures_of(pool: Seq<DeletedStrandRecord>) -> Seq<[u8; 8]> {
    Seq::new(pool.len(), |i: int| pool[i].signature)
}

/// The dictionary order of signatures.
pub open spec fn signature_order() -> spec_fn([u8; 8], [u8; 8]) -> bool {
    |a: [u8; 8], b: [u8; 8]| lex_less(a@, b@)
}

/// Purges the records past their grace period, and reports their signatures in order.
pub fn sweep_deleted_pool(deleted_pool: &mut Vec<DeletedStrandRecord>, now_ns: u64) -> (r: HardDeleteSweepResult)
    ensures
        final(deleted_pool)@ == records_past(old(deleted_pool)@, now_ns, false),
        r.purged_signatures@ == arranged(
            signatures_of(records_past(old(deleted_pool)@, now_ns, true)),
            signature_order(),
        ),
{
    let ghost all = deleted_pool@;
    let mut kept: Vec<DeletedStrandRecord> = Vec::new();
    let mut purged: Vec<[u8; 8]> = Vec::new();
    let mut i: usize = 0;
    proof {
        assert(all.take(0) =~= Seq::<DeletedStrandRecord>::empty());
        assert(purged@ =~= signatures_of(records_past(all.take(0), now_ns, true)));
    }
    while i < deleted_pool.len()
        invariant
            0 <= i <= all.len(),
            deleted_pool@ == all,
            kept@ == records_past(all.take(i as int), now_ns, false),
            purged@ == signatures_of(records_past(all.take(i as int), now_ns, true)),
        decreases all.len() - i,
    {
        let record = &deleted_pool[i];
        let ghost gone = records_past(all.take(i as int), now_ns, true);
        proof {
            assert(all.take(i + 1).drop_last() =~= all.take(i as int));
            assert(all.take(i + 1).last() == all[i as int]);
        }
        if now_ns >= record.purge_after_ns {
            purged.push(record.signature);
            proof {
                assert(signatures_of(gone.push(all[i as int])) =~= signatures_of(gone).push(all[i as int].signature));
            }
        } else {
            kept.push(record.clone());
        }
        i += 1;
    }
    proof {
        assert(all.take(all.len() as int) =~= all);
    }
    *deleted_pool = kept;
    let ghost unsorted = purged@;
    let sorted = sort_signatures(purged);
    proof {
        let lt = |a: [u8; 8], b: [u8; 8]| lex_less(a@, b@);
        lemma_lex_is_order();
        assert(strict_weak_order(lt));
        assert(lt =~= signature_order());
        lemma_arranged(unsorted, sorted@, lt);
    }
    HardDeleteSweepResult { purged_signatures: sorted }
}

/// How far a decision goes.
pub open spec fn severity(d: LifecycleDecision) -> int {
    match d {
        LifecycleDecision::Keep => 0,
        LifecycleDecision::NeedsManualRefresh => 1,
        LifecycleDecision::Archive => 2,
        LifecycleDecision::SoftDelete => 3,
    }
}

/// What the refresh policy asks for an expired strand.
pub open spec fn refresh_demand(p: RefreshPolicy) -> LifecycleDecision {
    match p {
        RefreshPolicy::AutoOnRead => LifecycleDecision::Keep,
        RefreshPolicy::Manual => LifecycleDecision::NeedsManualRefresh,
        RefreshPolicy::Immortal => LifecycleDecision::Keep,
    }
}

/// What the expiry action asks for an expired strand.
pub open spec fn expiry_demand(a: ExpireAction) -> LifecycleDecision {
    match a {
        ExpireAction::Nothing => LifecycleDecision::Keep,
        ExpireAction::Archive => LifecycleDecision::Archive,
        ExpireAction::Delete => LifecycleDecision::SoftDelete,
    }
}

/// Whether a strand has expired: neither it nor its policy is immortal, its count is spent,
/// and it is old enough.
pub open spec fn expired(v: StrandView, policy: LifecyclePolicy, now: u64) -> bool {
    &&& policy.mode != LifecycleMode::Immortal
    &&& !v.telomere.immortal
    &&& v.telomere.count == 0
    &&& (if now < v.created_at {
        0
    } else {
        now - v.created_at
    }) >= policy.minimum_age_ns
}

/// What is to be done with a strand: nothing before it expires, then the further-going of what
/// refresh policy and expiry action ask for.
pub open spec fn decision(v: StrandView, policy: LifecyclePolicy, now: u64) -> LifecycleDecision {
    let a = refresh_demand(policy.refresh_policy);
    let b = expiry_demand(policy.on_expire);
    if !expired(v, policy, now) {
        LifecycleDecision::Keep
    } else if severity(a) > severity(b) {
        a
    } else {
        b
    }
}

fn rank(d: LifecycleDecision) -> (r: i32)
    ensures
        r == severity(d),
{
    match d {
        LifecycleDecision::Keep => 0,
        LifecycleDecision::NeedsManualRefresh => 1,
        LifecycleDecision::Archive => 2,
        LifecycleDecision::SoftDelete => 3,
    }
}

/// What is to be done with a strand now.
pub fn evaluate_lifecycle_action(strand: &Strand, policy: LifecyclePolicy, now_ns: u64) -> (r: LifecycleDecision)
    ensures
        r == decision(strand@, policy, now_ns),
{
    if policy.mode == LifecycleMode::Immortal || strand.telomere.immortal {
        return LifecycleDecision::Keep;
    }
    if strand.telomere.count > 0 {
        return LifecycleDecision::Keep;
    }
    if now_ns.saturating_sub(strand.created_at) < policy.minimum_age_ns {
        return LifecycleDecision::Keep;
    }
    let a = match policy.refresh_policy {
        RefreshPolicy::AutoOnRead => LifecycleDecision::Keep,
        RefreshPolicy::Manual => LifecycleDecision::NeedsManualRefresh,
        RefreshPolicy::Immortal => LifecycleDecision::Keep,
    };
    let b = match policy.on_expire {
        ExpireAction::Nothing => LifecycleDecision::Keep,
        ExpireAction::Archive => LifecycleDecision::Archive,
        ExpireAction::Delete => LifecycleDecision::SoftDelete,
    };
    if rank(a) > rank(b) {
        a
    } else {
        b
    }
}

/// Without a policy of its own, a collection's strands never expire.
pub proof fn law_default_is_immortal(policies: Map<u32, LifecyclePolicy>, id: u32, v: StrandView, now: u64)
    requires
        !policies.dom().contains(id),
    ensures
        decision(v, policy_of(policies, id), now) == LifecycleDecision::Keep,
{
}

/// An immortal strand stays as it is: it is kept under any policy, replication changes nothing,
/// and a refresh changes nothing but the time.
pub proof fn law_immortal_strands_stay(v: StrandView, policy: LifecyclePolicy, now: u64)
    requires
        v.telomere.immortal,
    ensures
        decision(v, policy, now) == LifecycleDecision::Keep,
        replicated(v.telomere) == v.telomere,
        refreshed(v.telomere, policy, now) == (Telomere { last_refresh: now, ..v.telomere }),
{
}

/// The telomere after `n` replications.
pub open spec fn replicated_times(t: Telomere, n: nat) -> Telomere
    decreases n,
{
    if n == 0 {
        t
    } else {
        replicated(replicated_times(t, (n - 1) as nat))
    }
}

/// Replications count a mortal strand down to zero and no further.
pub proof fn law_replication_counts_down(t: Telomere, n: nat)
    requires
        !t.immortal,
    ensures
        replicated_times(t, n) == (Telomere {
            count: (if t.count < n {
                0
            } else {
                t.count - n
            }) as u16,
            ..t
        }),
    decreases n,
{
    if n > 0 {
        law_replication_counts_down(t, (n - 1) as nat);
    }
}

/// A sweep loses nothing: every record of the pool is either kept or purged.
pub proof fn law_sweep_splits_the_pool(pool: Seq<DeletedStrandRecord>, now: u64, i: int)
    requires
        0 <= i < pool.len(),
    ensures
        pool[i].purge_after_ns <= now ==> records_past(pool, now, true).contains(pool[i]),
        pool[i].purge_after_ns > now ==> records_past(pool, now, false).contains(pool[i]),
        records_past(pool, now, true).len() + records_past(pool, now, false).len() == pool.len(),
    decreases pool.len(),
{
    let front = pool.drop_last();
    let past = records_past(pool, now, true);
    let kept = records_past(pool, now, false);
    if i < front.len() {
        law_sweep_splits_the_pool(front, now, i);
        let p = records_past(front, now, true);
        let k = records_past(front, now, false);
        if p.contains(pool[i]) {
            assert(past[p.index_of(pool[i])] == pool[i]);
        }
        if k.contains(pool[i]) {
            assert(kept[k.index_of(pool[i])] == pool[i]);
        }
    } else {
        if front.len() > 0 {
            law_sweep_splits_the_pool(front, now, 0);
        }
        if pool[i].purge_after_ns <= now {
            assert(past[past.len() - 1] == pool[i]);
        } else {
            assert(kept[kept.len() - 1] == pool[i]);
        }
    }
}

} // verus!
