//! What becomes of strands in the course of their lives, case by case.
use crate::lifecycle::{
    decision, new_telomere, policy_of, records_past, refreshed, replicated,
    signature_order, signatures_of, with_telomere, DeletedStrandRecord, ExpireAction,
    LifecycleDecision, LifecycleMode, LifecyclePolicy,
};
use crate::model::{RefreshPolicy, StrandView, Telomere};
use crate::query::answer_laws::{comes_first, law_bytes_are_ordered_as_in_a_dictionary};
use crate::support::bytes::lex_less;
use crate::support::sort::{
    arranged, lemma_arrangement_exists, lemma_lex_is_order, lemma_sorted_same_members,
    stable_order, strict_weak_order,
};
use vstd::prelude::*;

verus! {

/// The outcomes for a strand that has expired: it is mortal, its count is spent and it has
/// reached the minimum age under a policy with telomeres. What is asked for at expiry comes
/// first; where nothing is, a manual refresh is called for if the policy refreshes by hand.
pub proof fn law_outcomes_of_expiry(v: StrandView, policy: LifecyclePolicy, now: u64)
    requires
        policy.mode == LifecycleMode::Telomere,
        !v.telomere.immortal,
        v.telomere.count == 0,
        now >= v.created_at + policy.minimum_age_ns || policy.minimum_age_ns == 0,
    ensures
        policy.on_expire == ExpireAction::Delete ==> decision(v, policy, now) == LifecycleDecision::SoftDelete,
        policy.on_expire == ExpireAction::Archive ==> decision(v, policy, now) == LifecycleDecision::Archive,
        policy.on_expire == ExpireAction::Nothing && policy.refresh_policy == RefreshPolicy::Manual ==> decision(
            v,
            policy,
            now,
        ) == LifecycleDecision::NeedsManualRefresh,
        policy.on_expire == ExpireAction::Nothing && policy.refresh_policy == RefreshPolicy::AutoOnRead ==> decision(
            v,
            policy,
            now,
        ) == LifecycleDecision::Keep,
        policy.on_expire == ExpireAction::Nothing && policy.refresh_policy == RefreshPolicy::Immortal ==> decision(
            v,
            policy,
            now,
        ) == LifecycleDecision::Keep,
{
}

/// A strand is kept before it expires: while its count lasts, while it is younger than the
/// minimum age, and always where it or its policy is immortal.
pub proof fn law_unexpired_strands_are_kept(v: StrandView, policy: LifecyclePolicy, now: u64)
    requires
        policy.mode == LifecycleMode::Immortal || v.telomere.immortal || v.telomere.count > 0 || (
        policy.minimum_age_ns > 0 && now < v.created_at + policy.minimum_age_ns),
    ensures
        decision(v, policy, now) == LifecycleDecision::Keep,
{
}

/// A policy that was set is the one that counts for its collection, and for no other; taken
/// back, the collection is immortal again.
pub proof fn law_policies_count_for_their_collection(
    policies: Map<u32, LifecyclePolicy>,
    id: u32,
    other: u32,
    policy: LifecyclePolicy,
)
    ensures
        policy_of(policies.insert(id, policy), id) == policy,
        id != other ==> policy_of(policies.insert(id, policy), other) == policy_of(policies, other),
        id != other ==> policy_of(policies.remove(id), other) == policy_of(policies, other),
        policy_of(policies.remove(id), id).mode == LifecycleMode::Immortal,
        policy_of(policies.remove(id), id).on_expire == ExpireAction::Nothing,
        policy_of(policies.remove(id), id).refresh_policy == RefreshPolicy::Immortal,
        policy_of(policies.remove(id), id).initial_count == 65535,
        policy_of(policies.remove(id), id).minimum_age_ns == 0,
{
}

/// A new strand starts with the count of its policy, or immortal with the highest one, and with
/// the time of its making.
pub proof fn law_new_strands_start_by_their_policy(policy: LifecyclePolicy, now: u64)
    ensures
        new_telomere(policy, now).immortal <==> policy.mode == LifecycleMode::Immortal,
        policy.mode == LifecycleMode::Telomere ==> new_telomere(policy, now).count == policy.initial_count,
        policy.mode == LifecycleMode::Immortal ==> new_telomere(policy, now).count == 65535,
        new_telomere(policy, now).last_refresh == now,
        new_telomere(policy, now).refresh_policy == policy.refresh_policy,
{
}

/// A replication takes one off the count of a mortal strand, down to zero, and changes nothing
/// else; nothing of an immortal one.
pub proof fn law_replication_takes_one(t: Telomere)
    ensures
        !t.immortal && t.count > 0 ==> replicated(t).count == t.count - 1,
        t.immortal || t.count == 0 ==> replicated(t).count == t.count,
        replicated(t).immortal == t.immortal,
        replicated(t).last_refresh == t.last_refresh,
        replicated(t).refresh_policy == t.refresh_policy,
{
}

/// A refresh gives a mortal strand the whole count and the refresh policy of its policy, keeps
/// an immortal one immortal, and notes the time. A refreshed strand is kept, unless its policy
/// gives it no count at all.
pub proof fn law_refresh_starts_anew(v: StrandView, policy: LifecyclePolicy, now: u64, later: u64)
    ensures
        refreshed(v.telomere, policy, now).last_refresh == now,
        refreshed(v.telomere, policy, now).immortal <==> v.telomere.immortal || policy.mode == LifecycleMode::Immortal,
        !v.telomere.immortal && policy.mode == LifecycleMode::Telomere ==> {
            &&& refreshed(v.telomere, policy, now).count == policy.initial_count
            &&& refreshed(v.telomere, policy, now).refresh_policy == policy.refresh_policy
        },
        v.telomere.immortal || policy.mode == LifecycleMode::Immortal ==> {
            &&& refreshed(v.telomere, policy, now).count == v.telomere.count
            &&& refreshed(v.telomere, policy, now).refresh_policy == v.telomere.refresh_policy
        },
        policy.initial_count > 0 ==> decision(
            with_telomere(v, refreshed(v.telomere, policy, now)),
            policy,
            later,
        ) == LifecycleDecision::Keep,
{
}

/// Giving a strand another telomere leaves the rest of it alone.
pub proof fn law_telomere_is_all_that_changes(v: StrandView, t: Telomere)
    ensures
        with_telomere(v, t).telomere == t,
        with_telomere(v, t).signature == v.signature,
        with_telomere(v, t).collection_id == v.collection_id,
        with_telomere(v, t).codons == v.codons,
        with_telomere(v, t).complement == v.complement,
        with_telomere(v, t).introns == v.introns,
        with_telomere(v, t).epigenetic_tags == v.epigenetic_tags,
        with_telomere(v, t).version == v.version,
        with_telomere(v, t).created_at == v.created_at,
        with_telomere(v, t).updated_at == v.updated_at,
{
}

/// A sweep keeps the records whose time has not come and purges those whose time has: nothing
/// is purged early, and nothing is kept past its time.
pub proof fn law_sweep_goes_by_the_purge_time(pool: Seq<DeletedStrandRecord>, now: u64)
    ensures
        forall|r: DeletedStrandRecord| #[trigger]
            records_past(pool, now, false).contains(r) <==> pool.contains(r) && now < r.purge_after_ns,
        forall|r: DeletedStrandRecord| #[trigger]
            records_past(pool, now, true).contains(r) <==> pool.contains(r) && now >= r.purge_after_ns,
    decreases pool.len(),
{
    if pool.len() > 0 {
        let front = pool.drop_last();
        law_sweep_goes_by_the_purge_time(front, now);
        assert(pool =~= front.push(pool.last()));
        assert forall|r: DeletedStrandRecord| #[trigger] pool.contains(r) <==> front.contains(r) || r == pool.last() by {
            lemma_push_contains(front, pool.last(), r);
        }
        assert forall|r: DeletedStrandRecord, past: bool| #[trigger]
            records_past(pool, now, past).contains(r) <==> records_past(front, now, past).contains(r) || (r
            == pool.last() && (now >= r.purge_after_ns) == past) by {
            lemma_push_contains(records_past(front, now, past), pool.last(), r);
        }
    }
}

proof fn lemma_push_contains<T>(s: Seq<T>, x: T, y: T)
    ensures
        s.push(x).contains(y) <==> s.contains(y) || x == y,
{
    if s.contains(y) {
        assert(s.push(x)[s.index_of(y)] == y);
    }
    if x == y {
        assert(s.push(x)[s.len() as int] == y);
    }
    if s.push(x).contains(y) {
        let i = s.push(x).index_of(y);
        if i < s.len() {
            assert(s[i] == y);
        }
    }
}

/// The signatures that a sweep reports are those of the purged records, in dictionary order.
pub proof fn law_sweep_reports_in_order(pool: Seq<DeletedStrandRecord>, now: u64, i: int, j: int, sig: [u8; 8])
    ensures
        ({
            let gone = arranged(signatures_of(records_past(pool, now, true)), signature_order());
            &&& gone.len() == records_past(pool, now, true).len()
            &&& 0 <= i < j < gone.len() ==> !comes_first(gone[j]@, gone[i]@)
            &&& gone.contains(sig) <==> exists|k: int|
                0 <= k < pool.len() && (#[trigger] pool[k]).signature == sig && now >= pool[k].purge_after_ns
        }),
{
    let past = records_past(pool, now, true);
    let s = signatures_of(past);
    let lt = signature_order();
    lemma_lex_is_order();
    assert(lt =~= (|a: [u8; 8], b: [u8; 8]| lex_less(a@, b@)));
    assert(strict_weak_order(lt));
    lemma_arrangement_exists(s, lt);
    let gone = arranged(s, lt);
    let p = choose|p: Seq<int>| stable_order(s, gone, p, lt);
    if 0 <= i < j < gone.len() {
        assert(!lt(gone[j], gone[i]));
        law_bytes_are_ordered_as_in_a_dictionary(gone[j]@, gone[i]@);
    }
    lemma_sorted_same_members(s, gone, lt);
    law_sweep_goes_by_the_purge_time(pool, now);
    if gone.contains(sig) {
        assert(s.contains(sig));
        let q = s.index_of(sig);
        assert(past.contains(past[q]));
        let k = pool.index_of(past[q]);
        assert(pool[k].signature == sig);
    }
    if exists|k: int| 0 <= k < pool.len() && (#[trigger] pool[k]).signature == sig && now >= pool[k].purge_after_ns {
        let k = choose|k: int|
            0 <= k < pool.len() && (#[trigger] pool[k]).signature == sig && now >= pool[k].purge_after_ns;
        assert(pool.contains(pool[k]));
        assert(past.contains(pool[k]));
        let q = past.index_of(pool[k]);
        assert(s[q] == sig);
        assert(s.contains(sig));
    }
}

} // verus!
