//! What single calls, and calls one after the other, give back: lifetimes, tiers and overlays.
use crate::histone::{
    classify_temperature, compact_segments, evaluate_tier_transition, on_access_promote_immediate,
    plan_compaction, plan_semantic_colocation, record_block_access, run_rebalance_tick,
    BlockAccessStats, CoLocationPlan, CompactionPlan, CompactionSegment, HistoneBlock, RebalanceActionKind, RebalanceTickResult,
    Temperature, TierDecision,
};
use crate::histone_laws::{
    law_actions_are_in_the_order_of_blocks, law_compacted_records_are_clustered,
    law_compaction_selects_cold_segments,
};
use crate::json_value::Record;
use crate::lifecycle::{
    apply_replication_event, evaluate_lifecycle_action, initialize_telomere_for_new_strand,
    refresh_collection_strands, refresh_strand_telomere, soft_delete_record_for_strand, sweep_deleted_pool, DeleteConfig,
    DeletedStrandRecord, ExpireAction, HardDeleteSweepResult, LifecycleDecision, LifecycleMode,
    LifecyclePolicy, LifecyclePolicyStore,
};
use crate::lifecycle_laws::{law_sweep_goes_by_the_purge_time, law_sweep_reports_in_order};
use crate::model::{RefreshPolicy, Strand};
use crate::overlay::{
    OverlayAccess, OverlayDefinition, OverlayMutation, OverlayRegistry, ResolvedOverlay,
};
use crate::overlay_laws::{
    law_own_exclusion_hides, law_resolved_overlay_joins_its_lineage, law_shown_fields, lists_field,
    some_allows, some_excludes, some_includes, some_opens, whole_lineage,
};
use crate::privacy::{mask_record_for_overlay, mask_records_for_overlay, PrivacyError};
use std::collections::{HashMap, HashSet};
use vstd::prelude::*;

verus! {

/// Evaluating a strand that has expired gives what its policy asks for at expiry, a call for a
/// manual refresh where it asks for nothing and is refreshed by hand, and else keeps it; a strand
/// that has not expired is kept.
pub proof fn law_evaluating_a_strand(strand: &Strand, policy: LifecyclePolicy, now: u64, r: LifecycleDecision)
    requires
        call_ensures(evaluate_lifecycle_action, (strand, policy, now), r),
    ensures
        ({
            let spent = policy.mode == LifecycleMode::Telomere && !strand.telomere.immortal && strand.telomere.count == 0
                && (policy.minimum_age_ns == 0 || now >= strand.created_at + policy.minimum_age_ns);
            &&& !spent ==> r == LifecycleDecision::Keep
            &&& spent && policy.on_expire == ExpireAction::Delete ==> r == LifecycleDecision::SoftDelete
            &&& spent && policy.on_expire == ExpireAction::Archive ==> r == LifecycleDecision::Archive
            &&& spent && policy.on_expire == ExpireAction::Nothing && policy.refresh_policy == RefreshPolicy::Manual ==> r
                == LifecycleDecision::NeedsManualRefresh
            &&& spent && policy.on_expire == ExpireAction::Nothing && policy.refresh_policy != RefreshPolicy::Manual ==> r
                == LifecycleDecision::Keep
        }),
{
}

/// A strand that replicates loses one of its count, down to zero, unless it is immortal, and
/// nothing else of it changes.
pub proof fn law_replicating_a_strand(strand: &mut Strand)
    requires
        call_ensures(apply_replication_event, (strand,), ()),
    ensures
        !old(strand).telomere.immortal && old(strand).telomere.count > 0 ==> final(strand).telomere.count + 1
            == old(strand).telomere.count,
        old(strand).telomere.immortal || old(strand).telomere.count == 0 ==> final(strand).telomere.count
            == old(strand).telomere.count,
        final(strand).telomere.immortal == old(strand).telomere.immortal,
        final(strand).telomere.last_refresh == old(strand).telomere.last_refresh,
        final(strand).version == old(strand).version,
        final(strand).created_at == old(strand).created_at,
        final(strand).updated_at == old(strand).updated_at,
        final(strand).codons@ == old(strand).codons@,
{
}

/// A refresh notes the time, gives a mortal strand the count of its policy back and keeps an
/// immortal one immortal.
pub proof fn law_refreshing_a_strand(strand: &mut Strand, policy: LifecyclePolicy, now: u64)
    requires
        call_ensures(refresh_strand_telomere, (strand, policy, now), ()),
    ensures
        final(strand).telomere.last_refresh == now,
        policy.mode == LifecycleMode::Telomere && !old(strand).telomere.immortal ==> final(strand).telomere.count
            == policy.initial_count && !final(strand).telomere.immortal && final(strand).telomere.refresh_policy
            == policy.refresh_policy,
        policy.mode == LifecycleMode::Immortal || old(strand).telomere.immortal ==> final(strand).telomere.immortal
            && final(strand).telomere.count == old(strand).telomere.count,
        final(strand).version == old(strand).version,
        final(strand).updated_at == old(strand).updated_at,
{
}

/// A new strand gets the telomere of its policy.
pub proof fn law_starting_a_strand(strand: &mut Strand, policy: LifecyclePolicy, now: u64)
    requires
        call_ensures(initialize_telomere_for_new_strand, (strand, policy, now), ()),
    ensures
        final(strand).telomere.immortal <==> policy.mode == LifecycleMode::Immortal,
        policy.mode == LifecycleMode::Telomere ==> final(strand).telomere.count == policy.initial_count,
        policy.mode == LifecycleMode::Immortal ==> final(strand).telomere.count == 65535,
        final(strand).telomere.last_refresh == now,
        final(strand).telomere.refresh_policy == policy.refresh_policy,
{
}

/// A policy that was set is the one that is found for its collection.
pub proof fn law_setting_a_policy(
    store: &mut LifecyclePolicyStore,
    id: u32,
    policy: LifecyclePolicy,
    found: LifecyclePolicy,
    other: u32,
)
    requires
        call_ensures(LifecyclePolicyStore::set_policy, (store, id, policy), ()),
        call_ensures(LifecyclePolicyStore::policy_for, (final(store), other), found),
    ensures
        other == id ==> found == policy,
        other != id && !old(store).policies().dom().contains(other) ==> found.mode == LifecycleMode::Immortal,
        other != id && old(store).policies().dom().contains(other) ==> found == old(store).policies()[other],
{
}

/// A policy that was taken back leaves its collection immortal.
pub proof fn law_clearing_a_policy(store: &mut LifecyclePolicyStore, id: u32, found: LifecyclePolicy)
    requires
        call_ensures(LifecyclePolicyStore::clear_policy, (store, id), ()),
        call_ensures(LifecyclePolicyStore::policy_for, (final(store), id), found),
    ensures
        found.mode == LifecycleMode::Immortal,
        found.on_expire == ExpireAction::Nothing,
{
}

/// A deleted strand is kept for the grace period: a sweep before its end leaves the record, and
/// one from its end on purges it.
pub proof fn law_deleted_strand_outlasts_its_grace_period(
    strand: &Strand,
    now: u64,
    cfg: DeleteConfig,
    reason: &str,
    record: DeletedStrandRecord,
    pool: &mut Vec<DeletedStrandRecord>,
    later: u64,
    swept: HardDeleteSweepResult,
)
    requires
        call_ensures(soft_delete_record_for_strand, (strand, now, cfg, reason), record),
        old(pool)@.contains(record),
        call_ensures(sweep_deleted_pool, (pool, later), swept),
        now + cfg.grace_period_ns <= u64::MAX,
    ensures
        record.signature == strand.signature,
        record.collection_id == strand.collection_id,
        record.deleted_at_ns == now,
        record.purge_after_ns == now + cfg.grace_period_ns,
        record.reason@ == reason@,
        later < now + cfg.grace_period_ns ==> final(pool)@.contains(record),
        later >= now + cfg.grace_period_ns ==> !final(pool)@.contains(record) && swept.purged_signatures@.contains(
            strand.signature,
        ),
{
    law_sweep_goes_by_the_purge_time(old(pool)@, later);
    law_sweep_reports_in_order(old(pool)@, later, 0, 0, strand.signature);
    let k = old(pool)@.index_of(record);
    assert(old(pool)@[k].signature == strand.signature);
}

/// A block that was not accessed and is not spent goes to the tier of its idle time, whatever its
/// tier was.
pub proof fn law_deciding_the_tier_of_an_idle_block(
    current: Temperature,
    stats: &BlockAccessStats,
    now: u64,
    count: u16,
    immortal: bool,
    r: TierDecision,
)
    requires
        call_ensures(evaluate_tier_transition, (current, stats, now, count, immortal, false), r),
    ensures
        r.previous == current,
        r.changed <==> r.next != current,
        ({
            let idle = now - stats.last_access_ns;
            if count == 0 && !immortal {
                r.next == Temperature::Frozen
            } else if idle <= 5 * 60 * 1_000_000_000 {
                r.next == Temperature::Hot
            } else if idle <= 7 * 24 * 60 * 60 * 1_000_000_000 {
                r.next == Temperature::Warm
            } else {
                r.next == Temperature::Cold
            }
        }),
{
}

/// A block that was accessed and is not spent warms up: from cold or frozen to warm, from warm to
/// hot with the second access of a burst; otherwise it goes by its idle time.
pub proof fn law_deciding_the_tier_of_an_accessed_block(
    current: Temperature,
    stats: &BlockAccessStats,
    now: u64,
    count: u16,
    immortal: bool,
    r: TierDecision,
)
    requires
        call_ensures(evaluate_tier_transition, (current, stats, now, count, immortal, true), r),
    ensures
        r.previous == current,
        r.changed <==> r.next != current,
        count == 0 && !immortal ==> r.next == Temperature::Frozen,
        (count > 0 || immortal) && (current == Temperature::Cold || current == Temperature::Frozen) ==> r.next
            == Temperature::Warm,
        (count > 0 || immortal) && current == Temperature::Warm && stats.access_count_recent >= 2 ==> r.next
            == Temperature::Hot,
        (count > 0 || immortal) && (current == Temperature::Hot || (current == Temperature::Warm
            && stats.access_count_recent < 2)) ==> ({
            let idle = now - stats.last_access_ns;
            if idle <= 5 * 60 * 1_000_000_000 {
                r.next == Temperature::Hot
            } else if idle <= 7 * 24 * 60 * 60 * 1_000_000_000 {
                r.next == Temperature::Warm
            } else {
                r.next == Temperature::Cold
            }
        }),
{
}

/// The class of a block and the tier of one that is promoted.
pub proof fn law_classifying_a_block(
    now: u64,
    last: u64,
    count: u16,
    immortal: bool,
    r: Temperature,
    current: Temperature,
    promoted: Temperature,
)
    requires
        call_ensures(classify_temperature, (now, last, count, immortal), r),
        call_ensures(on_access_promote_immediate, (current,), promoted),
    ensures
        count == 0 && !immortal ==> r == Temperature::Frozen,
        (count > 0 || immortal) && now - last <= 300_000_000_000 ==> r == Temperature::Hot,
        (count > 0 || immortal) && 300_000_000_000 < now - last <= 604_800_000_000_000 ==> r == Temperature::Warm,
        (count > 0 || immortal) && now - last > 604_800_000_000_000 ==> r == Temperature::Cold,
        current == Temperature::Cold || current == Temperature::Frozen ==> promoted == Temperature::Warm,
        current == Temperature::Warm || current == Temperature::Hot ==> promoted == current,
{
}

/// An access is timed and counted.
pub proof fn law_recording_an_access(stats: &mut BlockAccessStats, now: u64)
    requires
        call_ensures(record_block_access, (stats, now), ()),
        old(stats).access_count_total < u64::MAX,
        old(stats).access_count_recent < u32::MAX,
    ensures
        final(stats).last_access_ns == now,
        final(stats).access_count_total == old(stats).access_count_total + 1,
        now - old(stats).last_access_ns <= 600_000_000_000 ==> final(stats).access_count_recent
            == old(stats).access_count_recent + 1,
        now - old(stats).last_access_ns > 600_000_000_000 ==> final(stats).access_count_recent == 1,
{
}

/// A tick has one action for each block, from its tier to that of its idle time where it was not
/// accessed: a hot or warm block that was not accessed for seven days is compressed to cold.
pub proof fn law_ticking_over_an_idle_block(
    now: u64,
    blocks: &[HistoneBlock],
    stats: &HashMap<u64, BlockAccessStats>,
    states: &HashMap<u64, (u16, bool)>,
    touched: &HashSet<u64>,
    r: RebalanceTickResult,
    i: int,
) -> (k: int)
    requires
        call_ensures(run_rebalance_tick, (now, blocks, stats, states, touched), r),
        0 <= i < blocks@.len(),
        !touched@.contains(blocks@[i].block_id),
        !states@.dom().contains(blocks@[i].block_id),
        stats@.dom().contains(blocks@[i].block_id),
    ensures
        r.actions@.len() == blocks@.len(),
        0 <= k < r.actions@.len(),
        r.actions@[k].block_id == blocks@[i].block_id,
        r.actions@[k].from == blocks@[i].temperature,
        ({
            let idle = now - stats@[blocks@[i].block_id].last_access_ns;
            if idle <= 300_000_000_000 {
                r.actions@[k].to == Temperature::Hot
            } else if idle <= 604_800_000_000_000 {
                r.actions@[k].to == Temperature::Warm
            } else {
                r.actions@[k].to == Temperature::Cold
            }
        }),
        r.actions@[k].to == blocks@[i].temperature ==> r.actions@[k].kind == RebalanceActionKind::Noop,
        r.actions@[k].to == Temperature::Cold && blocks@[i].temperature != Temperature::Cold ==> r.actions@[k].kind
            == RebalanceActionKind::Compress,
{
    let want = Seq::new(
        blocks@.len(),
        |j: int| crate::histone::rebalanced(now, blocks@[j], stats@, states@, touched@),
    );
    assert(want[i] == crate::histone::rebalanced(now, blocks@[i], stats@, states@, touched@));
    assert(want.contains(want[i]));
    law_actions_are_in_the_order_of_blocks(want, 0, 0, want[i]);
    assert(r.actions@ == crate::support::sort::arranged(want, crate::histone::by_block()));
    r.actions@.index_of(want[i])
}

/// A compaction is planned where two segments at least are cold or frozen, and takes those, in
/// order.
pub proof fn law_planning_a_compaction(
    segments: &[CompactionSegment],
    next: u32,
    r: Option<CompactionPlan>,
    id: u32,
    i: int,
    j: int,
)
    requires
        call_ensures(plan_compaction, (segments, next), r),
    ensures
        r is Some <==> segments@.filter(
            |s: CompactionSegment| s.temperature != Temperature::Hot && s.temperature != Temperature::Warm,
        ).len() >= 2,
        r matches Some(p) ==> {
            &&& p.output_segment_id == next
            &&& p.selected_segment_ids@.contains(id) <==> exists|k: int|
                0 <= k < segments@.len() && (#[trigger] segments@[k]).segment_id == id && (segments@[k].temperature
                    == Temperature::Cold || segments@[k].temperature == Temperature::Frozen)
            &&& 0 <= i < j < p.selected_segment_ids@.len() ==> p.selected_segment_ids@[i] <= p.selected_segment_ids@[j]
        },
{
    law_compaction_selects_cold_segments(segments@, id, i, j);
}

/// A compacted segment is cold, has the new number, and holds the records of those it is made of.
pub proof fn law_compacting_segments(
    segments: Vec<CompactionSegment>,
    id: u32,
    r: CompactionSegment,
    x: crate::histone::CompactionRecord,
)
    requires
        call_ensures(compact_segments, (segments, id), r),
    ensures
        r.segment_id == id,
        r.temperature == Temperature::Cold,
        r.records@.contains(x) <==> exists|k: int| 0 <= k < segments@.len() && (#[trigger] segments@[k]).records@.contains(x),
{
    law_compacted_records_are_clustered(segments@, x, 0, 0);
}

/// A resolved overlay shows a field exactly where its lineage opens the collection and it has
/// full access, or some definition of the lineage includes the field and none excludes it; and a
/// masked record holds exactly the fields that are shown.
pub proof fn law_resolving_and_masking(
    registry: &OverlayRegistry,
    name: &str,
    o: ResolvedOverlay,
    names: Seq<Seq<char>>,
    collection: &str,
    field: &str,
    visible: bool,
    record: &Record,
    masked: Result<Record, PrivacyError>,
)
    requires
        call_ensures(OverlayRegistry::resolve_overlay, (registry, name), Ok(o)),
        whole_lineage(registry.defs(), names, name@),
        call_ensures(ResolvedOverlay::is_field_visible, (&o, collection, field), visible),
        call_ensures(mask_record_for_overlay, (collection, record, &o), masked),
    ensures
        ({
            let defs = registry.defs();
            let open = some_opens(defs, names, "*"@) || some_opens(defs, names, collection@);
            let shown = open && (defs[name@].access == OverlayAccess::Full || (some_includes(
                defs,
                names,
                collection@,
                field@,
            ) && !some_excludes(defs, names, collection@, field@)));
            &&& visible == shown
            &&& masked is Ok <==> open
            &&& masked matches Ok(m) ==> {
                &&& m@.dom().contains(field@) <==> record@.dom().contains(field@) && shown
                &&& m@.dom().contains(field@) ==> m@[field@] == record@[field@]
            }
        }),
{
    law_shown_fields(o, registry.defs(), name@, names, collection@, field@);
    law_resolved_overlay_joins_its_lineage(
        o,
        registry.defs(),
        name@,
        names,
        collection@,
        field@,
        OverlayMutation::Read,
    );
}

/// What an overlay excludes itself is not visible under it, and not in a record masked with it,
/// whether or not it extends another.
pub proof fn law_own_exclusions_are_masked(
    registry: &OverlayRegistry,
    name: &str,
    o: ResolvedOverlay,
    collection: &str,
    field: &str,
    visible: bool,
    record: &Record,
    masked: Result<Record, PrivacyError>,
)
    requires
        call_ensures(OverlayRegistry::resolve_overlay, (registry, name), Ok(o)),
        registry.defs()[name@].access == OverlayAccess::Partial,
        lists_field(registry.defs()[name@].exclude_fields@, collection@, field@),
        call_ensures(ResolvedOverlay::is_field_visible, (&o, collection, field), visible),
        call_ensures(mask_record_for_overlay, (collection, record, &o), masked),
    ensures
        !visible,
        masked matches Ok(m) ==> !m@.dom().contains(field@),
{
    law_own_exclusion_hides(o, registry.defs(), name@, collection@, field@);
}

/// A mutation is allowed, and a collection is open, exactly where some definition of the lineage
/// says so.
pub proof fn law_what_an_overlay_allows(
    registry: &OverlayRegistry,
    name: &str,
    o: ResolvedOverlay,
    names: Seq<Seq<char>>,
    m: OverlayMutation,
    allowed: bool,
    collection: &str,
    open: bool,
)
    requires
        call_ensures(OverlayRegistry::resolve_overlay, (registry, name), Ok(o)),
        whole_lineage(registry.defs(), names, name@),
        call_ensures(ResolvedOverlay::can_mutate, (&o, m), allowed),
        call_ensures(ResolvedOverlay::can_access_collection, (&o, collection), open),
    ensures
        allowed == some_allows(registry.defs(), names, m),
        open == (some_opens(registry.defs(), names, "*"@) || some_opens(registry.defs(), names, collection@)),
{
    law_resolved_overlay_joins_its_lineage(o, registry.defs(), name@, names, collection@, ""@, m);
}

/// A definition is found under its name, in place of one before, and no other changes.
pub proof fn law_defining_an_overlay(registry: &mut OverlayRegistry, def: OverlayDefinition, other: Seq<char>)
    requires
        call_ensures(OverlayRegistry::define_overlay, (registry, def), ()),
    ensures
        final(registry).defs().dom().contains(def.name@),
        final(registry).defs()[def.name@] == def,
        other != def.name@ ==> final(registry).defs().dom().contains(other) == old(registry).defs().dom().contains(other),
        other != def.name@ && old(registry).defs().dom().contains(other) ==> final(registry).defs()[other]
            == old(registry).defs()[other],
{
}

/// Strands of other collections, and those that the predicate turns down, stay as they are; the
/// others are refreshed, and counted.
pub proof fn law_refreshing_a_collection<F: FnMut(&Strand) -> bool>(
    strands: &mut Vec<Strand>,
    id: u32,
    policy: LifecyclePolicy,
    now: u64,
    predicate: F,
    r: usize,
    i: int,
)
    requires
        call_ensures(refresh_collection_strands::<F>, (strands, id, policy, now, predicate), r),
        0 <= i < old(strands)@.len(),
    ensures
        final(strands)@.len() == old(strands)@.len(),
        old(strands)@[i].collection_id != id ==> final(strands)@[i]@ == old(strands)@[i]@,
        old(strands)@[i].collection_id == id && !call_ensures(predicate, (&old(strands)@[i],), true)
            ==> final(strands)@[i]@ == old(strands)@[i]@,
        old(strands)@[i].collection_id == id && !call_ensures(predicate, (&old(strands)@[i],), false)
            ==> final(strands)@[i]@.telomere.last_refresh == now && r > 0,
        final(strands)@[i]@.version == old(strands)@[i]@.version,
{
    let picks = choose|picks: Seq<bool>| #[trigger]
        crate::lifecycle::picked(predicate, old(strands)@, id, picks, old(strands)@.len() as int) && r
            == crate::lifecycle::pick_count(picks) && forall|k: int|
            0 <= k < picks.len() ==> (#[trigger] final(strands)@[k])@ == (if picks[k] {
                crate::lifecycle::with_telomere(
                    old(strands)@[k]@,
                    crate::lifecycle::refreshed(old(strands)@[k].telomere, policy, now),
                )
            } else {
                old(strands)@[k]@
            });
    assert(picks[i] || !picks[i]);
    assert(final(strands)@[i]@ == (if picks[i] {
        crate::lifecycle::with_telomere(
            old(strands)@[i]@,
            crate::lifecycle::refreshed(old(strands)@[i].telomere, policy, now),
        )
    } else {
        old(strands)@[i]@
    }));
    if picks[i] {
        lemma_some_picked(picks, i);
    }
}

proof fn lemma_some_picked(picks: Seq<bool>, i: int)
    requires
        0 <= i < picks.len(),
        picks[i],
    ensures
        crate::lifecycle::pick_count(picks) > 0,
    decreases picks.len(),
{
    if i < picks.len() - 1 {
        lemma_some_picked(picks.drop_last(), i);
    }
}

/// As many are picked as marks are set.
pub proof fn law_picks_are_counted(picks: Seq<bool>)
    ensures
        crate::lifecycle::pick_count(picks) == picks.filter(|p: bool| p).len(),
    decreases picks.len(),
{
    reveal(Seq::filter);
    if picks.len() > 0 {
        law_picks_are_counted(picks.drop_last());
    }
}

/// The plans for standing together hold each strand under its key, and under no other.
pub proof fn law_planning_who_stands_together(strands: &[Strand], r: Vec<CoLocationPlan>, k: int, m: int)
    requires
        call_ensures(plan_semantic_colocation, (strands,), r),
        0 <= m < strands@.len(),
        0 <= k < r@.len(),
    ensures
        r@[k].semantic_key@ == crate::histone::key_of(strands@[m]@) ==> r@[k].members@.contains(strands@[m].signature),
        exists|q: int| 0 <= q < r@.len() && (#[trigger] r@[q]).semantic_key@ == crate::histone::key_of(strands@[m]@),
{
    let views = crate::model::strand_views(strands@);
    assert(views[m] == strands@[m]@);
    crate::histone_laws::law_plans_hold_the_strands_with_their_key(
        r@,
        views,
        k,
        strands@[m].signature,
        0,
        0,
        m,
    );
    if r@[k].semantic_key@ == crate::histone::key_of(strands@[m]@) {
        assert(crate::histone::key_of(views[m]) == r@[k].semantic_key@);
    }
}

/// Records are masked one by one, all or none of them.
pub proof fn law_masking_many(
    collection: &str,
    records: &[Record],
    o: &ResolvedOverlay,
    r: Result<Vec<Record>, PrivacyError>,
    i: int,
    one: Result<Record, PrivacyError>,
)
    requires
        call_ensures(mask_records_for_overlay, (collection, records, o), r),
        0 <= i < records@.len(),
        call_ensures(mask_record_for_overlay, (collection, &records@[i], o), one),
    ensures
        r is Ok <==> one is Ok,
        r matches Ok(ms) ==> ms@.len() == records@.len() && ms@[i]@ == one->Ok_0@,
{
}

/// Rows are handed out as they are where no overlay is bound, and masked where one is; a
/// collection that it does not open is forbidden.
pub proof fn law_handing_out_rows(
    collection: &str,
    rows: &[Record],
    o: Option<&ResolvedOverlay>,
    r: Result<Vec<Record>, crate::http::ApiError>,
    i: int,
)
    requires
        call_ensures(crate::http::rows_for, (collection, rows, o), r),
        0 <= i < rows@.len(),
    ensures
        o is None ==> r is Ok && r->Ok_0@.len() == rows@.len() && r->Ok_0@[i]@ == rows@[i]@,
        o is Some ==> (r is Ok <==> crate::overlay::opens(o->0@, collection@)),
        o is Some && r is Ok ==> r->Ok_0@.len() == rows@.len() && forall|f: Seq<char>| #[trigger]
            r->Ok_0@[i]@.dom().contains(f) <==> rows@[i]@.dom().contains(f) && crate::overlay::shows(
                o->0@,
                collection@,
                f,
            ),
        r matches Err(e) ==> e.status == 403,
{
    if o is Some && r is Ok {
        assert(r->Ok_0@[i]@ == crate::privacy::masked(rows@[i]@, o->0@, collection@));
    }
}

} // verus!
