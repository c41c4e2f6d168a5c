//! Which tier a block goes to, what a rebalance does with it, which strands stand together and
//! what a compaction takes and gives, case by case.
use crate::histone::{
    accessed, action_kind, ascending, by_block, by_bytes, clustered, colocates, compactable,
    joined, key_from, key_of, lemma_clustered_is_order, members_of, next_tier, rebalanced, tier,
    BlockAccessStats, CoLocationPlan, CompactionRecord, CompactionSegment, HistoneBlock,
    RebalanceAction, RebalanceActionKind, Temperature,
};
use crate::model::StrandView;
use crate::query::answer_laws::{comes_first, law_bytes_are_ordered_as_in_a_dictionary};
use crate::support::bytes::lex_less;
use crate::support::num_text::{decimal, hex};
use crate::support::sort::{
    arranged, lemma_arrangement_exists, lemma_lex_is_order, lemma_sorted_same_members,
    stable_order, strict_weak_order,
};
use vstd::prelude::*;
use vstd::utf8::encode_utf8;

verus! {

/// A block whose telomere is not spent is hot within five minutes of its last access, warm
/// within seven days and cold from then on; a spent one is frozen.
pub proof fn law_idle_time_makes_the_tier(now: u64, last: u64, count: u16, immortal: bool)
    ensures
        count == 0 && !immortal ==> tier(now, last, count, immortal) == Temperature::Frozen,
        (count > 0 || immortal) && now - last <= 5 * 60 * 1_000_000_000 ==> tier(now, last, count, immortal)
            == Temperature::Hot,
        (count > 0 || immortal) && 5 * 60 * 1_000_000_000 < now - last <= 7 * 24 * 60 * 60 * 1_000_000_000 ==> tier(
            now,
            last,
            count,
            immortal,
        ) == Temperature::Warm,
        (count > 0 || immortal) && now - last > 7 * 24 * 60 * 60 * 1_000_000_000 ==> tier(now, last, count, immortal)
            == Temperature::Cold,
{
}

/// A block that was not accessed goes to the tier of its idle time, whatever its tier was: it
/// cools down, hot or warm as it may have been, and freezes where it is spent.
pub proof fn law_untouched_blocks_go_by_idle_time(
    current: Temperature,
    stats: BlockAccessStats,
    now: u64,
    count: u16,
    immortal: bool,
)
    ensures
        ({
            let next = next_tier(current, stats, now, count, immortal, false);
            let idle = now - stats.last_access_ns;
            if count == 0 && !immortal {
                next == Temperature::Frozen
            } else if idle <= 5 * 60 * 1_000_000_000 {
                next == Temperature::Hot
            } else if idle <= 7 * 24 * 60 * 60 * 1_000_000_000 {
                next == Temperature::Warm
            } else {
                next == Temperature::Cold
            }
        }),
{
}

/// A block that was accessed and is not spent becomes warm from cold or frozen, hot from warm
/// with the second access of a burst, and goes by its idle time otherwise.
pub proof fn law_touched_blocks_warm_up(
    current: Temperature,
    stats: BlockAccessStats,
    now: u64,
    count: u16,
    immortal: bool,
)
    requires
        count > 0 || immortal,
    ensures
        ({
            let next = next_tier(current, stats, now, count, immortal, true);
            let idle = now - stats.last_access_ns;
            &&& current == Temperature::Cold || current == Temperature::Frozen ==> next == Temperature::Warm
            &&& current == Temperature::Warm && stats.access_count_recent > 1 ==> next == Temperature::Hot
            &&& current == Temperature::Hot || (current == Temperature::Warm && stats.access_count_recent <= 1)
                ==> if idle <= 5 * 60 * 1_000_000_000 {
                next == Temperature::Hot
            } else if idle <= 7 * 24 * 60 * 60 * 1_000_000_000 {
                next == Temperature::Warm
            } else {
                next == Temperature::Cold
            }
        }),
{
}

/// An access is counted and timed; it joins the burst of the one before within ten minutes and
/// starts a burst of its own later.
pub proof fn law_access_is_counted(s: BlockAccessStats, now: u64)
    ensures
        accessed(s, now).last_access_ns == now,
        s.access_count_total < u64::MAX ==> accessed(s, now).access_count_total == s.access_count_total + 1,
        s.access_count_total == u64::MAX ==> accessed(s, now).access_count_total == u64::MAX,
        now - s.last_access_ns > 10 * 60 * 1_000_000_000 ==> accessed(s, now).access_count_recent == 1,
        now - s.last_access_ns <= 10 * 60 * 1_000_000_000 && s.access_count_recent < u32::MAX ==> accessed(
            s,
            now,
        ).access_count_recent == s.access_count_recent + 1,
        now - s.last_access_ns <= 10 * 60 * 1_000_000_000 && s.access_count_recent == u32::MAX ==> accessed(
            s,
            now,
        ).access_count_recent == u32::MAX,
{
}

/// What a move between tiers is called, for each pair of tiers.
pub proof fn law_names_of_moves(t: Temperature)
    ensures
        action_kind(t, t) == RebalanceActionKind::Noop,
        t != Temperature::Frozen ==> action_kind(t, Temperature::Frozen) == RebalanceActionKind::Freeze,
        t != Temperature::Cold ==> action_kind(t, Temperature::Cold) == RebalanceActionKind::Compress,
        t != Temperature::Hot ==> action_kind(t, Temperature::Hot) == RebalanceActionKind::Promote,
        action_kind(Temperature::Hot, Temperature::Warm) == RebalanceActionKind::Demote,
        action_kind(Temperature::Cold, Temperature::Warm) == RebalanceActionKind::Promote,
        action_kind(Temperature::Frozen, Temperature::Warm) == RebalanceActionKind::Promote,
{
}

/// A rebalance moves a block from its own tier to the one that its numbers call for.
pub proof fn law_rebalance_moves_a_block_by_its_numbers(
    now: u64,
    block: HistoneBlock,
    stats: Map<u64, BlockAccessStats>,
    states: Map<u64, (u16, bool)>,
    touched: Set<u64>,
    s: BlockAccessStats,
    count: u16,
    immortal: bool,
)
    requires
        stats.dom().contains(block.block_id) ==> s == stats[block.block_id],
        !stats.dom().contains(block.block_id) ==> s.last_access_ns == block.last_access_ns && s.access_count_total == 0
            && s.access_count_recent == 0,
        states.dom().contains(block.block_id) ==> (count, immortal) == states[block.block_id],
        !states.dom().contains(block.block_id) ==> count == 65535 && immortal,
    ensures
        rebalanced(now, block, stats, states, touched).block_id == block.block_id,
        rebalanced(now, block, stats, states, touched).from == block.temperature,
        rebalanced(now, block, stats, states, touched).to == next_tier(
            block.temperature,
            s,
            now,
            count,
            immortal,
            touched.contains(block.block_id),
        ),
        rebalanced(now, block, stats, states, touched).kind == action_kind(
            block.temperature,
            rebalanced(now, block, stats, states, touched).to,
        ),
{
}

/// The actions of a rebalance, sorted: as many as before, the same ones, and the numbers of the
/// blocks do not fall.
pub proof fn law_actions_are_in_the_order_of_blocks(actions: Seq<RebalanceAction>, i: int, j: int, x: RebalanceAction)
    ensures
        ({
            let out = arranged(actions, by_block());
            &&& out.len() == actions.len()
            &&& out.contains(x) <==> actions.contains(x)
            &&& 0 <= i < j < out.len() ==> out[i].block_id <= out[j].block_id
        }),
{
    let lt = by_block();
    assert(strict_weak_order(lt));
    lemma_arrangement_exists(actions, lt);
    let out = arranged(actions, lt);
    lemma_sorted_same_members(actions, out, lt);
    let p = choose|p: Seq<int>| stable_order(actions, out, p, lt);
    if 0 <= i < j < out.len() {
        assert(!lt(out[j], out[i]));
    }
}

/// Whether an intron names a user that the strand refers to.
pub open spec fn refers_to_user(v: StrandView, k: int, sig: [u8; 8]) -> bool {
    &&& 0 <= k < v.introns.len()
    &&& v.introns[k].field_name == "user"@ || v.introns[k].field_name == "user_id"@
    &&& v.introns[k].references_strand == Some(sig)
}

/// A strand stands with the first user that it refers to, and with its collection where it
/// refers to none.
pub proof fn law_strands_stand_with_their_user(v: StrandView, k: int, sig: [u8; 8])
    ensures
        refers_to_user(v, k, sig) && (forall|i: int, s: [u8; 8]| 0 <= i < k ==> !#[trigger] refers_to_user(v, i, s))
            ==> key_of(v) == "user:"@ + hex(sig@),
        (forall|i: int, s: [u8; 8]| !#[trigger] refers_to_user(v, i, s)) ==> key_of(v) == "collection:"@ + decimal(
            v.collection_id as nat,
        ),
{
    if refers_to_user(v, k, sig) && (forall|i: int, s: [u8; 8]| 0 <= i < k ==> !#[trigger] refers_to_user(v, i, s)) {
        lemma_key_at(v, 0, k, sig);
    }
    if forall|i: int, s: [u8; 8]| !#[trigger] refers_to_user(v, i, s) {
        lemma_key_of_collection(v, 0);
    }
}

proof fn lemma_key_at(v: StrandView, from: int, k: int, sig: [u8; 8])
    requires
        0 <= from <= k,
        refers_to_user(v, k, sig),
        forall|i: int, s: [u8; 8]| 0 <= i < k ==> !#[trigger] refers_to_user(v, i, s),
    ensures
        key_from(v, from) == "user:"@ + hex(sig@),
    decreases k - from,
{
    if from < k {
        if v.introns[from].references_strand is Some {
            assert(!refers_to_user(v, from, v.introns[from].references_strand->0));
        }
        lemma_key_at(v, from + 1, k, sig);
    }
}

proof fn lemma_key_of_collection(v: StrandView, from: int)
    requires
        0 <= from,
        forall|i: int, s: [u8; 8]| !#[trigger] refers_to_user(v, i, s),
    ensures
        key_from(v, from) == "collection:"@ + decimal(v.collection_id as nat),
    decreases v.introns.len() - from,
{
    if from < v.introns.len() {
        if v.introns[from].references_strand is Some {
            assert(!refers_to_user(v, from, v.introns[from].references_strand->0));
        }
        lemma_key_of_collection(v, from + 1);
    }
}

proof fn lemma_members(strands: Seq<StrandView>, key: Seq<char>, n: nat, sig: [u8; 8])
    requires
        n <= strands.len(),
    ensures
        members_of(strands, key, n).contains(sig) <==> exists|i: int|
            0 <= i < n && key_of(#[trigger] strands[i]) == key && strands[i].signature == sig,
    decreases n,
{
    if n > 0 {
        lemma_members(strands, key, (n - 1) as nat, sig);
        let before = members_of(strands, key, (n - 1) as nat);
        let now = members_of(strands, key, n);
        if before.contains(sig) {
            assert(now[before.index_of(sig)] == sig);
        }
        if now.contains(sig) {
            let q = now.index_of(sig);
            if q < before.len() {
                assert(before[q] == sig);
            } else {
                assert(key_of(strands[n - 1]) == key && strands[n - 1].signature == sig);
            }
        }
        if key_of(strands[n - 1]) == key && strands[n - 1].signature == sig {
            assert(now[before.len() as int] == sig);
        }
    }
}

/// A plan for standing together holds the signatures of exactly the strands with its key, in
/// dictionary order; every strand has a plan.
pub proof fn law_plans_hold_the_strands_with_their_key(
    plans: Seq<CoLocationPlan>,
    strands: Seq<StrandView>,
    k: int,
    sig: [u8; 8],
    i: int,
    j: int,
    m: int,
)
    requires
        colocates(plans, strands),
        0 <= k < plans.len(),
    ensures
        plans[k].members@.contains(sig) <==> exists|n: int|
            0 <= n < strands.len() && key_of(#[trigger] strands[n]) == plans[k].semantic_key@ && strands[n].signature
                == sig,
        0 <= i < j < plans[k].members@.len() ==> !comes_first(plans[k].members@[j]@, plans[k].members@[i]@),
        0 <= m < strands.len() ==> exists|q: int|
            0 <= q < plans.len() && (#[trigger] plans[q]).semantic_key@ == key_of(strands[m]),
{
    let p = plans[k];
    let all = members_of(strands, p.semantic_key@, strands.len());
    let lt = by_bytes();
    lemma_lex_is_order();
    assert(lt =~= (|a: [u8; 8], b: [u8; 8]| lex_less(a@, b@)));
    assert(strict_weak_order(lt));
    lemma_arrangement_exists(all, lt);
    lemma_sorted_same_members(all, p.members@, lt);
    lemma_members(strands, p.semantic_key@, strands.len(), sig);
    let order = choose|order: Seq<int>| stable_order(all, p.members@, order, lt);
    if 0 <= i < j < p.members@.len() {
        assert(!lt(p.members@[j], p.members@[i]));
        law_bytes_are_ordered_as_in_a_dictionary(p.members@[j]@, p.members@[i]@);
    }
    if 0 <= m < strands.len() {
        assert(crate::histone::key_occurs(strands, key_of(strands[m])));
        assert(crate::histone::key_planned(plans, key_of(strands[m])));
    }
}

/// A compaction selects the cold and the frozen segments and no others, in the order of their
/// numbers.
pub proof fn law_compaction_selects_cold_segments(segments: Seq<CompactionSegment>, id: u32, i: int, j: int)
    ensures
        ({
            let out = arranged(compactable(segments, segments.len()), ascending());
            &&& out.len() == compactable(segments, segments.len()).len()
            &&& out.contains(id) <==> exists|k: int|
                0 <= k < segments.len() && (#[trigger] segments[k]).segment_id == id && (segments[k].temperature
                    == Temperature::Cold || segments[k].temperature == Temperature::Frozen)
            &&& 0 <= i < j < out.len() ==> out[i] <= out[j]
        }),
        compactable(segments, segments.len()).len() == segments.filter(
            |s: CompactionSegment| s.temperature != Temperature::Hot && s.temperature != Temperature::Warm,
        ).len(),
{
    let all = compactable(segments, segments.len());
    let lt = ascending();
    assert(strict_weak_order(lt));
    lemma_arrangement_exists(all, lt);
    let out = arranged(all, lt);
    lemma_sorted_same_members(all, out, lt);
    let p = choose|p: Seq<int>| stable_order(all, out, p, lt);
    if 0 <= i < j < out.len() {
        assert(!lt(out[j], out[i]));
    }
    lemma_compactable(segments, segments.len(), id);
    assert(segments.take(segments.len() as int) =~= segments);
}

proof fn lemma_compactable(segments: Seq<CompactionSegment>, n: nat, id: u32)
    requires
        n <= segments.len(),
    ensures
        compactable(segments, n).contains(id) <==> exists|k: int|
            0 <= k < n && (#[trigger] segments[k]).segment_id == id && (segments[k].temperature == Temperature::Cold
                || segments[k].temperature == Temperature::Frozen),
        compactable(segments, n).len() == segments.take(n as int).filter(
            |s: CompactionSegment| s.temperature != Temperature::Hot && s.temperature != Temperature::Warm,
        ).len(),
    decreases n,
{
    let cool = |s: CompactionSegment| s.temperature != Temperature::Hot && s.temperature != Temperature::Warm;
    reveal(Seq::filter);
    if n > 0 {
        lemma_compactable(segments, (n - 1) as nat, id);
        let before = compactable(segments, (n - 1) as nat);
        let now = compactable(segments, n);
        assert(segments.take(n as int).drop_last() =~= segments.take(n - 1));
        if before.contains(id) {
            assert(now[before.index_of(id)] == id);
        }
        if now.contains(id) {
            let q = now.index_of(id);
            if q < before.len() {
                assert(before[q] == id);
            } else {
                assert(segments[n - 1].segment_id == id);
            }
        }
        if segments[n - 1].segment_id == id && cool(segments[n - 1]) {
            assert(now[before.len() as int] == id);
        }
    }
}

/// The records of a compacted segment are those of the segments that it is made of. Records
/// without a clustering key come first, then by the key in alphabetical order; under one key,
/// and without one, the numbers do not fall.
pub proof fn law_compacted_records_are_clustered(
    segments: Seq<CompactionSegment>,
    x: CompactionRecord,
    i: int,
    j: int,
)
    ensures
        ({
            let out = arranged(joined(segments, segments.len()), clustered());
            &&& out.contains(x) <==> exists|k: int| 0 <= k < segments.len() && (#[trigger] segments[k]).records@.contains(x)
            &&& 0 <= i < j < out.len() ==> match (out[i].clustering_key, out[j].clustering_key) {
                (None, None) => out[i].record_id <= out[j].record_id,
                (None, Some(_)) => true,
                (Some(_), None) => false,
                (Some(a), Some(b)) => if a@ == b@ {
                    out[i].record_id <= out[j].record_id
                } else {
                    comes_first(encode_utf8(a@), encode_utf8(b@))
                },
            }
        }),
{
    let all = joined(segments, segments.len());
    let lt = clustered();
    lemma_clustered_is_order();
    lemma_arrangement_exists(all, lt);
    let out = arranged(all, lt);
    lemma_sorted_same_members(all, out, lt);
    lemma_joined(segments, segments.len(), x);
    let p = choose|p: Seq<int>| stable_order(all, out, p, lt);
    if 0 <= i < j < out.len() {
        assert(!lt(out[j], out[i]));
        if let (Some(a), Some(b)) = (out[i].clustering_key, out[j].clustering_key) {
            crate::support::sort::lemma_text_total(a@, b@);
            law_bytes_are_ordered_as_in_a_dictionary(encode_utf8(a@), encode_utf8(b@));
        }
    }
}

proof fn lemma_joined(segments: Seq<CompactionSegment>, n: nat, x: CompactionRecord)
    requires
        n <= segments.len(),
    ensures
        joined(segments, n).contains(x) <==> exists|k: int| 0 <= k < n && (#[trigger] segments[k]).records@.contains(x),
    decreases n,
{
    if n > 0 {
        lemma_joined(segments, (n - 1) as nat, x);
        let before = joined(segments, (n - 1) as nat);
        let here = segments[n - 1].records@;
        let now = joined(segments, n);
        if before.contains(x) {
            assert(now[before.index_of(x)] == x);
        }
        if here.contains(x) {
            assert(now[before.len() + here.index_of(x)] == x);
        }
        if now.contains(x) {
            let q = now.index_of(x);
            if q < before.len() {
                assert(before[q] == x);
            } else {
                assert(here[q - before.len()] == x);
            }
        }
    }
}

} // verus!
