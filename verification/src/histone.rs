//! Histone blocks: how warm a block is, which strands belong together, and what a rebalance or
//! a compaction does.
use crate::digest::{blake3_bytes, blake3_digest};
use crate::model::{IntronView, Strand, StrandView, strand_views};
use crate::support::bytes::{from_le, lemma_lex_total, lex_less, u64_from_le_at};
use crate::support::num_text::{decimal, hex, hex_text, u64_text};
use crate::support::sort::{
    arranged, in_order, lemma_arranged, lemma_arrangement_exists, lemma_lex_is_order,
    lemma_sorted_same_multiset, lemma_text_total, sort_signatures, sort_texts, stable_sort,
    str_less, strict_weak_order, text_less,
};
use crate::support::text::{contains_text, join2, string_is, texts};
use std::collections::{HashMap, HashSet};
use vstd::prelude::*;
use vstd::utf8::encode_utf8;

verus! {

broadcast use vstd::std_specs::hash::group_hash_axioms;

/// The eight bytes that name a strand.
pub type StrandSignature = [u8; 8];

/// How warm a block is.
#[derive(Debug, Clone, Copy, PartialEq, Eq, Structural)]
pub enum Temperature {
    Hot,
    Warm,
    Cold,
    Frozen,
}

/// Strands that are kept together.
#[derive(Debug)]
pub struct HistoneBlock {
    pub block_id: u64,
    pub strands: Vec<StrandSignature>,
    pub temperature: Temperature,
    pub semantic_key: Option<String>,
    pub compressed: bool,
    pub last_access_ns: u64,
}

/// How a block has been accessed.
#[derive(Debug, Clone, Copy, PartialEq, Eq, Structural)]
pub struct BlockAccessStats {
    pub last_access_ns: u64,
    pub access_count_total: u64,
    pub access_count_recent: u32,
}

impl BlockAccessStats {
    /// A block that has not been accessed since `last_access_ns`.
    pub fn new(last_access_ns: u64) -> (r: Self)
        ensures
            r == unaccessed(last_access_ns),
    {
        BlockAccessStats { last_access_ns, access_count_total: 0, access_count_recent: 0 }
    }
}

/// A block that has not been accessed since `last`.
pub open spec fn unaccessed(last: u64) -> BlockAccessStats {
    BlockAccessStats { last_access_ns: last, access_count_total: 0, access_count_recent: 0 }
}

/// A move between tiers.
#[derive(Debug, Clone, Copy, PartialEq, Eq, Structural)]
pub struct TierDecision {
    pub previous: Temperature,
    pub next: Temperature,
    pub changed: bool,
}

/// The strands that share a semantic key.
#[derive(Debug, PartialEq, Eq)]
pub struct CoLocationPlan {
    pub semantic_key: String,
    pub members: Vec<StrandSignature>,
    pub block_id: u64,
}

/// What a rebalance does to a block.
#[derive(Debug, Clone, Copy, PartialEq, Eq, Structural)]
pub enum RebalanceActionKind {
    Noop,
    Promote,
    Demote,
    Freeze,
    Compress,
}

/// A rebalance of one block.
#[derive(Debug, Clone, Copy, PartialEq, Eq, Structural)]
pub struct RebalanceAction {
    pub block_id: u64,
    pub from: Temperature,
    pub to: Temperature,
    pub kind: RebalanceActionKind,
}

/// A rebalance of all blocks.
#[derive(Debug, PartialEq, Eq)]
pub struct RebalanceTickResult {
    pub actions: Vec<RebalanceAction>,
}

/// A segment to be compacted.
#[derive(Debug, PartialEq, Eq)]
pub struct CompactionSegment {
    pub segment_id: u32,
    pub temperature: Temperature,
    pub records: Vec<CompactionRecord>,
}

/// A record of a segment.
#[derive(Debug, PartialEq, Eq)]
pub struct CompactionRecord {
    pub record_id: u64,
    pub clustering_key: Option<String>,
    pub payload: Vec<u8>,
}

/// Segments to be merged into one.
#[derive(Debug, PartialEq, Eq)]
pub struct CompactionPlan {
    pub selected_segment_ids: Vec<u32>,
    pub output_segment_id: u32,
}

/// A block is hot for five minutes after an access, in nanoseconds.
pub const HOT_WINDOW: u64 = 300_000_000_000;

/// A block is warm for seven days after an access, in nanoseconds.
pub const WARM_WINDOW: u64 = 604_800_000_000_000;

/// Accesses within ten minutes of each other count as one burst, in nanoseconds.
pub const REACCESS_PROMOTION_WINDOW: u64 = 600_000_000_000;

/// How long ago `then` was.
pub open spec fn idle(now: u64, then: u64) -> int {
    if now < then {
        0
    } else {
        now - then
    }
}

/// The tier of a block: frozen when its telomere is spent, else by how long it has been idle.
pub open spec fn tier(now: u64, last: u64, telomere_count: u16, immortal: bool) -> Temperature {
    if telomere_count == 0 && !immortal {
        Temperature::Frozen
    } else if idle(now, last) <= HOT_WINDOW {
        Temperature::Hot
    } else if idle(now, last) <= WARM_WINDOW {
        Temperature::Warm
    } else {
        Temperature::Cold
    }
}

/// The tier of a block.
pub fn classify_temperature(now_ns: u64, last_access_ns: u64, telomere_count: u16, immortal: bool) -> (r: Temperature)
    ensures
        r == tier(now_ns, last_access_ns, telomere_count, immortal),
{
    if telomere_count == 0 && !immortal {
        return Temperature::Frozen;
    }
    let idle_ns: u64 = now_ns.saturating_sub(last_access_ns);
    if idle_ns <= HOT_WINDOW {
        Temperature::Hot
    } else if idle_ns <= WARM_WINDOW {
        Temperature::Warm
    } else {
        Temperature::Cold
    }
}

/// The tier after an access: cold and frozen blocks become warm at once.
pub open spec fn warmed(t: Temperature) -> Temperature {
    match t {
        Temperature::Cold => Temperature::Warm,
        Temperature::Frozen => Temperature::Warm,
        _ => t,
    }
}

/// The tier after an access.
pub fn on_access_promote_immediate(current: Temperature) -> (r: Temperature)
    ensures
        r == warmed(current),
{
    match current {
        Temperature::Cold | Temperature::Frozen => Temperature::Warm,
        Temperature::Warm | Temperature::Hot => current,
    }
}

/// Whether an access falls into the burst of the one before.
pub fn should_promote_warm_to_hot(last_access_ns: u64, now_ns: u64) -> (r: bool)
    ensures
        r == (idle(now_ns, last_access_ns) <= REACCESS_PROMOTION_WINDOW),
{
    now_ns.saturating_sub(last_access_ns) <= REACCESS_PROMOTION_WINDOW
}

/// The counters after an access; both saturate.
pub open spec fn accessed(s: BlockAccessStats, now: u64) -> BlockAccessStats {
    BlockAccessStats {
        last_access_ns: now,
        access_count_total: if s.access_count_total == u64::MAX {
            u64::MAX
        } else {
            (s.access_count_total + 1) as u64
        },
        access_count_recent: if idle(now, s.last_access_ns) > REACCESS_PROMOTION_WINDOW {
            1
        } else if s.access_count_recent == u32::MAX {
            u32::MAX
        } else {
            (s.access_count_recent + 1) as u32
        },
    }
}

/// Counts an access.
pub fn record_block_access(stats: &mut BlockAccessStats, now_ns: u64)
    ensures
        *final(stats) == accessed(*old(stats), now_ns),
{
    if should_promote_warm_to_hot(stats.last_access_ns, now_ns) {
        stats.access_count_recent = stats.access_count_recent.saturating_add(1);
    } else {
        stats.access_count_recent = 1;
    }
    stats.access_count_total = stats.access_count_total.saturating_add(1);
    stats.last_access_ns = now_ns;
}

/// The tier that a block goes to: frozen when its telomere is spent; on an access, warm from
/// cold or frozen, and hot from warm in a burst; else by how long it has been idle.
pub open spec fn next_tier(
    current: Temperature,
    stats: BlockAccessStats,
    now: u64,
    telomere_count: u16,
    immortal: bool,
    was_accessed: bool,
) -> Temperature {
    let by_age = tier(now, stats.last_access_ns, telomere_count, immortal);
    if by_age == Temperature::Frozen {
        Temperature::Frozen
    } else if was_accessed && (current == Temperature::Cold || current == Temperature::Frozen) {
        Temperature::Warm
    } else if was_accessed && current == Temperature::Warm && stats.access_count_recent >= 2 {
        Temperature::Hot
    } else {
        by_age
    }
}

/// The tier that a block goes to.
pub fn evaluate_tier_transition(
    current: Temperature,
    stats: &BlockAccessStats,
    now_ns: u64,
    telomere_count: u16,
    immortal: bool,
    was_accessed: bool,
) -> (r: TierDecision)
    ensures
        r.previous == current,
        r.next == next_tier(current, *stats, now_ns, telomere_count, immortal, was_accessed),
        r.changed == (current != r.next),
{
    let mut next = classify_temperature(now_ns, stats.last_access_ns, telomere_count, immortal);
    if next != Temperature::Frozen && was_accessed {
        if current == Temperature::Cold || current == Temperature::Frozen {
            next = on_access_promote_immediate(current);
        } else if current == Temperature::Warm && stats.access_count_recent >= 2 {
            next = Temperature::Hot;
        }
    }
    TierDecision { previous: current, next, changed: current != next }
}

/// The block of a semantic key: the first eight bytes of its digest.
pub open spec fn block_of(key: Seq<char>) -> u64 {
    from_le(blake3_digest(encode_utf8(key)).subrange(0, 8)) as u64
}

/// The block of a semantic key.
pub fn block_id_for_semantic_key(key: &str) -> (r: u64)
    ensures
        r == block_of(key@),
{
    let d = blake3_bytes(key.as_bytes());
    u64_from_le_at(d.as_slice(), 0)
}

/// Whether an intron refers to a user.
pub open spec fn is_user_reference(i: IntronView) -> bool {
    (i.field_name == "user"@ || i.field_name == "user_id"@) && i.references_strand is Some
}

/// The semantic key from the `k`-th intron on: the first user that a strand refers to, else
/// its collection.
pub open spec fn key_from(v: StrandView, k: int) -> Seq<char>
    decreases v.introns.len() - k,
{
    if k < 0 || k >= v.introns.len() {
        "collection:"@ + decimal(v.collection_id as nat)
    } else if is_user_reference(v.introns[k]) {
        "user:"@ + hex(v.introns[k].references_strand->0@)
    } else {
        key_from(v, k + 1)
    }
}

/// The semantic key of a strand.
pub open spec fn key_of(v: StrandView) -> Seq<char> {
    key_from(v, 0)
}

/// The semantic key of a strand.
pub fn infer_semantic_key(strand: &Strand) -> (r: String)
    ensures
        r@ == key_of(strand@),
{
    let ghost v = strand@;
    let mut i: usize = 0;
    while i < strand.introns.len()
        invariant
            0 <= i <= strand.introns@.len(),
            v == strand@,
            key_from(v, 0) == key_from(v, i as int),
        decreases strand.introns@.len() - i,
    {
        let intron = &strand.introns[i];
        proof {
            assert(v.introns[i as int] == intron@);
        }
        if string_is(&intron.field_name, "user") || string_is(&intron.field_name, "user_id") {
            if let Some(sig) = &intron.references_strand {
                let digits = hex_text(sig.as_slice());
                return join2("user:", digits.as_str());
            }
        }
        i += 1;
    }
    let number = u64_text(strand.collection_id as u64);
    join2("collection:", number.as_str())
}

/// The signatures of the first `n` strands with a key.
pub open spec fn members_of(strands: Seq<StrandView>, key: Seq<char>, n: nat) -> Seq<[u8; 8]>
    decreases n,
{
    if n == 0 {
        Seq::empty()
    } else {
        let before = members_of(strands, key, (n - 1) as nat);
        if key_of(strands[n - 1]) == key {
            before.push(strands[n - 1].signature)
        } else {
            before
        }
    }
}

/// The dictionary order of signatures.
pub open spec fn by_bytes() -> spec_fn([u8; 8], [u8; 8]) -> bool {
    |a: [u8; 8], b: [u8; 8]| lex_less(a@, b@)
}

/// Whether a plan holds the strands with its key, in order, and their block.
pub open spec fn plans_group(p: CoLocationPlan, strands: Seq<StrandView>) -> bool {
    &&& p.members@ == arranged(members_of(strands, p.semantic_key@, strands.len()), by_bytes())
    &&& p.block_id == block_of(p.semantic_key@)
}

/// Whether some plan has a key.
pub open spec fn key_planned(plans: Seq<CoLocationPlan>, key: Seq<char>) -> bool {
    exists|i: int| 0 <= i < plans.len() && (#[trigger] plans[i]).semantic_key@ == key
}

/// Whether some strand has a key.
pub open spec fn key_occurs(strands: Seq<StrandView>, key: Seq<char>) -> bool {
    exists|i: int| 0 <= i < strands.len() && key_of(#[trigger] strands[i]) == key
}

/// Whether plans group strands: each by its key, in alphabetical order, one for every key that
/// occurs.
pub open spec fn colocates(plans: Seq<CoLocationPlan>, strands: Seq<StrandView>) -> bool {
    &&& forall|i: int| 0 <= i < plans.len() ==> plans_group(#[trigger] plans[i], strands)
    &&& forall|i: int, j: int|
        0 <= i < j < plans.len() ==> text_less(
            (#[trigger] plans[i]).semantic_key@,
            (#[trigger] plans[j]).semantic_key@,
        )
    &&& forall|k: Seq<char>| #[trigger] key_planned(plans, k) <==> key_occurs(strands, k)
}

/// The distinct keys of strands, in the order in which they first occur.
fn distinct_keys(strands: &[Strand]) -> (r: Vec<String>)
    ensures
        texts(r@).no_duplicates(),
        forall|k: Seq<char>| #[trigger] texts(r@).contains(k) <==> key_occurs(strand_views(strands@), k),
{
    let ghost views = strand_views(strands@);
    let mut out: Vec<String> = Vec::new();
    let mut i: usize = 0;
    while i < strands.len()
        invariant
            0 <= i <= strands@.len(),
            texts(out@).no_duplicates(),
            views == strand_views(strands@),
            forall|k: Seq<char>| #[trigger] texts(out@).contains(k) <==> exists|j: int|
                0 <= j < i && key_of(#[trigger] views[j]) == k,
        decreases strands@.len() - i,
    {
        let key = infer_semantic_key(&strands[i]);
        let ghost before = texts(out@);
        let ghost here = key@;
        proof {
            assert(key_of(views[i as int]) == here);
        }
        let known = contains_text(&out, key.as_str());
        if !known {
            out.push(key);
        }
        proof {
            let now = texts(out@);
            if !known {
                assert(now =~= before.push(here));
            }
            assert(now.no_duplicates());
            assert forall|k: Seq<char>| #[trigger] now.contains(k) <==> exists|j: int|
                0 <= j < i + 1 && key_of(#[trigger] views[j]) == k by {
                if now.contains(k) {
                    let q = now.index_of(k);
                    if q < before.len() {
                        assert(before[q] == k);
                        assert(before.contains(k));
                        let j = choose|j: int| 0 <= j < i && key_of(#[trigger] views[j]) == k;
                        assert(key_of(views[j]) == k);
                    } else {
                        assert(key_of(views[i as int]) == k);
                    }
                }
                if exists|j: int| 0 <= j < i + 1 && key_of(#[trigger] views[j]) == k {
                    let j = choose|j: int| 0 <= j < i + 1 && key_of(#[trigger] views[j]) == k;
                    if j < i {
                        assert(before.contains(k));
                        assert(now[before.index_of(k)] == k);
                    } else if known {
                        assert(before.contains(here));
                    } else {
                        assert(now[before.len() as int] == here);
                    }
                }
            }
        }
        i += 1;
    }
    out
}

fn gather_members(strands: &[Strand], key: &str) -> (r: Vec<[u8; 8]>)
    ensures
        r@ == arranged(members_of(strand_views(strands@), key@, strands@.len()), by_bytes()),
{
    let ghost views = strand_views(strands@);
    let mut out: Vec<[u8; 8]> = Vec::new();
    let mut i: usize = 0;
    while i < strands.len()
        invariant
            0 <= i <= strands@.len(),
            views == strand_views(strands@),
            out@ == members_of(views, key@, i as nat),
        decreases strands@.len() - i,
    {
        let k = infer_semantic_key(&strands[i]);
        proof {
            assert(views[i as int] == strands@[i as int]@);
        }
        if string_is(&k, key) {
            out.push(strands[i].signature);
        }
        i += 1;
    }
    let ghost unsorted = out@;
    let sorted = sort_signatures(out);
    proof {
        let lt = |a: [u8; 8], b: [u8; 8]| lex_less(a@, b@);
        lemma_lex_is_order();
        assert(strict_weak_order(lt));
        assert(lt =~= by_bytes());
        lemma_arranged(unsorted, sorted@, lt);
    }
    sorted
}

/// Groups strands by semantic key; the groups are in alphabetical order of their keys.
pub fn plan_semantic_colocation(strands: &[Strand]) -> (r: Vec<CoLocationPlan>)
    ensures
        colocates(r@, strand_views(strands@)),
{
    let found = distinct_keys(strands);
    let ghost unsorted = texts(found@);
    let keys = sort_texts(found);
    let ghost sorted = texts(keys@);
    proof {
        lemma_sorted_distinct(unsorted, sorted);
    }
    let mut out: Vec<CoLocationPlan> = Vec::new();
    let mut i: usize = 0;
    while i < keys.len()
        invariant
            0 <= i <= keys@.len(),
            sorted == texts(keys@),
            out@.len() == i,
            forall|j: int|
                0 <= j < i ==> plans_group(#[trigger] out@[j], strand_views(strands@)) && out@[j].semantic_key@
                    == sorted[j],
        decreases keys@.len() - i,
    {
        let key = &keys[i];
        let members = gather_members(strands, key.as_str());
        let block_id: u64 = block_id_for_semantic_key(key.as_str());
        out.push(CoLocationPlan { semantic_key: key.clone(), members, block_id });
        i += 1;
    }
    proof {
        let views = strand_views(strands@);
        assert forall|k: Seq<char>| #[trigger] key_planned(out@, k) <==> key_occurs(views, k) by {
            assert(sorted.contains(k) <==> unsorted.contains(k));
            if key_planned(out@, k) {
                let i = choose|i: int| 0 <= i < out@.len() && (#[trigger] out@[i]).semantic_key@ == k;
                assert(sorted[i] == k);
                assert(unsorted.contains(k));
            }
            if key_occurs(views, k) {
                assert(unsorted.contains(k));
                let q = sorted.index_of(k);
                assert(out@[q].semantic_key@ == k);
            }
        }
    }
    out
}

proof fn lemma_sorted_distinct(unsorted: Seq<Seq<char>>, sorted: Seq<Seq<char>>)
    requires
        unsorted.no_duplicates(),
        sorted == crate::support::sort::alphabetical(unsorted),
        sorted.to_multiset() == unsorted.to_multiset(),
        in_order(sorted),
    ensures
        forall|k: Seq<char>| #[trigger] sorted.contains(k) <==> unsorted.contains(k),
        forall|i: int, j: int| 0 <= i < j < sorted.len() ==> text_less(#[trigger] sorted[i], #[trigger] sorted[j]),
{
    broadcast use vstd::seq_lib::group_to_multiset_ensures;
    assert forall|k: Seq<char>| #[trigger] sorted.contains(k) <==> unsorted.contains(k) by {
        assert(sorted.contains(k) <==> sorted.to_multiset().contains(k));
        assert(unsorted.contains(k) <==> unsorted.to_multiset().contains(k));
    }
    unsorted.lemma_multiset_has_no_duplicates();
    sorted.lemma_multiset_has_no_duplicates_conv();
    assert forall|i: int, j: int| 0 <= i < j < sorted.len() implies text_less(
        #[trigger] sorted[i],
        #[trigger] sorted[j],
    ) by {
        lemma_text_total(sorted[i], sorted[j]);
        assert(sorted[i] != sorted[j]);
    }
}

/// How warm a tier is.
pub open spec fn warmth(t: Temperature) -> int {
    match t {
        Temperature::Frozen => 0,
        Temperature::Cold => 1,
        Temperature::Warm => 2,
        Temperature::Hot => 3,
    }
}

fn tier_rank(t: Temperature) -> (r: i32)
    ensures
        r == warmth(t),
{
    match t {
        Temperature::Frozen => 0,
        Temperature::Cold => 1,
        Temperature::Warm => 2,
        Temperature::Hot => 3,
    }
}

/// What a move between tiers is called.
pub open spec fn action_kind(from: Temperature, to: Temperature) -> RebalanceActionKind {
    if from == to {
        RebalanceActionKind::Noop
    } else if to == Temperature::Frozen {
        RebalanceActionKind::Freeze
    } else if to == Temperature::Cold {
        RebalanceActionKind::Compress
    } else if warmth(to) > warmth(from) {
        RebalanceActionKind::Promote
    } else {
        RebalanceActionKind::Demote
    }
}

/// The counters of a block; without any it counts as not accessed since its own time.
pub open spec fn stats_of(stats: Map<u64, BlockAccessStats>, block: HistoneBlock) -> BlockAccessStats {
    if stats.dom().contains(block.block_id) {
        stats[block.block_id]
    } else {
        unaccessed(block.last_access_ns)
    }
}

/// The telomere state of a block; without one it is immortal.
pub open spec fn telomere_of(states: Map<u64, (u16, bool)>, block: HistoneBlock) -> (u16, bool) {
    if states.dom().contains(block.block_id) {
        states[block.block_id]
    } else {
        (u16::MAX, true)
    }
}

/// What a rebalance does to a block.
pub open spec fn rebalanced(
    now: u64,
    block: HistoneBlock,
    stats: Map<u64, BlockAccessStats>,
    states: Map<u64, (u16, bool)>,
    touched: Set<u64>,
) -> RebalanceAction {
    let (count, immortal) = telomere_of(states, block);
    let to = next_tier(
        block.temperature,
        stats_of(stats, block),
        now,
        count,
        immortal,
        touched.contains(block.block_id),
    );
    RebalanceAction {
        block_id: block.block_id,
        from: block.temperature,
        to,
        kind: action_kind(block.temperature, to),
    }
}

/// The order of actions: by block.
pub open spec fn by_block() -> spec_fn(RebalanceAction, RebalanceAction) -> bool {
    |a: RebalanceAction, b: RebalanceAction| a.block_id < b.block_id
}

fn block_less(a: &RebalanceAction, b: &RebalanceAction) -> (r: bool)
    ensures
        r == (a.block_id < b.block_id),
{
    a.block_id < b.block_id
}

/// One rebalance of all blocks: an action for each, in the order of their numbers.
pub fn run_rebalance_tick(
    now_ns: u64,
    blocks: &[HistoneBlock],
    stats_by_block: &HashMap<u64, BlockAccessStats>,
    telomere_state_by_block: &HashMap<u64, (u16, bool)>,
    accessed_blocks: &HashSet<u64>,
) -> (r: RebalanceTickResult)
    ensures
        r.actions@ == arranged(
            Seq::new(
                blocks@.len(),
                |i: int|
                    rebalanced(
                        now_ns,
                        blocks@[i],
                        stats_by_block@,
                        telomere_state_by_block@,
                        accessed_blocks@,
                    ),
            ),
            by_block(),
        ),
{
    let ghost want = Seq::new(
        blocks@.len(),
        |i: int| rebalanced(now_ns, blocks@[i], stats_by_block@, telomere_state_by_block@, accessed_blocks@),
    );
    let mut actions: Vec<RebalanceAction> = Vec::new();
    let mut i: usize = 0;
    while i < blocks.len()
        invariant
            0 <= i <= blocks@.len(),
            want == Seq::new(
                blocks@.len(),
                |i: int| rebalanced(now_ns, blocks@[i], stats_by_block@, telomere_state_by_block@, accessed_blocks@),
            ),
            actions@ == want.take(i as int),
        decreases blocks@.len() - i,
    {
        let block = &blocks[i];
        let stats = match stats_by_block.get(&block.block_id) {
            Some(s) => *s,
            None => BlockAccessStats::new(block.last_access_ns),
        };
        let (count, immortal) = match telomere_state_by_block.get(&block.block_id) {
            Some(t) => *t,
            None => (u16::MAX, true),
        };
        let was_accessed = accessed_blocks.contains(&block.block_id);
        let d = evaluate_tier_transition(block.temperature, &stats, now_ns, count, immortal, was_accessed);
        let kind = if !d.changed {
            RebalanceActionKind::Noop
        } else if d.next == Temperature::Frozen {
            RebalanceActionKind::Freeze
        } else if d.next == Temperature::Cold {
            RebalanceActionKind::Compress
        } else if tier_rank(d.next) > tier_rank(d.previous) {
            RebalanceActionKind::Promote
        } else {
            RebalanceActionKind::Demote
        };
        let action = RebalanceAction { block_id: block.block_id, from: d.previous, to: d.next, kind };
        actions.push(action);
        proof {
            assert(action == want[i as int]);
            assert(want.take(i + 1) =~= want.take(i as int).push(want[i as int]));
        }
        i += 1;
    }
    proof {
        assert(want.take(blocks@.len() as int) =~= want);
        assert(strict_weak_order(by_block()));
    }
    let sorted = stable_sort(actions, block_less, Ghost(by_block()));
    proof {
        lemma_arranged(want, sorted@, by_block());
    }
    RebalanceTickResult { actions: sorted }
}

/// The numbers of the first `n` segments that are cold or frozen.
pub open spec fn compactable(segments: Seq<CompactionSegment>, n: nat) -> Seq<u32>
    decreases n,
{
    if n == 0 {
        Seq::empty()
    } else {
        let before = compactable(segments, (n - 1) as nat);
        if segments[n - 1].temperature == Temperature::Cold || segments[n - 1].temperature == Temperature::Frozen {
            before.push(segments[n - 1].segment_id)
        } else {
            before
        }
    }
}

/// The order of numbers.
pub open spec fn ascending() -> spec_fn(u32, u32) -> bool {
    |a: u32, b: u32| a < b
}

fn id_less(a: &u32, b: &u32) -> (r: bool)
    ensures
        r == (*a < *b),
{
    *a < *b
}

/// The cold and frozen segments, to be merged into a new one; there must be two at least.
pub fn plan_compaction(segments: &[CompactionSegment], next_segment_id: u32) -> (r: Option<CompactionPlan>)
    ensures
        match r {
            Some(p) => compactable(segments@, segments@.len()).len() >= 2 && p.selected_segment_ids@ == arranged(
                compactable(segments@, segments@.len()),
                ascending(),
            ) && p.output_segment_id == next_segment_id,
            None => compactable(segments@, segments@.len()).len() < 2,
        },
{
    let mut selected: Vec<u32> = Vec::new();
    let mut i: usize = 0;
    while i < segments.len()
        invariant
            0 <= i <= segments@.len(),
            selected@ == compactable(segments@, i as nat),
        decreases segments@.len() - i,
    {
        let t = segments[i].temperature;
        if t == Temperature::Cold || t == Temperature::Frozen {
            selected.push(segments[i].segment_id);
        }
        i += 1;
    }
    if selected.len() < 2 {
        return None;
    }
    let ghost unsorted = selected@;
    proof {
        assert(strict_weak_order(ascending()));
    }
    let sorted = stable_sort(selected, id_less, Ghost(ascending()));
    proof {
        lemma_arranged(unsorted, sorted@, ascending());
    }
    Some(CompactionPlan { selected_segment_ids: sorted, output_segment_id: next_segment_id })
}

/// Whether one clustering key stands before another; none stands first.
pub open spec fn key_less(a: Option<String>, b: Option<String>) -> bool {
    match (a, b) {
        (None, Some(_)) => true,
        (Some(x), Some(y)) => text_less(x@, y@),
        _ => false,
    }
}

/// The order of compacted records: by clustering key, then by number.
pub open spec fn clustered() -> spec_fn(CompactionRecord, CompactionRecord) -> bool {
    |a: CompactionRecord, b: CompactionRecord|
        key_less(a.clustering_key, b.clustering_key) || (!key_less(b.clustering_key, a.clustering_key) && a.record_id
            < b.record_id)
}

pub proof fn lemma_clustered_is_order()
    ensures
        strict_weak_order(clustered()),
{
    lemma_lex_is_order();
    let lt = clustered();
    assert forall|a: CompactionRecord, b: CompactionRecord, c: CompactionRecord|
        #[trigger] lt(a, b) && #[trigger] lt(b, c) implies lt(a, c) by {
        lemma_key_order(a.clustering_key, b.clustering_key, c.clustering_key);
    }
    assert forall|a: CompactionRecord, b: CompactionRecord, c: CompactionRecord|
        !#[trigger] lt(a, b) && !#[trigger] lt(b, c) implies !lt(a, c) by {
        lemma_key_order(a.clustering_key, b.clustering_key, c.clustering_key);
    }
    assert forall|a: CompactionRecord| !#[trigger] lt(a, a) by {
        lemma_key_order(a.clustering_key, a.clustering_key, a.clustering_key);
    }
}

proof fn lemma_key_order(a: Option<String>, b: Option<String>, c: Option<String>)
    ensures
        !key_less(a, a),
        key_less(a, b) && key_less(b, c) ==> key_less(a, c),
        key_less(a, b) && !key_less(c, b) ==> key_less(a, c),
        !key_less(b, a) && key_less(b, c) ==> key_less(a, c),
        !key_less(b, a) && !key_less(c, b) ==> !key_less(c, a),
        !(key_less(a, b) && key_less(b, a)),
        !(key_less(b, c) && key_less(c, b)),
        !(key_less(a, c) && key_less(c, a)),
{
    lemma_lex_is_order();
    if let (Some(x), Some(y)) = (a, b) {
        lemma_text_total(x@, y@);
    }
    if let (Some(x), Some(y)) = (b, c) {
        lemma_text_total(x@, y@);
    }
    if let (Some(x), Some(y)) = (a, c) {
        lemma_text_total(x@, y@);
    }
}

fn option_less(a: &Option<String>, b: &Option<String>) -> (r: bool)
    ensures
        r == key_less(*a, *b),
{
    match (a, b) {
        (None, Some(_)) => true,
        (Some(x), Some(y)) => str_less(x.as_str(), y.as_str()),
        _ => false,
    }
}

fn record_less(a: &CompactionRecord, b: &CompactionRecord) -> (r: bool)
    ensures
        r == clustered()(*a, *b),
{
    option_less(&a.clustering_key, &b.clustering_key) || (!option_less(&b.clustering_key, &a.clustering_key)
        && a.record_id < b.record_id)
}

/// The records of the first `n` segments, one behind the other.
pub open spec fn joined(segments: Seq<CompactionSegment>, n: nat) -> Seq<CompactionRecord>
    decreases n,
{
    if n == 0 {
        Seq::empty()
    } else {
        joined(segments, (n - 1) as nat) + segments[n - 1].records@
    }
}

/// Merges segments into one cold segment with the records in clustered order.
pub fn compact_segments(segments: Vec<CompactionSegment>, output_segment_id: u32) -> (r: CompactionSegment)
    ensures
        r.segment_id == output_segment_id,
        r.temperature == Temperature::Cold,
        r.records@ == arranged(joined(segments@, segments@.len()), clustered()),
{
    let ghost all = segments@;
    let mut segments = segments;
    let mut records: Vec<CompactionRecord> = Vec::new();
    let mut i: usize = 0;
    while i < segments.len()
        invariant
            0 <= i <= all.len(),
            segments@.len() == all.len(),
            forall|k: int| i <= k < all.len() ==> #[trigger] segments@[k] == all[k],
            records@ == joined(all, i as nat),
        decreases all.len() - i,
    {
        let seg = &mut segments[i];
        records.append(&mut seg.records);
        i += 1;
    }
    proof {
        lemma_clustered_is_order();
    }
    let ghost unsorted = records@;
    let sorted = stable_sort(records, record_less, Ghost(clustered()));
    proof {
        lemma_arranged(unsorted, sorted@, clustered());
    }
    CompactionSegment { segment_id: output_segment_id, temperature: Temperature::Cold, records: sorted }
}

/// A spent telomere freezes a block, however warm it is and whether or not it is accessed.
pub proof fn law_spent_blocks_freeze(
    current: Temperature,
    stats: BlockAccessStats,
    now: u64,
    was_accessed: bool,
)
    ensures
        next_tier(current, stats, now, 0, false, was_accessed) == Temperature::Frozen,
{
}

/// Any other block that is accessed never ends up cold or frozen when it was.
pub proof fn law_access_warms(current: Temperature, stats: BlockAccessStats, now: u64, count: u16, immortal: bool)
    requires
        count > 0 || immortal,
        current == Temperature::Cold || current == Temperature::Frozen,
    ensures
        next_tier(current, stats, now, count, immortal, true) == Temperature::Warm,
{
}

/// The longer a block is idle, the colder it is.
pub proof fn law_idle_blocks_cool(now: u64, later: u64, last: u64, count: u16, immortal: bool)
    requires
        now <= later,
    ensures
        warmth(tier(later, last, count, immortal)) <= warmth(tier(now, last, count, immortal)),
{
}

/// Compaction loses no record and adds none.
pub proof fn law_compaction_keeps_records(segments: Seq<CompactionSegment>, x: CompactionRecord)
    ensures
        arranged(joined(segments, segments.len()), clustered()).contains(x) <==> joined(
            segments,
            segments.len(),
        ).contains(x),
        arranged(joined(segments, segments.len()), clustered()).len() == joined(segments, segments.len()).len(),
{
    lemma_clustered_is_order();
    let all = joined(segments, segments.len());
    crate::support::sort::lemma_arrangement_exists(all, clustered());
    crate::support::sort::lemma_sorted_same_members(all, arranged(all, clustered()), clustered());
}

proof fn lemma_members_front(strands: Seq<StrandView>, key: Seq<char>, n: nat)
    requires
        n < strands.len(),
    ensures
        members_of(strands, key, n) == members_of(strands.drop_last(), key, n),
    decreases n,
{
    if n > 0 {
        lemma_members_front(strands, key, (n - 1) as nat);
        assert(strands.drop_last()[n - 1] == strands[n - 1]);
    }
}

proof fn lemma_members_without(strands: Seq<StrandView>, key: Seq<char>, j: int)
    requires
        0 <= j < strands.len(),
    ensures
        ({
            let all = members_of(strands, key, strands.len()).to_multiset();
            let rest = members_of(strands.remove(j), key, (strands.len() - 1) as nat).to_multiset();
            all == (if key_of(strands[j]) == key {
                rest.insert(strands[j].signature)
            } else {
                rest
            })
        }),
    decreases strands.len(),
{
    broadcast use vstd::seq_lib::group_to_multiset_ensures;
    broadcast use vstd::multiset::group_multiset_axioms;

    let n = (strands.len() - 1) as nat;
    let front = strands.drop_last();
    lemma_members_front(strands, key, n);
    if j == n {
        assert(strands.remove(j) =~= front);
        vstd::seq_lib::to_multiset_build(members_of(front, key, n), strands[j].signature);
    } else {
        let rest = strands.remove(j);
        lemma_members_without(front, key, j);
        assert(rest.drop_last() =~= front.remove(j));
        lemma_members_front(rest, key, (n - 1) as nat);
        assert(rest[n - 1] == strands[n as int]);
        assert(front[j] == strands[j]);
        let last = strands[n as int].signature;
        let a = members_of(front, key, n);
        let b = members_of(front.remove(j), key, (n - 1) as nat);
        vstd::seq_lib::to_multiset_build(a, last);
        vstd::seq_lib::to_multiset_build(b, last);
        assert(b.to_multiset().insert(strands[j].signature).insert(last) =~= b.to_multiset().insert(last).insert(
            strands[j].signature,
        ));
    }
}

/// Rearranged strands have the same members under a key.
proof fn lemma_members_rearranged(x: Seq<StrandView>, y: Seq<StrandView>, key: Seq<char>)
    requires
        x.to_multiset() == y.to_multiset(),
    ensures
        members_of(x, key, x.len()).to_multiset() == members_of(y, key, y.len()).to_multiset(),
    decreases x.len(),
{
    broadcast use vstd::seq_lib::group_to_multiset_ensures;
    broadcast use vstd::multiset::group_multiset_axioms;

    assert(x.to_multiset().len() == x.len() && y.to_multiset().len() == y.len());
    assert(x.len() == y.len());
    if x.len() > 0 {
        let v = x.last();
        let k = x.len() - 1;
        assert(x.contains(v));
        assert(y.to_multiset().count(v) > 0);
        assert(y.contains(v));
        let j = y.index_of(v);
        vstd::seq_lib::to_multiset_remove(x, k);
        vstd::seq_lib::to_multiset_remove(y, j);
        lemma_members_rearranged(x.remove(k), y.remove(j), key);
        lemma_members_without(x, key, k);
        lemma_members_without(y, key, j);
    }
}

/// Signatures have one ascending order, however they stood before.
proof fn lemma_arranged_rearranged(x: Seq<[u8; 8]>, y: Seq<[u8; 8]>)
    requires
        x.to_multiset() == y.to_multiset(),
    ensures
        arranged(x, by_bytes()) == arranged(y, by_bytes()),
{
    lemma_lex_is_order();
    let lt = by_bytes();
    assert(strict_weak_order(lt));
    lemma_arrangement_exists(x, lt);
    lemma_arrangement_exists(y, lt);
    let a = arranged(x, lt);
    let b = arranged(y, lt);
    lemma_sorted_same_multiset(x, a, lt);
    lemma_sorted_same_multiset(y, b, lt);
    let leq = |p: [u8; 8], q: [u8; 8]| !lex_less(q@, p@);
    assert(vstd::relations::total_ordering(leq)) by {
        assert forall|p: [u8; 8], q: [u8; 8]| #[trigger] leq(p, q) && #[trigger] leq(q, p) implies p == q by {
            lemma_lex_total(p@, q@);
            assert(p =~= q);
        }
        assert forall|p: [u8; 8], q: [u8; 8]| #[trigger] leq(p, q) || leq(q, p) by {
            lemma_lex_total(p@, q@);
        }
    }
    assert(vstd::relations::sorted_by(a, leq));
    assert(vstd::relations::sorted_by(b, leq));
    vstd::seq_lib::lemma_sorted_unique(a, b, leq);
}

/// Texts in strictly ascending order are told by their members.
proof fn lemma_ascending_texts(a: Seq<Seq<char>>, b: Seq<Seq<char>>)
    requires
        forall|i: int, j: int| 0 <= i < j < a.len() ==> text_less(#[trigger] a[i], #[trigger] a[j]),
        forall|i: int, j: int| 0 <= i < j < b.len() ==> text_less(#[trigger] b[i], #[trigger] b[j]),
        forall|k: Seq<char>| #[trigger] a.contains(k) <==> b.contains(k),
    ensures
        a == b,
    decreases a.len(),
{
    if a.len() == 0 {
        if b.len() > 0 {
            assert(b.contains(b[0]));
            assert(a.contains(b[0]));
        }
        assert(a =~= b);
    } else {
        assert(a.contains(a[0]));
        let x = a.last();
        assert(a.contains(x));
        assert(b.contains(x));
        let y = b.last();
        assert(b.contains(y));
        assert(a.contains(y));
        let i = a.index_of(y);
        let j = b.index_of(x);
        assert(x == y) by {
            lemma_text_total(x, y);
            if i < a.len() - 1 {
                assert(text_less(a[i], a[a.len() - 1]));
                if j < b.len() - 1 {
                    assert(text_less(b[j], b[b.len() - 1]));
                }
            }
        }
        let c = a.drop_last();
        let d = b.drop_last();
        assert forall|k: Seq<char>| #[trigger] c.contains(k) <==> d.contains(k) by {
            if c.contains(k) {
                let m = c.index_of(k);
                assert(a[m] == k);
                assert(a.contains(k));
                assert(text_less(a[m], a[a.len() - 1]));
                lemma_text_total(k, x);
                let q = b.index_of(k);
                assert(d[q] == k);
            }
            if d.contains(k) {
                let m = d.index_of(k);
                assert(b[m] == k);
                assert(b.contains(k));
                assert(a.contains(k));
                assert(text_less(b[m], b[b.len() - 1]));
                lemma_text_total(k, x);
                let q = a.index_of(k);
                assert(c[q] == k);
            }
        }
        lemma_ascending_texts(c, d);
        assert(a =~= c.push(x));
        assert(b =~= d.push(y));
    }
}

/// The plans do not depend on the order in which the strands stand.
pub proof fn law_colocation_ignores_order(
    a: Seq<CoLocationPlan>,
    b: Seq<CoLocationPlan>,
    x: Seq<StrandView>,
    y: Seq<StrandView>,
)
    requires
        x.to_multiset() == y.to_multiset(),
        colocates(a, x),
        colocates(b, y),
    ensures
        a.len() == b.len(),
        forall|i: int|
            0 <= i < a.len() ==> (#[trigger] a[i]).semantic_key@ == b[i].semantic_key@ && a[i].members@ == b[i].members@
                && a[i].block_id == b[i].block_id,
{
    broadcast use vstd::seq_lib::group_to_multiset_ensures;

    let ka = Seq::new(a.len(), |i: int| a[i].semantic_key@);
    let kb = Seq::new(b.len(), |i: int| b[i].semantic_key@);
    assert forall|k: Seq<char>| #[trigger] ka.contains(k) <==> kb.contains(k) by {
        assert(ka.contains(k) <==> key_planned(a, k)) by {
            if ka.contains(k) {
                assert(a[ka.index_of(k)].semantic_key@ == k);
            }
            if key_planned(a, k) {
                let i = choose|i: int| 0 <= i < a.len() && (#[trigger] a[i]).semantic_key@ == k;
                assert(ka[i] == k);
            }
        }
        assert(kb.contains(k) <==> key_planned(b, k)) by {
            if kb.contains(k) {
                assert(b[kb.index_of(k)].semantic_key@ == k);
            }
            if key_planned(b, k) {
                let i = choose|i: int| 0 <= i < b.len() && (#[trigger] b[i]).semantic_key@ == k;
                assert(kb[i] == k);
            }
        }
        lemma_key_occurs_rearranged(x, y, k);
        lemma_key_occurs_rearranged(y, x, k);
    }
    assert forall|i: int, j: int| 0 <= i < j < ka.len() implies text_less(#[trigger] ka[i], #[trigger] ka[j]) by {
        assert(text_less(a[i].semantic_key@, a[j].semantic_key@));
    }
    assert forall|i: int, j: int| 0 <= i < j < kb.len() implies text_less(#[trigger] kb[i], #[trigger] kb[j]) by {
        assert(text_less(b[i].semantic_key@, b[j].semantic_key@));
    }
    lemma_ascending_texts(ka, kb);
    assert(ka.len() == a.len() && kb.len() == b.len());
    assert(a.len() == b.len());
    assert forall|i: int| 0 <= i < a.len() implies (#[trigger] a[i]).semantic_key@ == b[i].semantic_key@
        && a[i].members@ == b[i].members@ && a[i].block_id == b[i].block_id by {
        assert(ka[i] == kb[i]);
        let key = a[i].semantic_key@;
        assert(plans_group(a[i], x));
        assert(plans_group(b[i], y));
        lemma_members_rearranged(x, y, key);
        lemma_arranged_rearranged(members_of(x, key, x.len()), members_of(y, key, y.len()));
    }
}

proof fn lemma_key_occurs_rearranged(x: Seq<StrandView>, y: Seq<StrandView>, key: Seq<char>)
    requires
        x.to_multiset() == y.to_multiset(),
    ensures
        key_occurs(x, key) ==> key_occurs(y, key),
{
    broadcast use vstd::seq_lib::group_to_multiset_ensures;

    if key_occurs(x, key) {
        let i = choose|i: int| 0 <= i < x.len() && key_of(#[trigger] x[i]) == key;
        assert(x.contains(x[i]));
        assert(y.to_multiset().count(x[i]) > 0);
        assert(y.contains(x[i]));
        let j = y.index_of(x[i]);
        assert(key_of(y[j]) == key);
    }
}

} // verus!
