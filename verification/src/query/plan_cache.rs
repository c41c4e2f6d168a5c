//! Plans remembered by the shape of the query, least recently used first out.
use super::ast::SortDirection;
use super::guide::{Clause, ClauseView, GuidePattern, GuideView, RangeOp};
use super::planner::{choose_path, is_plan, CollectionStats, PathView, QueryPath};
use crate::support::bytes::{le_bytes, u64_le};
use crate::support::sort::{alphabetical, sort_texts};
use crate::support::str_set::StrSet;
use crate::support::text::{clone_strings, join2, owned, texts};
use std::collections::hash_map::DefaultHasher;
use std::hash::Hasher;
use vstd::prelude::*;
use vstd::std_specs::hash::DefaultHasherAdditionalSpecFns;
use vstd::utf8::encode_utf8;

verus! {

/// How many plans a planner remembers.
pub const QUERY_PLAN_CACHE_CAPACITY: usize = 1024;

/// Plans by key, the least recently used first.
#[derive(Debug)]
pub struct QueryPlanCache {
    capacity: usize,
    entries: Vec<(u64, QueryPath)>,
}

/// What a sequence of entries holds.
pub open spec fn plan_views(s: Seq<(u64, QueryPath)>) -> Seq<(u64, PathView)> {
    Seq::new(s.len(), |i: int| (s[i].0, s[i].1@))
}

/// Whether no key occurs twice.
pub open spec fn keys_distinct(s: Seq<(u64, PathView)>) -> bool {
    forall|i: int, j: int|
        0 <= i < s.len() && 0 <= j < s.len() && (#[trigger] s[i]).0 == (#[trigger] s[j]).0 ==> i == j
}

/// Whether a key is present.
pub open spec fn cached(s: Seq<(u64, PathView)>, key: u64) -> bool {
    exists|i: int| 0 <= i < s.len() && (#[trigger] s[i]).0 == key
}

/// Where a key stands.
pub open spec fn place(s: Seq<(u64, PathView)>, key: u64) -> int {
    choose|i: int| 0 <= i < s.len() && (#[trigger] s[i]).0 == key
}

/// The entries after a lookup: the one found becomes the most recent.
pub open spec fn after_get(s: Seq<(u64, PathView)>, key: u64) -> Seq<(u64, PathView)> {
    if cached(s, key) {
        s.remove(place(s, key)).push(s[place(s, key)])
    } else {
        s
    }
}

/// The entries after a plan was stored as the most recent one: a present key is replaced, and
/// without room the least recent entry leaves.
pub open spec fn after_insert(s: Seq<(u64, PathView)>, capacity: nat, key: u64, plan: PathView) -> Seq<
    (u64, PathView),
> {
    if cached(s, key) {
        s.remove(place(s, key)).push((key, plan))
    } else if s.len() >= capacity {
        s.remove(0).push((key, plan))
    } else {
        s.push((key, plan))
    }
}

impl QueryPlanCache {
    #[verifier::type_invariant]
    spec fn wf(self) -> bool {
        &&& self.capacity >= 1
        &&& self.entries@.len() <= self.capacity
        &&& keys_distinct(plan_views(self.entries@))
    }

    /// The entries, the least recently used first.
    pub closed spec fn plans(self) -> Seq<(u64, PathView)> {
        plan_views(self.entries@)
    }

    /// How many entries there can be.
    pub closed spec fn room(self) -> nat {
        self.capacity as nat
    }

    /// An empty cache for `capacity` plans, at least one.
    pub fn new(capacity: usize) -> (r: Self)
        ensures
            r.plans() == Seq::<(u64, PathView)>::empty(),
            r.room() == (if capacity < 1 {
                1
            } else {
                capacity as nat
            }),
    {
        let r = QueryPlanCache {
            capacity: if capacity < 1 {
                1
            } else {
                capacity
            },
            entries: Vec::new(),
        };
        proof {
            assert(r.plans() =~= Seq::<(u64, PathView)>::empty());
        }
        r
    }

    /// How many plans are remembered.
    pub fn len(&self) -> (r: usize)
        ensures
            r == self.plans().len(),
            r <= self.room(),
            keys_distinct(self.plans()),
    {
        proof {
            use_type_invariant(self);
        }
        self.entries.len()
    }

    fn find(&self, key: u64) -> (r: Option<usize>)
        ensures
            match r {
                Some(i) => i < self.entries@.len() && cached(self.plans(), key) && i == place(self.plans(), key),
                None => !cached(self.plans(), key),
            },
    {
        proof {
            use_type_invariant(self);
        }
        let mut i: usize = 0;
        while i < self.entries.len()
            invariant
                0 <= i <= self.entries@.len(),
                keys_distinct(self.plans()),
                self.plans() == plan_views(self.entries@),
                forall|j: int| 0 <= j < i ==> (#[trigger] self.plans()[j]).0 != key,
            decreases self.entries@.len() - i,
        {
            if self.entries[i].0 == key {
                proof {
                    assert(self.plans()[i as int].0 == key);
                }
                return Some(i);
            }
            i += 1;
        }
        None
    }

    /// The plan under `key`, which becomes the most recently used.
    pub fn get(&mut self, key: u64) -> (r: Option<QueryPath>)
        ensures
            final(self).plans() == after_get(old(self).plans(), key),
            final(self).room() == old(self).room(),
            match r {
                Some(p) => cached(old(self).plans(), key) && p@ == old(self).plans()[place(
                    old(self).plans(),
                    key,
                )].1,
                None => !cached(old(self).plans(), key),
            },
    {
        proof {
            use_type_invariant(&*self);
        }
        match self.find(key) {
            Some(i) => {
                let ghost before = self.plans();
                let mut entries: Vec<(u64, QueryPath)> = Vec::new();
                std::mem::swap(&mut entries, &mut self.entries);
                let entry = entries.remove(i);
                let plan = entry.1.clone();
                entries.push(entry);
                proof {
                    assert(plan_views(entries@) =~= after_get(before, key));
                    lemma_moved_keys_distinct(before, key, before[i as int].1);
                }
                self.entries = entries;
                Some(plan)
            },
            None => None,
        }
    }

    /// Stores a plan as the most recently used one.
    pub fn insert(&mut self, key: u64, plan: QueryPath)
        ensures
            final(self).plans() == after_insert(old(self).plans(), old(self).room(), key, plan@),
            final(self).room() == old(self).room(),
    {
        proof {
            use_type_invariant(&*self);
        }
        let ghost before = self.plans();
        let at = self.find(key);
        let mut entries: Vec<(u64, QueryPath)> = Vec::new();
        std::mem::swap(&mut entries, &mut self.entries);
        match at {
            Some(i) => {
                let _ = entries.remove(i);
                proof {
                    lemma_moved_keys_distinct(before, key, plan@);
                }
            },
            None => {
                if entries.len() >= self.capacity {
                    let _ = entries.remove(0);
                }
            },
        }
        entries.push((key, plan));
        proof {
            assert(plan_views(entries@) =~= after_insert(before, self.room(), key, plan@));
            if !cached(before, key) {
                assert forall|i: int| 0 <= i < before.len() implies (#[trigger] before[i]).0 != key by {}
            }
        }
        self.entries = entries;
    }

    /// Forgets all plans.
    pub fn clear(&mut self)
        ensures
            final(self).plans() == Seq::<(u64, PathView)>::empty(),
            final(self).room() == old(self).room(),
    {
        proof {
            use_type_invariant(&*self);
        }
        self.entries = Vec::new();
        proof {
            assert(self.plans() =~= Seq::<(u64, PathView)>::empty());
        }
    }
}

proof fn lemma_moved_keys_distinct(s: Seq<(u64, PathView)>, key: u64, plan: PathView)
    requires
        keys_distinct(s),
        cached(s, key),
    ensures
        keys_distinct(s.remove(place(s, key)).push((key, plan))),
{
    let k = place(s, key);
    let r = s.remove(k).push((key, plan));
    assert forall|i: int, j: int|
        0 <= i < r.len() && 0 <= j < r.len() && (#[trigger] r[i]).0 == (#[trigger] r[j]).0 implies i == j by {
        let a = if i == r.len() - 1 {
            k
        } else if i < k {
            i
        } else {
            i + 1
        };
        let b = if j == r.len() - 1 {
            k
        } else if j < k {
            j
        } else {
            j + 1
        };
        assert(s[a].0 == r[i].0);
        assert(s[b].0 == r[j].0);
    }
}

/// What was stored last under a key is found there.
pub proof fn law_stored_plan_is_found(s: Seq<(u64, PathView)>, capacity: nat, key: u64, plan: PathView)
    requires
        keys_distinct(s),
        s.len() <= capacity,
        capacity >= 1,
    ensures
        cached(after_insert(s, capacity, key, plan), key),
        after_insert(s, capacity, key, plan)[place(after_insert(s, capacity, key, plan), key)].1 == plan,
        after_insert(s, capacity, key, plan).len() <= capacity,
        keys_distinct(after_insert(s, capacity, key, plan)),
{
    let r = after_insert(s, capacity, key, plan);
    if cached(s, key) {
        lemma_moved_keys_distinct(s, key, plan);
    } else {
        assert forall|i: int| 0 <= i < s.len() implies (#[trigger] s[i]).0 != key by {}
    }
    assert(r[r.len() - 1] == (key, plan));
}

/// Looking a plan up keeps it from being the next to leave, as long as there is another.
pub proof fn law_used_plan_stays(s: Seq<(u64, PathView)>, capacity: nat, key: u64, other: u64, plan: PathView)
    requires
        keys_distinct(s),
        2 <= s.len() <= capacity,
        cached(s, key),
        !cached(s, other),
    ensures
        cached(after_insert(after_get(s, key), capacity, other, plan), key),
{
    let t = after_get(s, key);
    let r = after_insert(t, capacity, other, plan);
    let k = place(s, key);
    assert(t[t.len() - 1] == s[k]);
    if cached(t, other) {
        let i = choose|i: int| 0 <= i < t.len() && (#[trigger] t[i]).0 == other;
        let j = if i == t.len() - 1 {
            k
        } else if i < k {
            i
        } else {
            i + 1
        };
        assert(s[j].0 == other);
    }
    assert(r[r.len() - 2] == s[k]);
}

/// The name of a comparison.
pub open spec fn op_name(op: RangeOp) -> Seq<char> {
    match op {
        RangeOp::GreaterThan => "GreaterThan"@,
        RangeOp::GreaterOrEqual => "GreaterOrEqual"@,
        RangeOp::LessThan => "LessThan"@,
        RangeOp::LessOrEqual => "LessOrEqual"@,
        RangeOp::NotEqual => "NotEqual"@,
    }
}

/// The shape of a clause: its kind, field and comparison, without the operand.
pub open spec fn clause_shape(c: ClauseView) -> Seq<char> {
    match c {
        ClauseView::Exact { field, .. } => "exact:"@ + field,
        ClauseView::Range { field, op, .. } => "range:"@ + field + ":"@ + op_name(op),
        ClauseView::Like { field, .. } => "like:"@ + field,
    }
}

/// The shapes of all clauses, in the order of the clauses.
pub open spec fn clause_shapes(s: Seq<ClauseView>) -> Seq<Seq<char>> {
    Seq::new(s.len(), |i: int| clause_shape(s[i]))
}

/// The shape of an ordering; empty without one.
pub open spec fn order_shape(o: Option<(Seq<char>, SortDirection)>) -> Seq<char> {
    match o {
        Some((f, SortDirection::Asc)) => f + ":Asc"@,
        Some((f, SortDirection::Desc)) => f + ":Desc"@,
        None => ""@,
    }
}

/// Tenths of a share, rounded to the nearest.
pub open spec fn tenths(top: nat, bottom: nat) -> nat {
    (20 * top + bottom) / (2 * bottom)
}

/// The position of the highest bit of `n`; 0 for 0.
pub open spec fn bucket(n: nat) -> nat
    decreases n,
{
    if n <= 1 {
        0
    } else {
        1 + bucket(n / 2)
    }
}

/// What a list of texts adds to the key: its length, then every text.
pub open spec fn list_writes(l: Seq<Seq<char>>) -> Seq<Seq<u8>> {
    seq![le_bytes(l.len(), 8)] + Seq::new(l.len(), |i: int| encode_utf8(l[i]))
}

/// The members of a set in alphabetical order.
pub open spec fn sorted_members(s: StrSet) -> Seq<Seq<char>> {
    alphabetical(s.members())
}

/// What is hashed for a query over a collection: everything that shapes the plan, with sizes
/// and rates in coarse steps, and no operands.
pub open spec fn shape_writes(g: GuideView, stats: CollectionStats) -> Seq<Seq<u8>> {
    seq![encode_utf8(g.collection)] + list_writes(alphabetical(clause_shapes(g.clauses))) + list_writes(
        alphabetical(g.includes),
    ) + seq![encode_utf8(order_shape(g.order_by))] + (match g.limit {
        Some(n) => seq![le_bytes(1, 8), le_bytes(n as nat, 8)],
        None => seq![le_bytes(0, 8)],
    }) + list_writes(sorted_members(stats.indexed_fields)) + list_writes(
        sorted_members(stats.direct_lookup_fields),
    ) + seq![
        le_bytes(
            tenths(stats.estimated_bloom_skip_rate.clamped_top(), stats.estimated_bloom_skip_rate.bottom()),
            8,
        ),
        le_bytes(bucket(stats.record_count as nat), 8),
    ]
}

/// The key of a query over a collection.
pub open spec fn plan_key(g: GuideView, stats: CollectionStats) -> u64 {
    DefaultHasher::spec_finish(shape_writes(g, stats))
}

fn clause_label(c: &Clause) -> (r: String)
    ensures
        r@ == clause_shape(c@),
{
    match c {
        Clause::ExactMatch { field_intron, .. } => join2("exact:", field_intron.as_str()),
        Clause::RangeMatch { field_intron, operator, .. } => {
            let mut s = join2("range:", field_intron.as_str());
            s.append(":");
            s.append(
                match operator {
                    RangeOp::GreaterThan => "GreaterThan",
                    RangeOp::GreaterOrEqual => "GreaterOrEqual",
                    RangeOp::LessThan => "LessThan",
                    RangeOp::LessOrEqual => "LessOrEqual",
                    RangeOp::NotEqual => "NotEqual",
                },
            );
            s
        },
        Clause::LikePattern { field_intron, .. } => join2("like:", field_intron.as_str()),
    }
}

fn clause_labels(clauses: &Vec<Clause>) -> (r: Vec<String>)
    ensures
        texts(r@) == clause_shapes(super::guide::clause_views(clauses@)),
{
    let mut out: Vec<String> = Vec::new();
    let mut i: usize = 0;
    while i < clauses.len()
        invariant
            0 <= i <= clauses@.len(),
            out@.len() == i,
            forall|j: int| 0 <= j < i ==> (#[trigger] out@[j])@ == clause_shape(clauses@[j]@),
        decreases clauses@.len() - i,
    {
        out.push(clause_label(&clauses[i]));
        i += 1;
    }
    proof {
        assert(texts(out@) =~= clause_shapes(super::guide::clause_views(clauses@)));
    }
    out
}

fn members_of(s: &StrSet) -> (r: Vec<String>)
    ensures
        texts(r@) == s.members(),
{
    let n = s.len();
    let mut out: Vec<String> = Vec::new();
    let mut i: usize = 0;
    while i < n
        invariant
            0 <= i <= n,
            n == s.members().len(),
            out@.len() == i,
            forall|j: int| 0 <= j < i ==> (#[trigger] out@[j])@ == s.members()[j],
        decreases n - i,
    {
        out.push(s.item(i).clone());
        i += 1;
    }
    proof {
        assert(texts(out@) =~= s.members());
    }
    out
}

fn write_number(h: &mut DefaultHasher, n: u64)
    ensures
        final(h)@ == old(h)@.push(le_bytes(n as nat, 8)),
{
    let b = u64_le(n);
    h.write(b.as_slice());
}

fn write_list(h: &mut DefaultHasher, l: &Vec<String>)
    ensures
        final(h)@ == old(h)@ + list_writes(texts(l@)),
{
    let ghost base = h@;
    write_number(h, l.len() as u64);
    let mut i: usize = 0;
    while i < l.len()
        invariant
            0 <= i <= l@.len(),
            h@ == base + list_writes(texts(l@)).take(1 + i),
        decreases l@.len() - i,
    {
        h.write(l[i].as_str().as_bytes());
        proof {
            let w = list_writes(texts(l@));
            assert(w.take(2 + i) =~= w.take(1 + i).push(w[1 + i]));
            assert(base + w.take(2 + i) =~= (base + w.take(1 + i)).push(w[1 + i]));
        }
        i += 1;
    }
    proof {
        let w = list_writes(texts(l@));
        assert(w.take(1 + i) =~= w);
    }
}

/// The coarse size of a collection: the position of the highest bit of the record count.
pub fn record_count_bucket(record_count: usize) -> (r: usize)
    ensures
        r == bucket(record_count as nat),
{
    let mut n: usize = record_count;
    let mut out: usize = 0;
    while n > 1
        invariant
            out + bucket(n as nat) == bucket(record_count as nat),
            out + n <= record_count,
        decreases n,
    {
        n = n / 2;
        out += 1;
    }
    out
}

fn rate_bucket(stats: &CollectionStats) -> (r: u64)
    ensures
        r == tenths(
            stats.estimated_bloom_skip_rate.clamped_top(),
            stats.estimated_bloom_skip_rate.bottom(),
        ),
{
    let (c, d) = stats.estimated_bloom_skip_rate.clamped_parts();
    let up: u128 = 20 * c as u128 + d as u128;
    let down: u128 = 2 * d as u128;
    proof {
        assert(up / down <= 10) by (nonlinear_arith)
            requires
                up <= 21 * d,
                down == 2 * d,
                d > 0,
        ;
    }
    (up / down) as u64
}

/// The key under which the plan for a query is remembered.
pub fn planner_cache_key(pattern: &GuidePattern, stats: &CollectionStats) -> (r: u64)
    ensures
        r == plan_key(pattern@, *stats),
{
    let clauses = sort_texts(clause_labels(&pattern.clauses));
    let includes = sort_texts(clone_strings(&pattern.includes));
    let indexed = sort_texts(members_of(&stats.indexed_fields));
    let direct = sort_texts(members_of(&stats.direct_lookup_fields));
    let order = match &pattern.order_by {
        Some((f, SortDirection::Asc)) => join2(f.as_str(), ":Asc"),
        Some((f, SortDirection::Desc)) => join2(f.as_str(), ":Desc"),
        None => owned(""),
    };
    let mut h = DefaultHasher::new();
    h.write(pattern.collection.as_str().as_bytes());
    write_list(&mut h, &clauses);
    write_list(&mut h, &includes);
    h.write(order.as_str().as_bytes());
    match pattern.limit {
        Some(n) => {
            write_number(&mut h, 1);
            write_number(&mut h, n as u64);
        },
        None => {
            write_number(&mut h, 0);
        },
    }
    write_list(&mut h, &indexed);
    write_list(&mut h, &direct);
    write_number(&mut h, rate_bucket(stats));
    write_number(&mut h, record_count_bucket(stats.record_count) as u64);
    proof {
        assert(h@ =~= shape_writes(pattern@, *stats));
    }
    h.finish()
}

/// A planner with its memory, and how often that had a plan (hits) or not (misses).
#[derive(Debug)]
pub struct QueryPlanner {
    pub cache: QueryPlanCache,
    pub hits: u64,
    pub misses: u64,
}

impl QueryPlanner {
    /// A planner that remembers nothing yet.
    pub fn new() -> (r: Self)
        ensures
            r.cache.plans() == Seq::<(u64, PathView)>::empty(),
            r.cache.room() == QUERY_PLAN_CACHE_CAPACITY,
            r.hits == 0,
            r.misses == 0,
    {
        QueryPlanner { cache: QueryPlanCache::new(QUERY_PLAN_CACHE_CAPACITY), hits: 0, misses: 0 }
    }

    /// Hits and misses so far.
    pub fn planner_cache_stats(&self) -> (r: (u64, u64))
        ensures
            r == (self.hits, self.misses),
    {
        (self.hits, self.misses)
    }

    /// The remembered plan for queries of this shape, or else a new one, which is then
    /// remembered. The counters wrap around.
    pub fn choose_path_cached(&mut self, pattern: &GuidePattern, stats: &CollectionStats) -> (r: QueryPath)
        ensures
            planned(*old(self), pattern@, *stats, r@, *final(self)),
    {
        let key: u64 = planner_cache_key(pattern, stats);
        match self.cache.get(key) {
            Some(plan) => {
                self.hits = self.hits.wrapping_add(1);
                plan
            },
            None => {
                self.misses = self.misses.wrapping_add(1);
                let plan = choose_path(pattern, stats);
                self.cache.insert(key, plan.clone());
                plan
            },
        }
    }
}

/// How a planner answers: with the remembered plan and one more hit, or with a new plan, which
/// it stores, and one more miss.
pub open spec fn planned(
    before: QueryPlanner,
    g: GuideView,
    stats: CollectionStats,
    path: PathView,
    after: QueryPlanner,
) -> bool {
    let key = plan_key(g, stats);
    let s = before.cache.plans();
    &&& after.cache.room() == before.cache.room()
    &&& if cached(s, key) {
        &&& path == s[place(s, key)].1
        &&& after.cache.plans() == after_get(s, key)
        &&& after.hits == (before.hits + 1) % 0x1_0000_0000_0000_0000
        &&& after.misses == before.misses
    } else {
        &&& is_plan(g, stats, path)
        &&& after.cache.plans() == after_insert(s, before.cache.room(), key, path)
        &&& after.hits == before.hits
        &&& after.misses == (before.misses + 1) % 0x1_0000_0000_0000_0000
    }
}

/// Queries that differ only in their operands have one key.
pub proof fn law_operands_do_not_shape_the_key(a: GuideView, b: GuideView, stats: CollectionStats)
    requires
        a.collection == b.collection,
        a.includes == b.includes,
        a.order_by == b.order_by,
        a.limit == b.limit,
        a.clauses.len() == b.clauses.len(),
        forall|i: int| 0 <= i < a.clauses.len() ==> clause_shape(#[trigger] a.clauses[i]) == clause_shape(b.clauses[i]),
    ensures
        plan_key(a, stats) == plan_key(b, stats),
{
    assert(clause_shapes(a.clauses) =~= clause_shapes(b.clauses));
}

} // verus!
