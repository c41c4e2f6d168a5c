//! Fetching: plan, find candidate rows, check them in full, order and limit them.
use super::ast::SortDirection;
use super::guide::{Clause, ClauseView, GuidePattern, GuideView};
use super::index::{
    build_exact_hash_index, exact_lookup_signatures, index_entries, number_in_range,
    number_less, numbers_of, picked, postings, GlobalRangeIndex,
};
use super::literal::{as_numeric_u64, numeric_value};
use super::matching::{matching, row_views, verify_clauses};
use super::plan_cache::{planned, QueryPlanner};
use super::planner::{
    between, parse_indexed_between_bounds, CollectionStats, Fraction, PathView, QueryPath,
};
use super::scan::{scan_strands, scanned, ScanConfig};
use super::segment::{should_skip_segment, skips, SegmentMeta};
use super::signatures::{
    find, found, hits_to_strands, path_target, resolve_include_path, strand_by_signature,
    SignatureIndex,
};
use super::workload_stats::{record_fetch, record_fetch_stream, WorkloadSnapshot};
use crate::model::{strand_views, Strand, StrandView};
use crate::support::bytes::{from_le, sig_eq, sig_from, u64_of};
use crate::support::posting_map::{listed, PostingMap};
use crate::support::sort::{
    arranged, lemma_arranged, stable_order, stable_sort, stably_sorted, strict_weak_order,
};
use crate::support::text::{string_is, str_eq};
use vstd::prelude::*;

verus! {

/// The rows of a query, ordered and limited.
#[derive(Debug)]
pub struct FetchResult<'a> {
    pub rows: Vec<&'a Strand>,
}

/// A row with the strands at the end of every include path.
#[derive(Debug)]
pub struct FetchRow<'a> {
    pub root: &'a Strand,
    /// Path and related strands, in the order of the query.
    pub included: Vec<(String, Vec<&'a Strand>)>,
}

/// The rows of a query with their related strands.
#[derive(Debug)]
pub struct FetchWithIncludes<'a> {
    pub rows: Vec<FetchRow<'a>>,
}

/// What queries share: the planner with its memory, and the counters.
#[derive(Debug)]
pub struct QuerySession {
    pub planner: QueryPlanner,
    pub workload: WorkloadSnapshot,
}

impl QuerySession {
    /// A session before its first query.
    pub fn new() -> (r: Self)
        ensures
            r.planner.cache.plans().len() == 0,
            r.planner.hits == 0,
            r.planner.misses == 0,
            r.workload == (WorkloadSnapshot { fetch_calls: 0, fetch_stream_calls: 0 }),
    {
        QuerySession {
            planner: QueryPlanner::new(),
            workload: WorkloadSnapshot { fetch_calls: 0, fetch_stream_calls: 0 },
        }
    }
}

/// The number by which a strand is ordered: the named header field, or the signature.
pub open spec fn order_key(v: StrandView, field: Seq<char>) -> u64 {
    if field == "version"@ {
        v.version
    } else if field == "created_at"@ {
        v.created_at
    } else if field == "updated_at"@ {
        v.updated_at
    } else {
        from_le(v.signature@) as u64
    }
}

fn sort_key(s: &Strand, field: &str) -> (r: u64)
    ensures
        r == order_key(s@, field@),
{
    if str_eq(field, "version") {
        s.version
    } else if str_eq(field, "created_at") {
        s.created_at
    } else if str_eq(field, "updated_at") {
        s.updated_at
    } else {
        u64_of(&s.signature)
    }
}

/// The order that a query asks for.
pub open spec fn row_order(field: Seq<char>, dir: SortDirection) -> spec_fn(StrandView, StrandView) -> bool {
    |a: StrandView, b: StrandView|
        match dir {
            SortDirection::Asc => order_key(a, field) < order_key(b, field),
            SortDirection::Desc => order_key(b, field) < order_key(a, field),
        }
}

/// The rows in the order that a query asks for; equals stay in place.
pub open spec fn ordered(rows: Seq<StrandView>, g: GuideView) -> Seq<StrandView> {
    match g.order_by {
        Some((field, dir)) => arranged(rows, row_order(field, dir)),
        None => rows,
    }
}

/// The rows within the limit.
pub open spec fn limited(rows: Seq<StrandView>, limit: Option<u32>) -> Seq<StrandView> {
    match limit {
        Some(n) => if rows.len() > n {
            rows.take(n as int)
        } else {
            rows
        },
        None => rows,
    }
}

fn key_less<'a>(a: &(u64, &'a Strand), b: &(u64, &'a Strand)) -> (r: bool)
    ensures
        r == (a.0 < b.0),
{
    a.0 < b.0
}

fn key_greater<'a>(a: &(u64, &'a Strand), b: &(u64, &'a Strand)) -> (r: bool)
    ensures
        r == (b.0 < a.0),
{
    b.0 < a.0
}

fn apply_order_by<'a>(rows: Vec<&'a Strand>, pattern: &GuidePattern) -> (r: Vec<&'a Strand>)
    ensures
        row_views(r@) == ordered(row_views(rows@), pattern@),
{
    let (field, dir) = match &pattern.order_by {
        Some((f, d)) => (f, *d),
        None => {
            return rows;
        },
    };
    let mut keyed: Vec<(u64, &'a Strand)> = Vec::new();
    let mut i: usize = 0;
    while i < rows.len()
        invariant
            0 <= i <= rows@.len(),
            keyed@.len() == i,
            forall|j: int| 0 <= j < i ==> (#[trigger] keyed@[j]).1 == rows@[j] && keyed@[j].0 == order_key(
                rows@[j]@,
                field@,
            ),
        decreases rows@.len() - i,
    {
        keyed.push((sort_key(rows[i], field.as_str()), rows[i]));
        i += 1;
    }
    let ghost before = keyed@;
    let ghost up = |a: (u64, &'a Strand), b: (u64, &'a Strand)| a.0 < b.0;
    let ghost down = |a: (u64, &'a Strand), b: (u64, &'a Strand)| b.0 < a.0;
    let sorted = match dir {
        SortDirection::Asc => stable_sort(keyed, key_less, Ghost(up)),
        SortDirection::Desc => stable_sort(keyed, key_greater, Ghost(down)),
    };
    let mut out: Vec<&'a Strand> = Vec::new();
    let mut k: usize = 0;
    while k < sorted.len()
        invariant
            0 <= k <= sorted@.len(),
            out@.len() == k,
            forall|j: int| 0 <= j < k ==> #[trigger] out@[j] == sorted@[j].1,
        decreases sorted@.len() - k,
    {
        out.push(sorted[k].1);
        k += 1;
    }
    proof {
        let lt = row_order(field@, dir);
        let s = row_views(rows@);
        let r = row_views(out@);
        let keyed_lt = if dir == SortDirection::Asc { up } else { down };
        assert(stably_sorted(before, sorted@, keyed_lt));
        let p = choose|p: Seq<int>| stable_order(before, sorted@, p, keyed_lt);
        assert forall|i: int| 0 <= i < r.len() implies #[trigger] r[i] == s[p[i]] by {
            assert(sorted@[i] == before[p[i]]);
        }
        assert forall|i: int, j: int|
            #![trigger r[i], r[j]]
            0 <= i < j < r.len() implies !lt(r[j], r[i]) && (lt(r[i], r[j]) || p[i] < p[j]) by {
            assert(sorted@[i] == before[p[i]] && sorted@[j] == before[p[j]]);
            assert(!keyed_lt(sorted@[j], sorted@[i]) && (keyed_lt(sorted@[i], sorted@[j]) || p[i] < p[j]));
        }
        assert(stable_order(s, r, p, lt));
        assert(strict_weak_order(lt));
        lemma_arranged(s, r, lt);
    }
    out
}

fn apply_limit<'a>(rows: &mut Vec<&'a Strand>, pattern: &GuidePattern)
    ensures
        row_views(final(rows)@) == limited(row_views(old(rows)@), pattern@.limit),
{
    if let Some(lim) = pattern.limit {
        let ghost before = rows@;
        if rows.len() > lim as usize {
            rows.truncate(lim as usize);
            proof {
                assert(row_views(rows@) =~= row_views(before).take(lim as int));
            }
        }
    }
}

/// The signature that the first clause asks for, when it is an exact clause on the signature
/// with eight bytes.
pub open spec fn signature_operand(g: GuideView) -> Option<Seq<u8>> {
    if g.clauses.len() > 0 {
        match g.clauses[0] {
            ClauseView::Exact { field, wire, .. } => if field == "_signature"@ && wire.len() == 8 {
                Some(wire)
            } else {
                None
            },
            _ => None,
        }
    } else {
        None
    }
}

/// The signature made of eight bytes.
pub open spec fn signature_of(wire: Seq<u8>) -> [u8; 8] {
    choose|s: [u8; 8]| s@ == wire
}

fn parse_signature_operand(pattern: &GuidePattern) -> (r: Option<[u8; 8]>)
    ensures
        match r {
            Some(s) => signature_operand(pattern@) == Some(s@) && s == signature_of(s@),
            None => signature_operand(pattern@) is None,
        },
{
    if pattern.clauses.len() == 0 {
        return None;
    }
    match &pattern.clauses[0] {
        Clause::ExactMatch { field_intron, operand_wire, .. } => {
            proof {
                assert(pattern@.clauses[0] == pattern.clauses@[0]@);
            }
            if string_is(field_intron, "_signature") && operand_wire.len() == 8 {
                let s = sig_from(operand_wire.as_slice());
                proof {
                    let c = signature_of(s@);
                    assert(c@ == s@);
                    assert forall|i: int| 0 <= i < 8 implies c[i] == s[i] by {
                        assert(c@[i] == s@[i]);
                    }
                    assert(c =~= s);
                }
                Some(s)
            } else {
                None
            }
        },
        _ => {
            proof {
                assert(pattern@.clauses[0] == pattern.clauses@[0]@);
            }
            None
        },
    }
}

/// The first strand from `from` up to `to` with the signature `sig`.
pub open spec fn first_with(strands: Seq<StrandView>, sig: [u8; 8], from: int, to: int) -> Option<int>
    decreases to - from,
{
    if from >= to {
        None
    } else if strands[from].signature == sig {
        Some(from)
    } else {
        first_with(strands, sig, from + 1, to)
    }
}

/// Dead reckoning: signatures that count up tell about where a strand stands, so that 64
/// strands to either side are probed. Nothing is said when the signature is out of bounds or
/// not near.
pub open spec fn reckoned(g: GuideView, strands: Seq<StrandView>) -> Option<Seq<StrandView>> {
    match signature_operand(g) {
        None => None,
        Some(wire) => if strands.len() == 0 {
            Some(Seq::empty())
        } else {
            let target = from_le(wire) as int;
            let first = from_le(strands[0].signature@) as int;
            let last = from_le(strands.last().signature@) as int;
            if first > last || target < first || target > last {
                None
            } else {
                let near = if target - first >= strands.len() {
                    strands.len() - 1
                } else {
                    target - first
                };
                let from = if near < 64 {
                    0
                } else {
                    near - 64
                };
                let to = if near + 65 < strands.len() {
                    near + 65
                } else {
                    strands.len() as int
                };
                match first_with(strands, signature_of(wire), from, to) {
                    Some(i) => Some(seq![strands[i]]),
                    None => None,
                }
            }
        },
    }
}

/// Looks a signature up by dead reckoning.
pub fn dead_reckoning_signature_lookup<'a>(pattern: &GuidePattern, strands: &'a [Strand]) -> (r: Option<
    Vec<&'a Strand>,
>)
    ensures
        match r {
            Some(v) => reckoned(pattern@, strand_views(strands@)) == Some(row_views(v@)),
            None => reckoned(pattern@, strand_views(strands@)) is None,
        },
{
    let ghost views = strand_views(strands@);
    let target_sig = match parse_signature_operand(pattern) {
        Some(s) => s,
        None => {
            return None;
        },
    };
    let n: usize = strands.len();
    if n == 0 {
        let none: Vec<&'a Strand> = Vec::new();
        proof {
            assert(row_views(none@) =~= Seq::<StrandView>::empty());
        }
        return Some(none);
    }
    proof {
        assert(views[0] == strands@[0]@);
        assert(views.last() == strands@[n - 1]@);
    }
    let target: u64 = u64_of(&target_sig);
    let first: u64 = u64_of(&strands[0].signature);
    let last: u64 = u64_of(&strands[n - 1].signature);
    if first > last || target < first || target > last {
        return None;
    }
    let near: usize = if target - first >= n as u64 {
        n - 1
    } else {
        (target - first) as usize
    };
    let from: usize = if near < 64 {
        0
    } else {
        near - 64
    };
    let to: usize = if n - near > 65 {
        near + 65
    } else {
        n
    };
    let mut i: usize = from;
    while i < to
        invariant
            from <= i <= to <= strands@.len(),
            views == strand_views(strands@),
            first_with(views, target_sig, from as int, to as int) == first_with(
                views,
                target_sig,
                i as int,
                to as int,
            ),
            reckoned(pattern@, views) == (match first_with(views, target_sig, from as int, to as int) {
                Some(k) => Some(seq![views[k]]),
                None => None,
            }),
        decreases to - i,
    {
        if sig_eq(&strands[i].signature, &target_sig) {
            let mut hit: Vec<&'a Strand> = Vec::new();
            hit.push(&strands[i]);
            proof {
                assert(views[i as int].signature == target_sig);
                assert(row_views(hit@) =~= seq![views[i as int]]);
            }
            return Some(hit);
        }
        proof {
            assert(views[i as int].signature != target_sig);
        }
        i += 1;
    }
    None
}

/// The strand with the signature that the query asks for.
pub open spec fn direct_rows(g: GuideView, strands: Seq<StrandView>) -> Option<Seq<StrandView>> {
    match signature_operand(g) {
        None => None,
        Some(wire) => match find(strands, signature_of(wire)) {
            Some(v) => Some(seq![v]),
            None => Some(Seq::empty()),
        },
    }
}

fn direct_signature_lookup<'a>(pattern: &GuidePattern, index: &SignatureIndex<'a>) -> (r: Option<Vec<&'a Strand>>)
    ensures
        match r {
            Some(v) => direct_rows(pattern@, index.strands()) == Some(row_views(v@)),
            None => direct_rows(pattern@, index.strands()) is None,
        },
{
    let sig = match parse_signature_operand(pattern) {
        Some(s) => s,
        None => {
            return None;
        },
    };
    let mut out: Vec<&'a Strand> = Vec::new();
    if let Some(s) = index.get(&sig) {
        out.push(s);
        proof {
            assert(row_views(out@) =~= seq![s@]);
        }
    } else {
        proof {
            assert(row_views(out@) =~= Seq::<StrandView>::empty());
        }
    }
    Some(out)
}

/// The first exact clause from the `k`-th on.
pub open spec fn first_exact(clauses: Seq<ClauseView>, k: int) -> Option<ClauseView>
    decreases clauses.len() - k,
{
    if k >= clauses.len() {
        None
    } else if clauses[k] is Exact {
        Some(clauses[k])
    } else {
        first_exact(clauses, k + 1)
    }
}

/// The first range clause from the `k`-th on.
pub open spec fn first_range(clauses: Seq<ClauseView>, k: int) -> Option<ClauseView>
    decreases clauses.len() - k,
{
    if k >= clauses.len() {
        None
    } else if clauses[k] is Range {
        Some(clauses[k])
    } else {
        first_range(clauses, k + 1)
    }
}

/// The signatures that an exact lookup gives: from the prepared index where there is one, from
/// the strands otherwise.
pub open spec fn exact_signatures(cfg: ScanConfig, strands: Seq<StrandView>, field: Seq<char>, wire: Seq<u8>) -> Seq<
    [u8; 8],
> {
    match cfg.global_hash_indexes {
        Some(m) => if m@.dom().contains(field) {
            listed(m@[field].map@, wire)
        } else {
            postings(index_entries(strands, field, strands.len()), wire)
        },
        None => postings(index_entries(strands, field, strands.len()), wire),
    }
}

/// The rows by the exact index of `field`, when the first exact clause is on it.
pub open spec fn exact_rows(g: GuideView, strands: Seq<StrandView>, cfg: ScanConfig, field: Seq<char>) -> Option<
    Seq<StrandView>,
> {
    match first_exact(g.clauses, 0) {
        Some(c) => if c.field() == field {
            let sigs = exact_signatures(cfg, strands, field, c->Exact_wire);
            Some(found(strands, sigs, sigs.len()))
        } else {
            None
        },
        None => None,
    }
}

fn first_exact_clause(pattern: &GuidePattern) -> (r: Option<usize>)
    ensures
        match r {
            Some(i) => i < pattern@.clauses.len() && pattern@.clauses[i as int] is Exact && first_exact(
                pattern@.clauses,
                0,
            ) == Some(pattern@.clauses[i as int]),
            None => first_exact(pattern@.clauses, 0) is None,
        },
{
    let ghost clauses = pattern@.clauses;
    let mut i: usize = 0;
    while i < pattern.clauses.len()
        invariant
            0 <= i <= pattern.clauses@.len(),
            clauses == pattern@.clauses,
            first_exact(clauses, 0) == first_exact(clauses, i as int),
        decreases pattern.clauses@.len() - i,
    {
        proof {
            assert(clauses[i as int] == pattern.clauses@[i as int]@);
        }
        if let Clause::ExactMatch { .. } = &pattern.clauses[i] {
            return Some(i);
        }
        i += 1;
    }
    None
}

fn first_range_clause(pattern: &GuidePattern) -> (r: Option<usize>)
    ensures
        match r {
            Some(i) => i < pattern@.clauses.len() && pattern@.clauses[i as int] is Range && first_range(
                pattern@.clauses,
                0,
            ) == Some(pattern@.clauses[i as int]),
            None => first_range(pattern@.clauses, 0) is None,
        },
{
    let ghost clauses = pattern@.clauses;
    let mut i: usize = 0;
    while i < pattern.clauses.len()
        invariant
            0 <= i <= pattern.clauses@.len(),
            clauses == pattern@.clauses,
            first_range(clauses, 0) == first_range(clauses, i as int),
        decreases pattern.clauses@.len() - i,
    {
        proof {
            assert(clauses[i as int] == pattern.clauses@[i as int]@);
        }
        if let Clause::RangeMatch { .. } = &pattern.clauses[i] {
            return Some(i);
        }
        i += 1;
    }
    None
}

fn indexed_exact_lookup<'a>(
    pattern: &GuidePattern,
    strands: &'a [Strand],
    field: &str,
    config: &ScanConfig,
    index: &SignatureIndex<'a>,
) -> (r: Option<Vec<&'a Strand>>)
    requires
        index.strands() == strand_views(strands@),
    ensures
        match r {
            Some(v) => exact_rows(pattern@, strand_views(strands@), *config, field@) == Some(row_views(v@)),
            None => exact_rows(pattern@, strand_views(strands@), *config, field@) is None,
        },
{
    let i: usize = match first_exact_clause(pattern) {
        Some(i) => i,
        None => {
            return None;
        },
    };
    match &pattern.clauses[i] {
        Clause::ExactMatch { field_intron, operand_wire, .. } => {
            proof {
                assert(pattern@.clauses[i as int] == pattern.clauses@[i as int]@);
            }
            if !string_is(field_intron, field) {
                return None;
            }
            let prepared = match &config.global_hash_indexes {
                Some(m) => m.get(field),
                None => None,
            };
            let sigs = match prepared {
                Some(global) => global.lookup(operand_wire.as_slice()),
                None => {
                    let built = build_exact_hash_index(strands, field);
                    exact_lookup_signatures(&built, operand_wire.as_slice())
                },
            };
            Some(hits_to_strands(index, sigs.as_slice()))
        },
        _ => None,
    }
}

/// The numeric entries of `field`: from the prepared index where there is one, from the
/// strands otherwise, in ascending order.
pub open spec fn numeric_entries(cfg: ScanConfig, strands: Seq<StrandView>, field: Seq<char>) -> Seq<(u64, [u8; 8])> {
    let built = arranged(
        numbers_of(strands, field, strands.len()),
        |a: (u64, [u8; 8]), b: (u64, [u8; 8])| number_less(a, b),
    );
    match cfg.global_range_indexes {
        Some(m) => if m@.dom().contains(field) {
            m@[field].entries@
        } else {
            built
        },
        None => built,
    }
}

/// The rows by the numeric index of `field`, when two range clauses bound it.
pub open spec fn between_rows(g: GuideView, strands: Seq<StrandView>, cfg: ScanConfig, field: Seq<char>) -> Option<
    Seq<StrandView>,
> {
    match between(g, field) {
        Some((lo, hi)) => {
            let sigs = picked(numeric_entries(cfg, strands, field), |v: u64| lo <= v <= hi);
            Some(found(strands, sigs, sigs.len()))
        },
        None => None,
    }
}

/// The rows by the numeric index of `field`, when the first range clause is on it, compares
/// with a number, and the query is no span.
pub open spec fn range_rows(g: GuideView, strands: Seq<StrandView>, cfg: ScanConfig, field: Seq<char>) -> Option<
    Seq<StrandView>,
> {
    if between(g, field) is Some {
        None
    } else {
        match first_range(g.clauses, 0) {
            Some(ClauseView::Range { field: f, op, wire, .. }) => match (f == field, numeric_value(wire)) {
                (true, Some(n)) => {
                    let sigs = picked(
                        numeric_entries(cfg, strands, field),
                        |v: u64| number_in_range(v, op, n),
                    );
                    Some(found(strands, sigs, sigs.len()))
                },
                _ => None,
            },
            _ => None,
        }
    }
}

/// The numeric index of `field` over the strands, built on the spot.
fn built_range_index(strands: &[Strand], field: &str) -> (r: GlobalRangeIndex)
    ensures
        r.entries@ == arranged(
            numbers_of(strand_views(strands@), field@, strands@.len()),
            |a: (u64, [u8; 8]), b: (u64, [u8; 8])| number_less(a, b),
        ),
{
    let r = GlobalRangeIndex::build(field, strands);
    proof {
        let lt = |a: (u64, [u8; 8]), b: (u64, [u8; 8])| number_less(a, b);
        assert(strict_weak_order(lt));
        lemma_arranged(numbers_of(strand_views(strands@), field@, strands@.len()), r.entries@, lt);
    }
    r
}

fn indexed_between_lookup<'a>(
    pattern: &GuidePattern,
    strands: &'a [Strand],
    field: &str,
    config: &ScanConfig,
    index: &SignatureIndex<'a>,
) -> (r: Option<Vec<&'a Strand>>)
    requires
        index.strands() == strand_views(strands@),
    ensures
        match r {
            Some(v) => between_rows(pattern@, strand_views(strands@), *config, field@) == Some(row_views(v@)),
            None => between_rows(pattern@, strand_views(strands@), *config, field@) is None,
        },
{
    let (lo, hi) = match parse_indexed_between_bounds(pattern, field) {
        Some(b) => b,
        None => {
            return None;
        },
    };
    let prepared = match &config.global_range_indexes {
        Some(m) => m.get(field),
        None => None,
    };
    let sigs = match prepared {
        Some(global) => global.lookup_between_inclusive(lo, hi),
        None => built_range_index(strands, field).lookup_between_inclusive(lo, hi),
    };
    Some(hits_to_strands(index, sigs.as_slice()))
}

fn indexed_range_lookup<'a>(
    pattern: &GuidePattern,
    strands: &'a [Strand],
    field: &str,
    config: &ScanConfig,
    index: &SignatureIndex<'a>,
) -> (r: Option<Vec<&'a Strand>>)
    requires
        index.strands() == strand_views(strands@),
    ensures
        match r {
            Some(v) => range_rows(pattern@, strand_views(strands@), *config, field@) == Some(row_views(v@)),
            None => range_rows(pattern@, strand_views(strands@), *config, field@) is None,
        },
{
    if parse_indexed_between_bounds(pattern, field).is_some() {
        return None;
    }
    let i: usize = match first_range_clause(pattern) {
        Some(i) => i,
        None => {
            return None;
        },
    };
    match &pattern.clauses[i] {
        Clause::RangeMatch { field_intron, operator, operand_wire, .. } => {
            proof {
                assert(pattern@.clauses[i as int] == pattern.clauses@[i as int]@);
            }
            if !string_is(field_intron, field) {
                return None;
            }
            let needle: u64 = match as_numeric_u64(operand_wire.as_slice()) {
                Some(n) => n,
                None => {
                    return None;
                },
            };
            let prepared = match &config.global_range_indexes {
                Some(m) => m.get(field),
                None => None,
            };
            let sigs = match prepared {
                Some(global) => global.lookup(*operator, needle),
                None => built_range_index(strands, field).lookup(*operator, needle),
            };
            Some(hits_to_strands(index, sigs.as_slice()))
        },
        _ => None,
    }
}

/// The rows by a scan.
pub open spec fn scan_rows(g: GuideView, strands: Seq<StrandView>, cfg: ScanConfig) -> Seq<StrandView> {
    let sigs = scanned(g, strands, cfg);
    found(strands, sigs, sigs.len())
}

/// The rows by an index: exact, span or range, else by a scan.
pub open spec fn index_rows(g: GuideView, strands: Seq<StrandView>, cfg: ScanConfig, field: Seq<char>) -> Seq<
    StrandView,
> {
    match exact_rows(g, strands, cfg, field) {
        Some(rows) => rows,
        None => match between_rows(g, strands, cfg, field) {
            Some(rows) => rows,
            None => match range_rows(g, strands, cfg, field) {
                Some(rows) => rows,
                None => scan_rows(g, strands, cfg),
            },
        },
    }
}

/// The candidate rows of a path; a direct lookup probes by dead reckoning first, if asked to.
pub open spec fn base_rows(
    path: PathView,
    g: GuideView,
    strands: Seq<StrandView>,
    cfg: ScanConfig,
    probing: bool,
) -> Seq<StrandView> {
    match path {
        PathView::Direct => match (probing, reckoned(g, strands)) {
            (true, Some(rows)) => rows,
            _ => match direct_rows(g, strands) {
                Some(rows) => rows,
                None => scan_rows(g, strands, cfg),
            },
        },
        PathView::Index { field } => index_rows(g, strands, cfg, field),
        PathView::GuidedScan => scan_rows(g, strands, cfg),
    }
}

/// The answer to a query along a path: the candidates that satisfy every clause, ordered and
/// limited.
pub open spec fn answer(
    path: PathView,
    g: GuideView,
    strands: Seq<StrandView>,
    cfg: ScanConfig,
    probing: bool,
) -> Seq<StrandView> {
    limited(ordered(matching(base_rows(path, g, strands, cfg, probing), g), g), g.limit)
}

fn find_base_rows<'a>(
    path: &QueryPath,
    pattern: &GuidePattern,
    strands: &'a [Strand],
    config: &ScanConfig,
    probing: bool,
) -> (r: Vec<&'a Strand>)
    ensures
        row_views(r@) == base_rows(path@, pattern@, strand_views(strands@), *config, probing),
{
    let index = strand_by_signature(strands);
    match path {
        QueryPath::Direct => {
            if probing {
                if let Some(rows) = dead_reckoning_signature_lookup(pattern, strands) {
                    return rows;
                }
            }
            if let Some(rows) = direct_signature_lookup(pattern, &index) {
                return rows;
            }
        },
        QueryPath::Index { field } => {
            if let Some(rows) = indexed_exact_lookup(pattern, strands, field.as_str(), config, &index) {
                return rows;
            }
            if let Some(rows) = indexed_between_lookup(pattern, strands, field.as_str(), config, &index) {
                return rows;
            }
            if let Some(rows) = indexed_range_lookup(pattern, strands, field.as_str(), config, &index) {
                return rows;
            }
        },
        QueryPath::GuidedScan => {},
    }
    let sigs = scan_strands(pattern, strands, config);
    hits_to_strands(&index, sigs.as_slice())
}

/// The values that occur in the exact index of `field`.
pub open spec fn indexed_values(cfg: ScanConfig, strands: Seq<StrandView>, field: Seq<char>) -> Set<Seq<u8>> {
    let entries = index_entries(strands, field, strands.len());
    let built = Set::new(|w: Seq<u8>| postings(entries, w).len() > 0);
    match cfg.global_hash_indexes {
        Some(m) => if m@.dom().contains(field) {
            m@[field].map@.dom()
        } else {
            built
        },
        None => built,
    }
}

/// How many of the first `n` segments the query skips.
pub open spec fn skipped_count(metas: Seq<SegmentMeta>, g: GuideView, n: nat) -> nat
    decreases n,
{
    if n == 0 {
        0
    } else {
        skipped_count(metas, g, (n - 1) as nat) + (if skips(
            metas[n - 1].field_stats@,
            Some(metas[n - 1].field_dictionaries@),
            g,
        ) {
            1nat
        } else {
            0
        })
    }
}

/// The fields that the configuration names as indexed.
pub open spec fn index_hints(cfg: ScanConfig) -> Set<Seq<char>> {
    match cfg.indexed_fields {
        Some(s) => s@,
        None => Set::empty(),
    }
}

/// What the planner is told of the strands: their number, the indexed fields with one over the
/// number of their values as selectivity, and the share of segments that are skipped.
pub open spec fn stats_for(cfg: ScanConfig, strands: Seq<StrandView>, g: GuideView, st: CollectionStats) -> bool {
    &&& st.record_count == strands.len()
    &&& st.indexed_fields@ == index_hints(cfg)
    &&& st.direct_lookup_fields@ == set!["_signature"@]
    &&& forall|f: Seq<char>| #[trigger] st.index_selectivity@.dom().contains(f) <==> index_hints(cfg).contains(f)
    &&& forall|f: Seq<char>| #[trigger]
        st.index_selectivity@.dom().contains(f) ==> {
            let n = indexed_values(cfg, strands, f).len();
            st.index_selectivity@[f].top() == 1 && st.index_selectivity@[f].bottom() == (if n < 1 {
                1
            } else {
                n
            })
        }
    &&& match (cfg.segment_metas, cfg.segment_ranges) {
        (Some(metas), Some(_)) => if metas@.len() > 0 {
            st.estimated_bloom_skip_rate.top() == skipped_count(metas@, g, metas@.len())
                && st.estimated_bloom_skip_rate.bottom() == metas@.len()
        } else {
            st.estimated_bloom_skip_rate.top() == 0 && st.estimated_bloom_skip_rate.bottom() == 1
        },
        _ => st.estimated_bloom_skip_rate.top() == 0 && st.estimated_bloom_skip_rate.bottom() == 1,
    }
}

fn distinct_values(map: &PostingMap) -> (r: usize)
    ensures
        r == map@.dom().len(),
{
    let n = map.len();
    proof {
        map.keys().unique_seq_to_set();
        assert(map.keys().to_set() =~= map@.dom());
    }
    n
}

fn count_values(strands: &[Strand], config: &ScanConfig, field: &str) -> (r: usize)
    ensures
        r == indexed_values(*config, strand_views(strands@), field@).len(),
{
    let prepared = match &config.global_hash_indexes {
        Some(m) => m.get(field),
        None => None,
    };
    match prepared {
        Some(idx) => distinct_values(&idx.map),
        None => {
            let built = build_exact_hash_index(strands, field);
            proof {
                assert(built@.dom() =~= indexed_values(*config, strand_views(strands@), field@));
            }
            distinct_values(&built)
        },
    }
}

fn build_collection_stats(strands: &[Strand], config: &ScanConfig, pattern: &GuidePattern) -> (stats: CollectionStats)
    ensures
        stats_for(*config, strand_views(strands@), pattern@, stats),
{
    let mut stats = CollectionStats::fake();
    stats.record_count = strands.len();
    if let Some(indexed) = &config.indexed_fields {
        let n = indexed.len();
        let mut i: usize = 0;
        proof {
            assert(stats.indexed_fields@ =~= indexed.members().take(0).to_set());
        }
        while i < n
            invariant
                0 <= i <= n,
                n == indexed.members().len(),
                stats.record_count == strands@.len(),
                stats.direct_lookup_fields@ == set!["_signature"@],
                stats.estimated_bloom_skip_rate.top() == 0,
                stats.estimated_bloom_skip_rate.bottom() == 1,
                stats.indexed_fields@ == indexed.members().take(i as int).to_set(),
                forall|f: Seq<char>| #[trigger]
                    stats.index_selectivity@.dom().contains(f) <==> stats.indexed_fields@.contains(f),
                forall|f: Seq<char>| #[trigger]
                    stats.index_selectivity@.dom().contains(f) ==> {
                        let n = indexed_values(*config, strand_views(strands@), f).len();
                        stats.index_selectivity@[f].top() == 1 && stats.index_selectivity@[f].bottom() == (if n < 1 {
                            1
                        } else {
                            n
                        })
                    },
            decreases n - i,
        {
            let f = indexed.item(i);
            stats.add_index(f.clone());
            let distinct: usize = count_values(strands, config, f.as_str());
            let bottom: u64 = if distinct < 1 {
                1
            } else {
                distinct as u64
            };
            let _ = stats.index_selectivity.insert(f.clone(), Fraction::new(1, bottom));
            proof {
                let now = indexed.members().take(i + 1);
                assert(now =~= indexed.members().take(i as int).push(f@));
                assert(now.to_set() =~= indexed.members().take(i as int).to_set().insert(f@)) by {
                    assert(now[i as int] == f@);
                    assert forall|x: Seq<char>| indexed.members().take(i as int).contains(x) implies now.contains(x) by {
                        let k = indexed.members().take(i as int).index_of(x);
                        assert(now[k] == x);
                    }
                }
            }
            i += 1;
        }
        proof {
            assert(indexed.members().take(n as int) =~= indexed.members());
            assert(indexed@ =~= indexed.members().to_set());
        }
    } else {
        proof {
            assert(stats.indexed_fields@ =~= index_hints(*config));
        }
    }
    if let (Some(metas), Some(_)) = (&config.segment_metas, &config.segment_ranges) {
        if metas.len() > 0 {
            let mut skipped: usize = 0;
            let mut i: usize = 0;
            while i < metas.len()
                invariant
                    0 <= i <= metas@.len(),
                    skipped <= i,
                    skipped == skipped_count(metas@, pattern@, i as nat),
                decreases metas@.len() - i,
            {
                if should_skip_segment(&metas[i], pattern) {
                    skipped += 1;
                }
                i += 1;
            }
            stats.estimated_bloom_skip_rate = Fraction::new(skipped as u64, metas.len() as u64);
        }
    }
    stats
}

/// Whether a session answered a query: it planned with what it knew, and the rows are the
/// answer along the planned path.
pub open spec fn fetched(
    before: QueryPlanner,
    after: QueryPlanner,
    g: GuideView,
    strands: Seq<StrandView>,
    cfg: ScanConfig,
    probing: bool,
    rows: Seq<StrandView>,
) -> bool {
    exists|st: CollectionStats, path: PathView|
        stats_for(cfg, strands, g, st) && #[trigger] planned(before, g, st, path, after) && rows == answer(
            path,
            g,
            strands,
            cfg,
            probing,
        )
}

/// Fetches the rows of a query, ordered and limited.
pub fn fetch<'a>(
    session: &mut QuerySession,
    pattern: &GuidePattern,
    strands: &'a [Strand],
    config: &ScanConfig,
) -> (r: FetchResult<'a>)
    ensures
        fetched(
            old(session).planner,
            final(session).planner,
            pattern@,
            strand_views(strands@),
            *config,
            true,
            row_views(r.rows@),
        ),
        final(session).workload.fetch_calls == (old(session).workload.fetch_calls + 1) % 0x1_0000_0000_0000_0000,
        final(session).workload.fetch_stream_calls == old(session).workload.fetch_stream_calls,
{
    record_fetch(&mut session.workload);
    let stats = build_collection_stats(strands, config, pattern);
    let path = session.planner.choose_path_cached(pattern, &stats);
    let base = find_base_rows(&path, pattern, strands, config, true);
    let verified = verify_clauses(base, pattern);
    let mut rows = apply_order_by(verified, pattern);
    apply_limit(&mut rows, pattern);
    proof {
        assert(planned(old(session).planner, pattern@, stats, path@, session.planner));
    }
    FetchResult { rows }
}

/// Fetches the first row of a query.
pub fn fetch_one<'a>(
    session: &mut QuerySession,
    pattern: &GuidePattern,
    strands: &'a [Strand],
    config: &ScanConfig,
) -> (r: Option<&'a Strand>)
    ensures
        exists|rows: Seq<StrandView>| #[trigger]
            fetched(
                old(session).planner,
                final(session).planner,
                pattern@,
                strand_views(strands@),
                *config,
                true,
                rows,
            ) && match r {
                Some(s) => rows.len() > 0 && s@ == rows[0],
                None => rows.len() == 0,
            },
        final(session).workload.fetch_calls == (old(session).workload.fetch_calls + 1) % 0x1_0000_0000_0000_0000,
        final(session).workload.fetch_stream_calls == old(session).workload.fetch_stream_calls,
{
    let found = fetch(session, pattern, strands, config);
    proof {
        assert(fetched(
            old(session).planner,
            session.planner,
            pattern@,
            strand_views(strands@),
            *config,
            true,
            row_views(found.rows@),
        ));
    }
    if found.rows.len() > 0 {
        proof {
            assert(row_views(found.rows@)[0] == found.rows@[0]@);
        }
        Some(found.rows[0])
    } else {
        None
    }
}

/// The rows that a streaming fetch emits, in order: those of [`fetch`] when the query is
/// ordered; else found without dead reckoning.
pub fn stream_rows<'a>(
    session: &mut QuerySession,
    pattern: &GuidePattern,
    strands: &'a [Strand],
    config: &ScanConfig,
) -> (r: Vec<&'a Strand>)
    ensures
        fetched(
            old(session).planner,
            final(session).planner,
            pattern@,
            strand_views(strands@),
            *config,
            pattern.order_by is Some,
            row_views(r@),
        ),
        stream_counted(old(session).workload, final(session).workload, pattern.order_by is Some),
{
    if pattern.order_by.is_some() {
        return fetch(session, pattern, strands, config).rows;
    }
    record_fetch_stream(&mut session.workload);
    let stats = build_collection_stats(strands, config, pattern);
    let path = session.planner.choose_path_cached(pattern, &stats);
    let base = find_base_rows(&path, pattern, strands, config, false);
    let mut rows = verify_clauses(base, pattern);
    apply_limit(&mut rows, pattern);
    proof {
        assert(planned(old(session).planner, pattern@, stats, path@, session.planner));
    }
    rows
}

/// How a streaming fetch is counted: as a fetch when the query is ordered.
pub open spec fn stream_counted(before: WorkloadSnapshot, after: WorkloadSnapshot, as_fetch: bool) -> bool {
    if as_fetch {
        after.fetch_calls == (before.fetch_calls + 1) % 0x1_0000_0000_0000_0000 && after.fetch_stream_calls
            == before.fetch_stream_calls
    } else {
        after.fetch_stream_calls == (before.fetch_stream_calls + 1) % 0x1_0000_0000_0000_0000 && after.fetch_calls
            == before.fetch_calls
    }
}

/// Whether `n` of the rows were taken: `on_row` said yes to each of them and no to the next, if
/// there is one.
pub open spec fn taken<'a, F: FnMut(&'a Strand) -> bool>(on_row: F, rows: Seq<&'a Strand>, n: int) -> bool {
    &&& 0 <= n <= rows.len()
    &&& forall|i: int| 0 <= i < n ==> call_ensures(on_row, (#[trigger] rows[i],), true)
    &&& n < rows.len() ==> call_ensures(on_row, (rows[n],), false)
}

/// Hands the rows of a query to `on_row` one by one until it answers `false`, and returns how
/// many it took.
pub fn fetch_stream<'a, F: FnMut(&'a Strand) -> bool>(
    session: &mut QuerySession,
    pattern: &GuidePattern,
    strands: &'a [Strand],
    config: &ScanConfig,
    mut on_row: F,
) -> (r: usize)
    requires
        forall|s: &'a Strand| call_requires(on_row, (s,)),
    ensures
        exists|rows: Seq<&'a Strand>| #[trigger]
            taken(on_row, rows, r as int) && fetched(
                old(session).planner,
                final(session).planner,
                pattern@,
                strand_views(strands@),
                *config,
                pattern.order_by is Some,
                row_views(rows),
            ),
        stream_counted(old(session).workload, final(session).workload, pattern.order_by is Some),
{
    let rows = stream_rows(session, pattern, strands, config);
    let ghost asked = on_row;
    let mut emitted: usize = 0;
    let mut stopped = false;
    while !stopped && emitted < rows.len()
        invariant
            on_row == asked,
            forall|s: &'a Strand| call_requires(on_row, (s,)),
            stopped ==> emitted < rows@.len() && call_ensures(on_row, (rows@[emitted as int],), false),
            emitted <= rows@.len(),
            forall|i: int| 0 <= i < emitted ==> call_ensures(on_row, (#[trigger] rows@[i],), true),
            fetched(
                old(session).planner,
                session.planner,
                pattern@,
                strand_views(strands@),
                *config,
                pattern.order_by is Some,
                row_views(rows@),
            ),
            stream_counted(old(session).workload, session.workload, pattern.order_by is Some),
        decreases rows@.len() - emitted, (if stopped { 0int } else { 1 }),
    {
        if on_row(rows[emitted]) {
            emitted += 1;
        } else {
            stopped = true;
        }
    }
    proof {
        assert(taken(asked, rows@, emitted as int));
    }
    emitted
}

/// Whether a fetched row carries, for every include path of the query, the strands at its end.
pub open spec fn includes_of(row: FetchRow<'_>, paths: Seq<Seq<char>>, strands: Seq<StrandView>) -> bool {
    &&& row.included@.len() == paths.len()
    &&& forall|k: int|
        0 <= k < paths.len() ==> (#[trigger] row.included@[k]).0@ == paths[k] && row_views(row.included@[k].1@)
            == path_target(strands, row.root@, paths[k])
}

/// The roots of fetched rows.
pub open spec fn root_views(rows: Seq<FetchRow<'_>>) -> Seq<StrandView> {
    Seq::new(rows.len(), |i: int| rows[i].root@)
}

fn expand_row<'a>(root: &'a Strand, includes: &Vec<String>, index: &SignatureIndex<'a>) -> (r: FetchRow<'a>)
    ensures
        r.root@ == root@,
        includes_of(r, crate::support::text::texts(includes@), index.strands()),
{
    let mut included: Vec<(String, Vec<&'a Strand>)> = Vec::new();
    let mut k: usize = 0;
    while k < includes.len()
        invariant
            0 <= k <= includes@.len(),
            included@.len() == k,
            forall|j: int|
                0 <= j < k ==> (#[trigger] included@[j]).0@ == includes@[j]@ && row_views(included@[j].1@)
                    == path_target(index.strands(), root@, includes@[j]@),
        decreases includes@.len() - k,
    {
        let related = resolve_include_path(root, includes[k].as_str(), index);
        included.push((includes[k].clone(), related));
        k += 1;
    }
    FetchRow { root, included }
}

/// Fetches the rows of a query, each with the strands at the end of its include paths.
pub fn fetch_with_includes<'a>(
    session: &mut QuerySession,
    pattern: &GuidePattern,
    strands: &'a [Strand],
    config: &ScanConfig,
) -> (r: FetchWithIncludes<'a>)
    ensures
        fetched(
            old(session).planner,
            final(session).planner,
            pattern@,
            strand_views(strands@),
            *config,
            true,
            root_views(r.rows@),
        ),
        forall|i: int|
            0 <= i < r.rows@.len() ==> includes_of(
                #[trigger] r.rows@[i],
                pattern@.includes,
                strand_views(strands@),
            ),
        final(session).workload.fetch_calls == (old(session).workload.fetch_calls + 1) % 0x1_0000_0000_0000_0000,
        final(session).workload.fetch_stream_calls == old(session).workload.fetch_stream_calls,
{
    let base = fetch(session, pattern, strands, config).rows;
    let index = strand_by_signature(strands);
    let mut rows: Vec<FetchRow<'a>> = Vec::new();
    let mut i: usize = 0;
    while i < base.len()
        invariant
            0 <= i <= base@.len(),
            index.strands() == strand_views(strands@),
            rows@.len() == i,
            forall|j: int|
                0 <= j < i ==> (#[trigger] rows@[j]).root@ == base@[j]@ && includes_of(
                    rows@[j],
                    pattern@.includes,
                    strand_views(strands@),
                ),
        decreases base@.len() - i,
    {
        rows.push(expand_row(base[i], &pattern.includes, &index));
        i += 1;
    }
    proof {
        assert(root_views(rows@) =~= row_views(base@));
    }
    FetchWithIncludes { rows }
}

} // verus!
