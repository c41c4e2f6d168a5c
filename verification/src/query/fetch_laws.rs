//! What every answer keeps: it holds strands that match, and all of them, whichever path was
//! taken.
use super::ast::SortDirection;
use super::fast_match::{all_fast_match, fast_match, has_field, has_hash};
use super::fetch::{
    answer, base_rows, between_rows, exact_rows, exact_signatures, first_exact, first_range,
    first_with, limited, numeric_entries, ordered, range_rows, reckoned, row_order, scan_rows,
    signature_of, signature_operand,
};
use super::fields::{carries, field_bytes, has_value};
use super::guide::{ClauseView, GuideView};
use super::index::{
    index_entries, indexes, intron_entries, intron_numbers, number_in_range, number_less,
    numbers_of, picked, postings, strand_entries,
};
use super::literal::numeric_value;
use super::matching::{
    lemma_matching, lemma_values, matches_all, matching, passes_at, satisfies, signature_only,
    values,
};
use super::planner::{between, PathView};
use super::scan::{
    covered, has_metadata, holds_by_number, honest_config, law_scan_reports_every_match,
    scanned, scoped, ScanConfig,
};
use super::signatures::{find, found, lemma_last_with};
use crate::model::StrandView;
use crate::processor::fnv1a64_spec;
use crate::support::bytes::from_le;
use crate::support::posting_map::listed;
use crate::support::sort::{
    arranged, lemma_arrangement_exists, lemma_sorted_same_members, stably_sorted,
    strict_weak_order,
};
use vstd::prelude::*;

verus! {

/// Whether no two strands have one signature.
pub open spec fn distinct_signatures(strands: Seq<StrandView>) -> bool {
    forall|i: int, j: int|
        0 <= i < strands.len() && 0 <= j < strands.len() && (#[trigger] strands[i]).signature == (
        #[trigger] strands[j]).signature ==> i == j
}

/// Whether every readable intron hashes its own bytes.
pub open spec fn truthful_hashes(v: StrandView) -> bool {
    forall|i: int|
        0 <= i < v.introns.len() ==> (field_bytes(v.codons, #[trigger] v.introns[i]) matches Some(b)
            ==> v.introns[i].value_hash == fnv1a64_spec(b))
}

/// Whether the prepared indexes were built from the strands.
pub open spec fn honest_indexes(cfg: ScanConfig, strands: Seq<StrandView>) -> bool {
    &&& (cfg.global_hash_indexes matches Some(m) ==> forall|f: Seq<char>| #[trigger]
        m@.dom().contains(f) ==> indexes(m@[f].map@, index_entries(strands, f, strands.len())))
    &&& (cfg.global_range_indexes matches Some(m) ==> forall|f: Seq<char>| #[trigger]
        m@.dom().contains(f) ==> stably_sorted(
            numbers_of(strands, f, strands.len()),
            m@[f].entries@,
            |a: (u64, [u8; 8]), b: (u64, [u8; 8])| number_less(a, b),
        ))
}

/// Whether no clause is on the signature.
pub open spec fn no_signature_clause(g: GuideView) -> bool {
    forall|i: int| 0 <= i < g.clauses.len() ==> (#[trigger] g.clauses[i]).field() != "_signature"@
}

proof fn lemma_find_distinct(strands: Seq<StrandView>, m: int)
    requires
        distinct_signatures(strands),
        0 <= m < strands.len(),
    ensures
        find(strands, strands[m].signature) == Some(strands[m]),
{
    lemma_last_with(strands, strands[m].signature, strands.len());
}

proof fn lemma_found_contains(strands: Seq<StrandView>, sigs: Seq<[u8; 8]>, n: nat, q: int, m: int)
    requires
        distinct_signatures(strands),
        0 <= m < strands.len(),
        0 <= q < n <= sigs.len(),
        sigs[q] == strands[m].signature,
    ensures
        found(strands, sigs, n).contains(strands[m]),
    decreases n,
{
    let before = found(strands, sigs, (n - 1) as nat);
    let now = found(strands, sigs, n);
    if q == n - 1 {
        lemma_find_distinct(strands, m);
        assert(now[before.len() as int] == strands[m]);
    } else {
        lemma_found_contains(strands, sigs, (n - 1) as nat, q, m);
        let k = before.index_of(strands[m]);
        assert(now[k] == strands[m]);
    }
}

proof fn lemma_found_from_strands(strands: Seq<StrandView>, sigs: Seq<[u8; 8]>, n: nat)
    requires
        n <= sigs.len(),
    ensures
        forall|v: StrandView| #[trigger] found(strands, sigs, n).contains(v) ==> strands.contains(v),
    decreases n,
{
    if n > 0 {
        lemma_found_from_strands(strands, sigs, (n - 1) as nat);
        let sig = sigs[n - 1];
        let before = found(strands, sigs, (n - 1) as nat);
        let now = found(strands, sigs, n);
        lemma_last_with(strands, sig, strands.len());
        assert forall|v: StrandView| #[trigger] now.contains(v) implies strands.contains(v) by {
            let k = now.index_of(v);
            if k < before.len() {
                assert(before[k] == v);
                assert(before.contains(v));
            }
        }
    }
}

proof fn lemma_first_with(strands: Seq<StrandView>, sig: [u8; 8], from: int, to: int)
    requires
        0 <= from,
        to <= strands.len(),
    ensures
        match first_with(strands, sig, from, to) {
            Some(i) => from <= i < to && strands[i].signature == sig,
            None => forall|i: int| from <= i < to ==> (#[trigger] strands[i]).signature != sig,
        },
    decreases to - from,
{
    if from < to && strands[from].signature != sig {
        lemma_first_with(strands, sig, from + 1, to);
    }
}

proof fn lemma_base_from_strands(path: PathView, g: GuideView, strands: Seq<StrandView>, cfg: ScanConfig, probing: bool)
    ensures
        forall|v: StrandView| #[trigger]
            base_rows(path, g, strands, cfg, probing).contains(v) ==> strands.contains(v),
{
    let rows = base_rows(path, g, strands, cfg, probing);
    let sigs = scanned(g, strands, cfg);
    lemma_found_from_strands(strands, sigs, sigs.len());
    match path {
        PathView::Direct => {
            if let Some(wire) = signature_operand(g) {
                let sig = signature_of(wire);
                lemma_last_with(strands, sig, strands.len());
                if strands.len() > 0 {
                    let first = from_le(strands[0].signature@) as int;
                    let target = from_le(wire) as int;
                    let near = if target - first >= strands.len() {
                        strands.len() - 1
                    } else {
                        target - first
                    };
                    let from = if near < 64 {
                        0
                    } else {
                        near - 64
                    };
                    let to = if near + 65 < strands.len() {
                        near + 65
                    } else {
                        strands.len() as int
                    };
                    if target >= first {
                        lemma_first_with(strands, sig, from, to);
                    }
                }
            }
            assert forall|v: StrandView| #[trigger] rows.contains(v) implies strands.contains(v) by {
                if rows != scan_rows(g, strands, cfg) {
                    assert(rows.len() <= 1);
                    assert(rows[0] == v);
                }
            }
        },
        PathView::Index { field } => {
            if let Some(c) = first_exact(g.clauses, 0) {
                let s = exact_signatures(cfg, strands, field, c->Exact_wire);
                lemma_found_from_strands(strands, s, s.len());
            }
            if let Some((lo, hi)) = between(g, field) {
                let s = picked(numeric_entries(cfg, strands, field), |v: u64| lo <= v <= hi);
                lemma_found_from_strands(strands, s, s.len());
            }
            if let Some(ClauseView::Range { field: f, op, wire, .. }) = first_range(g.clauses, 0) {
                if let Some(n) = numeric_value(wire) {
                    let s = picked(numeric_entries(cfg, strands, field), |v: u64| number_in_range(v, op, n));
                    lemma_found_from_strands(strands, s, s.len());
                }
            }
        },
        PathView::GuidedScan => {},
    }
}

proof fn lemma_ordered_members(rows: Seq<StrandView>, g: GuideView)
    ensures
        ordered(rows, g).len() == rows.len(),
        forall|v: StrandView| #[trigger] ordered(rows, g).contains(v) <==> rows.contains(v),
{
    if let Some((field, dir)) = g.order_by {
        let lt = row_order(field, dir);
        assert(strict_weak_order(lt));
        lemma_arrangement_exists(rows, lt);
        lemma_sorted_same_members(rows, ordered(rows, g), lt);
    }
}

/// Whatever the path and the configuration, an answer holds only strands among those given
/// that satisfy every clause, and no more than the limit.
pub proof fn law_answer_is_sound(
    path: PathView,
    g: GuideView,
    strands: Seq<StrandView>,
    cfg: ScanConfig,
    probing: bool,
    v: StrandView,
)
    requires
        answer(path, g, strands, cfg, probing).contains(v),
    ensures
        strands.contains(v),
        matches_all(v, g),
        g.limit matches Some(n) ==> answer(path, g, strands, cfg, probing).len() <= n,
{
    let base = base_rows(path, g, strands, cfg, probing);
    let rows = matching(base, g);
    let full = ordered(rows, g);
    let out = limited(full, g.limit);
    let k = out.index_of(v);
    assert(full[k] == v);
    assert(full.contains(v));
    lemma_ordered_members(rows, g);
    assert(rows.contains(v));
    lemma_matching(base, g);
    lemma_base_from_strands(path, g, strands, cfg, probing);
}

/// The answer to an ordered query is in order: keys do not fall, or do not rise.
pub proof fn law_answer_is_ordered(
    path: PathView,
    g: GuideView,
    strands: Seq<StrandView>,
    cfg: ScanConfig,
    probing: bool,
    field: Seq<char>,
    dir: SortDirection,
    i: int,
    j: int,
)
    requires
        g.order_by == Some((field, dir)),
        0 <= i < j < answer(path, g, strands, cfg, probing).len(),
    ensures
        !row_order(field, dir)(
            answer(path, g, strands, cfg, probing)[j],
            answer(path, g, strands, cfg, probing)[i],
        ),
{
    let rows = matching(base_rows(path, g, strands, cfg, probing), g);
    let full = ordered(rows, g);
    let lt = row_order(field, dir);
    assert(strict_weak_order(lt));
    lemma_arrangement_exists(rows, lt);
    let p = choose|p: Seq<int>| crate::support::sort::stable_order(rows, full, p, lt);
    let out = limited(full, g.limit);
    assert(out[i] == full[i] && out[j] == full[j]);
}

pub proof fn lemma_posting(entries: Seq<(Seq<u8>, [u8; 8])>, value: Seq<u8>, sig: [u8; 8], k: int)
    requires
        0 <= k < entries.len(),
        entries[k] == (value, sig),
    ensures
        postings(entries, value).contains(sig),
    decreases entries.len(),
{
    let front = entries.drop_last();
    let before = postings(front, value);
    let now = postings(entries, value);
    if k == entries.len() - 1 {
        assert(now[before.len() as int] == sig);
    } else {
        lemma_posting(front, value, sig, k);
        let q = before.index_of(sig);
        assert(now[q] == sig);
    }
}

proof fn lemma_intron_entry(v: StrandView, field: Seq<char>, n: nat, i: int, value: Seq<u8>)
    requires
        i < n <= v.introns.len(),
        carries(v, field, i, value),
    ensures
        intron_entries(v, field, n).contains((value, v.signature)),
    decreases n,
{
    let before = intron_entries(v, field, (n - 1) as nat);
    let now = intron_entries(v, field, n);
    if i == n - 1 {
        assert(now[before.len() as int] == (value, v.signature));
    } else {
        lemma_intron_entry(v, field, (n - 1) as nat, i, value);
        let q = before.index_of((value, v.signature));
        assert(now[q] == (value, v.signature));
    }
}

pub proof fn lemma_index_entry(strands: Seq<StrandView>, field: Seq<char>, n: nat, m: int, value: Seq<u8>)
    requires
        0 <= m < n <= strands.len(),
        field != "_signature"@,
        has_value(strands[m], field, value),
    ensures
        index_entries(strands, field, n).contains((value, strands[m].signature)),
    decreases n,
{
    let item = (value, strands[m].signature);
    let before = index_entries(strands, field, (n - 1) as nat);
    let more = strand_entries(strands[n - 1], field);
    let now = index_entries(strands, field, n);
    if m == n - 1 {
        let i = choose|i: int| carries(strands[m], field, i, value);
        lemma_intron_entry(strands[m], field, strands[m].introns.len(), i, value);
        let q = more.index_of(item);
        assert(now[before.len() + q] == item);
    } else {
        lemma_index_entry(strands, field, (n - 1) as nat, m, value);
        let q = before.index_of(item);
        assert(now[q] == item);
    }
}

proof fn lemma_intron_number(v: StrandView, field: Seq<char>, n: nat, i: int, value: Seq<u8>)
    requires
        i < n <= v.introns.len(),
        carries(v, field, i, value),
        numeric_value(value) is Some,
    ensures
        intron_numbers(v, field, n).contains((numeric_value(value)->0, v.signature)),
    decreases n,
{
    let item = (numeric_value(value)->0, v.signature);
    let before = intron_numbers(v, field, (n - 1) as nat);
    let now = intron_numbers(v, field, n);
    if i == n - 1 {
        assert(now[before.len() as int] == item);
    } else {
        lemma_intron_number(v, field, (n - 1) as nat, i, value);
        let q = before.index_of(item);
        assert(now[q] == item);
    }
}

pub proof fn lemma_number_entry(strands: Seq<StrandView>, field: Seq<char>, n: nat, m: int, i: int, value: Seq<u8>)
    requires
        0 <= m < n <= strands.len(),
        carries(strands[m], field, i, value),
        numeric_value(value) is Some,
    ensures
        numbers_of(strands, field, n).contains((numeric_value(value)->0, strands[m].signature)),
    decreases n,
{
    let item = (numeric_value(value)->0, strands[m].signature);
    let before = numbers_of(strands, field, (n - 1) as nat);
    let more = intron_numbers(strands[n - 1], field, strands[n - 1].introns.len());
    let now = numbers_of(strands, field, n);
    if m == n - 1 {
        lemma_intron_number(strands[m], field, strands[m].introns.len(), i, value);
        let q = more.index_of(item);
        assert(now[before.len() + q] == item);
    } else {
        lemma_number_entry(strands, field, (n - 1) as nat, m, i, value);
        let q = before.index_of(item);
        assert(now[q] == item);
    }
}

pub proof fn lemma_picked(entries: Seq<(u64, [u8; 8])>, keep: spec_fn(u64) -> bool, k: int)
    requires
        0 <= k < entries.len(),
        keep(entries[k].0),
    ensures
        picked(entries, keep).contains(entries[k].1),
    decreases entries.len(),
{
    let front = entries.drop_last();
    let before = picked(front, keep);
    let now = picked(entries, keep);
    if k == entries.len() - 1 {
        assert(now[before.len() as int] == entries[k].1);
    } else {
        lemma_picked(front, keep, k);
        let q = before.index_of(entries[k].1);
        assert(now[q] == entries[k].1);
    }
}

proof fn lemma_numeric_entries(cfg: ScanConfig, strands: Seq<StrandView>, field: Seq<char>, item: (u64, [u8; 8]))
    requires
        honest_indexes(cfg, strands),
        numbers_of(strands, field, strands.len()).contains(item),
    ensures
        numeric_entries(cfg, strands, field).contains(item),
{
    let lt = |a: (u64, [u8; 8]), b: (u64, [u8; 8])| number_less(a, b);
    assert(strict_weak_order(lt));
    let all = numbers_of(strands, field, strands.len());
    lemma_arrangement_exists(all, lt);
    lemma_sorted_same_members(all, arranged(all, lt), lt);
    if let Some(m) = cfg.global_range_indexes {
        if m@.dom().contains(field) {
            assert(stably_sorted(all, m@[field].entries@, lt));
            lemma_sorted_same_members(all, m@[field].entries@, lt);
        }
    }
}

/// Whether a strand is found by number wherever a range clause compares with one.
pub open spec fn plain_numbers(v: StrandView, g: GuideView) -> bool {
    forall|i: int|
        0 <= i < g.clauses.len() && (#[trigger] g.clauses[i]) is Range ==> holds_by_number(v, g.clauses[i])
}

/// Whether a strand has at most one readable value in the field of each range clause.
pub open spec fn single_valued(v: StrandView, g: GuideView) -> bool {
    forall|i: int|
        0 <= i < g.clauses.len() && (#[trigger] g.clauses[i]) is Range ==> values(v, g.clauses[i].field()).len() <= 1
}

/// Whether strands are found by number along a path: where a numeric index is asked, and where
/// a scan has metadata.
pub open spec fn asks_by_number(path: PathView, g: GuideView, strands: Seq<StrandView>, cfg: ScanConfig) -> bool {
    match path {
        PathView::Index { field } => if exact_rows(g, strands, cfg, field) is Some {
            false
        } else {
            has_metadata(cfg) || between_rows(g, strands, cfg, field) is Some || range_rows(g, strands, cfg, field) is Some
        },
        _ => has_metadata(cfg),
    }
}

/// What an exact or pattern clause on another field than the signature finds.
proof fn lemma_satisfied(v: StrandView, g: GuideView, i: int)
    requires
        no_signature_clause(g),
        truthful_hashes(v),
        matches_all(v, g),
        0 <= i < g.clauses.len(),
    ensures
        g.clauses[i] matches ClauseView::Exact { field, wire, .. } ==> has_value(v, field, wire),
        fast_match(g.clauses[i], v.introns),
{
    let c = g.clauses[i];
    let field = c.field();
    assert(satisfies(v, c, signature_only(g)));
    let k = choose|k: int| #[trigger] passes_at(c, values(v, field), k);
    let value = values(v, field)[k];
    lemma_values(v, field);
    assert(values(v, field).contains(value));
    assert(has_value(v, field, value));
    let at = choose|at: int| carries(v, field, at, value);
    assert(v.introns[at].field_name == field);
    if c is Exact {
        assert(value == c->Exact_wire);
        assert(v.introns[at].value_hash == fnv1a64_spec(value));
        assert(has_hash(v.introns, field, fnv1a64_spec(value)));
    } else {
        assert(has_field(v.introns, field));
    }
}

proof fn lemma_scan_finds(g: GuideView, strands: Seq<StrandView>, cfg: ScanConfig, m: int, seg: int)
    requires
        strands.len() <= usize::MAX,
        distinct_signatures(strands),
        honest_config(cfg, strands),
        0 <= m < strands.len(),
        covered(cfg, strands.len() as usize, m, seg),
        scoped(cfg.collection_id, strands[m]),
        no_signature_clause(g),
        truthful_hashes(strands[m]),
        matches_all(strands[m], g),
        has_metadata(cfg) ==> plain_numbers(strands[m], g),
    ensures
        scan_rows(g, strands, cfg).contains(strands[m]),
{
    assert forall|i: int| 0 <= i < g.clauses.len() implies fast_match(#[trigger] g.clauses[i], strands[m].introns) by {
        lemma_satisfied(strands[m], g, i);
    }
    if has_metadata(cfg) {
        assert forall|i: int| 0 <= i < g.clauses.len() implies holds_by_number(strands[m], #[trigger] g.clauses[i]) by {
            lemma_satisfied(strands[m], g, i);
        }
    }
    assert(all_fast_match(g, strands[m].introns));
    law_scan_reports_every_match(g, strands, cfg, m, seg);
    let sigs = scanned(g, strands, cfg);
    let q = sigs.index_of(strands[m].signature);
    lemma_found_contains(strands, sigs, sigs.len(), q, m);
}

proof fn lemma_first_exact(clauses: Seq<ClauseView>, k: int)
    requires
        0 <= k,
    ensures
        first_exact(clauses, k) matches Some(c) ==> c is Exact && exists|i: int|
            0 <= i < clauses.len() && #[trigger] clauses[i] == c,
    decreases clauses.len() - k,
{
    if k < clauses.len() && !(clauses[k] is Exact) {
        lemma_first_exact(clauses, k + 1);
    }
}

proof fn lemma_first_range(clauses: Seq<ClauseView>, k: int)
    requires
        0 <= k,
    ensures
        first_range(clauses, k) matches Some(c) ==> c is Range && exists|i: int|
            0 <= i < clauses.len() && #[trigger] clauses[i] == c,
    decreases clauses.len() - k,
{
    if k < clauses.len() && !(clauses[k] is Range) {
        lemma_first_range(clauses, k + 1);
    }
}

/// The number of the single readable value of a field.
proof fn lemma_single_number(v: StrandView, c: ClauseView) -> (w: (int, Seq<u8>))
    requires
        c is Range,
        holds_by_number(v, c),
        numeric_value(c->Range_wire) is Some,
    ensures
        carries(v, c.field(), w.0, w.1),
        numeric_value(w.1) is Some,
        number_in_range(numeric_value(w.1)->0, c->op, numeric_value(c->Range_wire)->0),
        values(v, c.field()).contains(w.1),
{
    let field = c->Range_field;
    let (i, value) = choose|i: int, value: Seq<u8>| #[trigger]
        carries(v, field, i, value) && numeric_value(value) is Some
            && number_in_range(numeric_value(value)->0, c->op, numeric_value(c->Range_wire)->0);
    lemma_values(v, field);
    assert(has_value(v, field, value));
    (i, value)
}

proof fn lemma_between_finds(g: GuideView, strands: Seq<StrandView>, cfg: ScanConfig, field: Seq<char>, m: int)
    requires
        distinct_signatures(strands),
        honest_indexes(cfg, strands),
        0 <= m < strands.len(),
        plain_numbers(strands[m], g),
        single_valued(strands[m], g),
        between(g, field) is Some,
    ensures
        between_rows(g, strands, cfg, field) matches Some(rows) && rows.contains(strands[m]),
{
    let v = strands[m];
    let (lo, hi) = between(g, field)->0;
    assert(g.clauses[0] is Range && g.clauses[1] is Range);
    let (i, x) = lemma_single_number(v, g.clauses[0]);
    let (j, y) = lemma_single_number(v, g.clauses[1]);
    assert(g.clauses[0].field() == field && g.clauses[1].field() == field);
    let all = values(v, field);
    assert(x == y) by {
        assert(all.contains(x) && all.contains(y));
        assert(all.len() <= 1);
        assert(all[all.index_of(x)] == x && all[all.index_of(y)] == y);
    }
    let n = numeric_value(x)->0;
    assert(lo <= n <= hi);
    lemma_number_entry(strands, field, strands.len(), m, i, x);
    let item = (n, v.signature);
    lemma_numeric_entries(cfg, strands, field, item);
    let entries = numeric_entries(cfg, strands, field);
    let k = entries.index_of(item);
    let keep = |w: u64| lo <= w <= hi;
    lemma_picked(entries, keep, k);
    let sigs = picked(entries, keep);
    let q = sigs.index_of(v.signature);
    lemma_found_contains(strands, sigs, sigs.len(), q, m);
}

proof fn lemma_range_finds(g: GuideView, strands: Seq<StrandView>, cfg: ScanConfig, field: Seq<char>, m: int)
    requires
        distinct_signatures(strands),
        honest_indexes(cfg, strands),
        0 <= m < strands.len(),
        plain_numbers(strands[m], g),
        range_rows(g, strands, cfg, field) is Some,
    ensures
        range_rows(g, strands, cfg, field) matches Some(rows) && rows.contains(strands[m]),
{
    let v = strands[m];
    lemma_first_range(g.clauses, 0);
    let c = first_range(g.clauses, 0)->0;
    let (i, x) = lemma_single_number(v, c);
    let op = c->op;
    let wire = c->Range_wire;
    let n = numeric_value(wire)->0;
    lemma_number_entry(strands, field, strands.len(), m, i, x);
    let item = (numeric_value(x)->0, v.signature);
    lemma_numeric_entries(cfg, strands, field, item);
    let entries = numeric_entries(cfg, strands, field);
    let k = entries.index_of(item);
    let keep = |w: u64| number_in_range(w, op, n);
    lemma_picked(entries, keep, k);
    let sigs = picked(entries, keep);
    let q = sigs.index_of(v.signature);
    lemma_found_contains(strands, sigs, sigs.len(), q, m);
}

proof fn lemma_exact_finds(g: GuideView, strands: Seq<StrandView>, cfg: ScanConfig, field: Seq<char>, m: int)
    requires
        distinct_signatures(strands),
        honest_indexes(cfg, strands),
        0 <= m < strands.len(),
        no_signature_clause(g),
        truthful_hashes(strands[m]),
        matches_all(strands[m], g),
        exact_rows(g, strands, cfg, field) is Some,
    ensures
        exact_rows(g, strands, cfg, field) matches Some(rows) && rows.contains(strands[m]),
{
    let v = strands[m];
    lemma_first_exact(g.clauses, 0);
    let c = first_exact(g.clauses, 0)->0;
    let i = choose|i: int| 0 <= i < g.clauses.len() && #[trigger] g.clauses[i] == c;
    lemma_satisfied(v, g, i);
    let wire = c->Exact_wire;
    assert(has_value(v, field, wire));
    lemma_index_entry(strands, field, strands.len(), m, wire);
    let entries = index_entries(strands, field, strands.len());
    let k = entries.index_of((wire, v.signature));
    lemma_posting(entries, wire, v.signature, k);
    let sigs = exact_signatures(cfg, strands, field, wire);
    assert(sigs == postings(entries, wire)) by {
        if let Some(m) = cfg.global_hash_indexes {
            if m@.dom().contains(field) {
                assert(indexes(m@[field].map@, entries));
                assert(listed(m@[field].map@, wire) == postings(entries, wire));
            }
        }
    }
    let q = sigs.index_of(v.signature);
    lemma_found_contains(strands, sigs, sigs.len(), q, m);
}

/// Without a limit, the answer holds every strand that satisfies every clause, whichever path
/// is taken: the planner and its memory change what a query costs, never what it answers. This
/// takes distinct signatures, hashes, metadata and indexes made from the strands themselves,
/// segments that cover them, and no clause on the signature. Where strands are found by number,
/// a range clause with a number must be met by a number, and a span by the only value.
pub proof fn law_answer_is_complete(
    path: PathView,
    g: GuideView,
    strands: Seq<StrandView>,
    cfg: ScanConfig,
    probing: bool,
    m: int,
    seg: int,
)
    requires
        strands.len() <= usize::MAX,
        distinct_signatures(strands),
        honest_config(cfg, strands),
        honest_indexes(cfg, strands),
        0 <= m < strands.len(),
        covered(cfg, strands.len() as usize, m, seg),
        scoped(cfg.collection_id, strands[m]),
        truthful_hashes(strands[m]),
        no_signature_clause(g),
        asks_by_number(path, g, strands, cfg) ==> plain_numbers(strands[m], g),
        path matches PathView::Index { field } && between(g, field) is Some ==> single_valued(strands[m], g),
        matches_all(strands[m], g),
        g.limit is None,
    ensures
        answer(path, g, strands, cfg, probing).contains(strands[m]),
{
    let v = strands[m];
    let base = base_rows(path, g, strands, cfg, probing);
    match path {
        PathView::Direct => {
            lemma_scan_finds(g, strands, cfg, m, seg);
            if g.clauses.len() > 0 {
                assert(g.clauses[0].field() != "_signature"@);
            }
            assert(signature_operand(g) is None);
        },
        PathView::Index { field } => {
            if exact_rows(g, strands, cfg, field) is Some {
                lemma_exact_finds(g, strands, cfg, field, m);
            } else if between_rows(g, strands, cfg, field) is Some {
                lemma_between_finds(g, strands, cfg, field, m);
            } else if range_rows(g, strands, cfg, field) is Some {
                lemma_range_finds(g, strands, cfg, field, m);
            } else {
                lemma_scan_finds(g, strands, cfg, m, seg);
            }
        },
        PathView::GuidedScan => {
            lemma_scan_finds(g, strands, cfg, m, seg);
        },
    }
    assert(base.contains(v));
    lemma_matching(base, g);
    lemma_ordered_members(matching(base, g), g);
}

/// A direct lookup by signature answers with the strand that has it, and with nothing when
/// there is none.
pub proof fn law_direct_lookup_is_exact(
    g: GuideView,
    strands: Seq<StrandView>,
    cfg: ScanConfig,
    probing: bool,
)
    requires
        distinct_signatures(strands),
        g.clauses.len() == 1,
        signature_operand(g) is Some,
        g.order_by is None,
        g.limit is None || g.limit == Some(1u32),
    ensures
        forall|m: int|
            0 <= m < strands.len() && (#[trigger] strands[m]).signature@ == signature_operand(g)->0 ==> answer(
                PathView::Direct,
                g,
                strands,
                cfg,
                probing,
            ) =~= seq![strands[m]],
        (forall|m: int| 0 <= m < strands.len() ==> (#[trigger] strands[m]).signature@ != signature_operand(g)->0)
            ==> answer(PathView::Direct, g, strands, cfg, probing).len() == 0,
{
    let wire = signature_operand(g)->0;
    let sig = signature_of(wire);
    let base = base_rows(PathView::Direct, g, strands, cfg, probing);
    let out = answer(PathView::Direct, g, strands, cfg, probing);
    assert forall|m: int| 0 <= m < strands.len() && (#[trigger] strands[m]).signature@ == wire implies out =~= seq![
        strands[m],
    ] by {
        assert(strands[m].signature@ == wire);
        lemma_same_signature(strands[m].signature, sig, wire);
        lemma_find_distinct(strands, m);
        lemma_probe(g, strands, m);
        assert(base =~= seq![strands[m]]);
        assert(satisfies(strands[m], g.clauses[0], signature_only(g)));
        assert(matches_all(strands[m], g));
        assert(base.drop_last() =~= Seq::<StrandView>::empty());
        assert(matching(base.drop_last(), g) =~= Seq::<StrandView>::empty());
        assert(matching(base, g) =~= seq![strands[m]]);
    }
    if forall|m: int| 0 <= m < strands.len() ==> (#[trigger] strands[m]).signature@ != wire {
        if out.len() > 0 {
            assert(out.contains(out[0]));
            law_answer_is_sound(PathView::Direct, g, strands, cfg, probing, out[0]);
            let m = strands.index_of(out[0]);
            assert(satisfies(strands[m], g.clauses[0], signature_only(g)));
            assert(strands[m].signature@ == wire);
        }
    }
}

proof fn lemma_same_signature(a: [u8; 8], b: [u8; 8], wire: Seq<u8>)
    requires
        a@ == wire,
        b == signature_of(wire),
    ensures
        a == b,
{
    assert(b@ == wire);
    assert forall|i: int| 0 <= i < 8 implies a[i] == b[i] by {
        assert(a@[i] == b@[i]);
    }
    assert(a =~= b);
}

/// Dead reckoning finds the strand itself or says nothing.
proof fn lemma_probe(g: GuideView, strands: Seq<StrandView>, m: int)
    requires
        distinct_signatures(strands),
        0 <= m < strands.len(),
        signature_operand(g) is Some,
        strands[m].signature@ == signature_operand(g)->0,
        strands[m].signature == signature_of(signature_operand(g)->0),
    ensures
        reckoned(g, strands) matches Some(rows) ==> rows =~= seq![strands[m]],
{
    let wire = signature_operand(g)->0;
    let sig = signature_of(wire);
    let first = from_le(strands[0].signature@) as int;
    let target = from_le(wire) as int;
    let near = if target - first >= strands.len() {
        strands.len() - 1
    } else {
        target - first
    };
    let from = if near < 64 {
        0
    } else {
        near - 64
    };
    let to = if near + 65 < strands.len() {
        near + 65
    } else {
        strands.len() as int
    };
    if target >= first {
        lemma_first_with(strands, sig, from, to);
    }
}

} // verus!
