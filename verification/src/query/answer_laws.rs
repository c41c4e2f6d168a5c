//! What the rows of an answer have to do with the clauses, the order and the limit of the query,
//! said of the bytes and the fields of the strands themselves.
use super::ast::SortDirection;
use super::codebook::FieldCompressionDictionary;
use super::fast_match::{all_fast_match, fast_match};
use super::fetch::{answer, base_rows, fetched, ordered, row_order};
use super::fetch_laws::{
    asks_by_number, distinct_signatures, honest_indexes, law_answer_is_complete,
    law_answer_is_ordered, law_answer_is_sound, no_signature_clause, plain_numbers,
    single_valued, truthful_hashes,
};
use super::fields::{carries, has_value};
use super::guide::{ClauseView, GuideView, RangeOp};
use super::like_util::like;
use super::matching::{
    in_range, lemma_values, matches_all, matching, passes_at, satisfies, signature_only,
    value_passes, values,
};
use super::plan_cache::QueryPlanner;
use super::planner::{between, PathView};
use super::scan::{
    candidates, clip, covered, has_blocks, hits, hits_in, honest_config, kept_blocks,
    kept_segments, scanned, scoped, segments, ScanConfig,
};
use super::segment::{clause_skips, skips, FieldStats, SegmentBlockMeta};
use crate::model::{IntronView, StrandView};
use crate::support::bytes::{from_le, lemma_lex_total, lex_less};
use crate::support::sort::{lemma_arrangement_exists, stable_order, strict_weak_order};
use crate::support::text::lossy_text;
use vstd::prelude::*;

verus! {

/// Whether `a` parts from `b` at the position `k`, and there comes first: the bytes before are
/// the same, and `a` ends there or has the lower byte.
pub open spec fn comes_first_at(a: Seq<u8>, b: Seq<u8>, k: int) -> bool {
    &&& 0 <= k <= a.len()
    &&& k < b.len()
    &&& forall|i: int| 0 <= i < k ==> #[trigger] a[i] == b[i]
    &&& k < a.len() ==> a[k] < b[k]
}

/// Whether `a` comes before `b` in a dictionary.
pub open spec fn comes_first(a: Seq<u8>, b: Seq<u8>) -> bool {
    exists|k: int| comes_first_at(a, b, k)
}

/// The order of byte strings is that of a dictionary.
pub proof fn law_bytes_are_ordered_as_in_a_dictionary(a: Seq<u8>, b: Seq<u8>)
    ensures
        lex_less(a, b) <==> comes_first(a, b),
    decreases a.len(),
{
    if a.len() > 0 && b.len() > 0 && a[0] == b[0] {
        let x = a.skip(1);
        let y = b.skip(1);
        law_bytes_are_ordered_as_in_a_dictionary(x, y);
        if lex_less(x, y) {
            let k = choose|k: int| comes_first_at(x, y, k);
            assert forall|i: int| 0 <= i < k + 1 implies #[trigger] a[i] == b[i] by {
                if i > 0 {
                    assert(x[i - 1] == y[i - 1]);
                }
            }
            assert(comes_first_at(a, b, k + 1));
        }
        if comes_first(a, b) {
            let k = choose|k: int| comes_first_at(a, b, k);
            assert forall|i: int| 0 <= i < k - 1 implies #[trigger] x[i] == y[i] by {
                assert(a[i + 1] == b[i + 1]);
            }
            assert(comes_first_at(x, y, k - 1));
        }
    } else if lex_less(a, b) {
        assert(comes_first_at(a, b, 0));
    } else if comes_first(a, b) {
        let k = choose|k: int| comes_first_at(a, b, k);
        if k > 0 {
            assert(a[0] == b[0]);
        }
    }
}

/// Each range operator is the relation that its name says, in dictionary order.
pub proof fn law_range_operators(value: Seq<u8>, wire: Seq<u8>)
    ensures
        in_range(value, RangeOp::LessThan, wire) <==> comes_first(value, wire),
        in_range(value, RangeOp::LessOrEqual, wire) <==> comes_first(value, wire) || value == wire,
        in_range(value, RangeOp::GreaterThan, wire) <==> comes_first(wire, value),
        in_range(value, RangeOp::GreaterOrEqual, wire) <==> comes_first(wire, value) || value == wire,
        in_range(value, RangeOp::NotEqual, wire) <==> value != wire,
        in_range(value, RangeOp::LessOrEqual, wire) <==> !in_range(value, RangeOp::GreaterThan, wire),
        in_range(value, RangeOp::GreaterOrEqual, wire) <==> !in_range(value, RangeOp::LessThan, wire),
        in_range(value, RangeOp::LessThan, wire) <==> in_range(wire, RangeOp::GreaterThan, value),
{
    law_bytes_are_ordered_as_in_a_dictionary(value, wire);
    law_bytes_are_ordered_as_in_a_dictionary(wire, value);
    lemma_lex_total(value, wire);
}

/// Whether a value stands to the operand of a clause as the clause says.
pub open spec fn stands_to(value: Seq<u8>, c: ClauseView) -> bool {
    match c {
        ClauseView::Exact { wire, .. } => value == wire,
        ClauseView::Range { op: RangeOp::LessThan, wire, .. } => comes_first(value, wire),
        ClauseView::Range { op: RangeOp::LessOrEqual, wire, .. } => comes_first(value, wire) || value == wire,
        ClauseView::Range { op: RangeOp::GreaterThan, wire, .. } => comes_first(wire, value),
        ClauseView::Range { op: RangeOp::GreaterOrEqual, wire, .. } => comes_first(wire, value) || value == wire,
        ClauseView::Range { op: RangeOp::NotEqual, wire, .. } => value != wire,
        ClauseView::Like { pattern, .. } => like(lossy_text(value), pattern),
    }
}

/// Whether a strand meets a clause: an exact clause on the signature is met by the strand's
/// own, any other clause by a value that an intron of the field carries.
pub open spec fn meets(v: StrandView, c: ClauseView) -> bool {
    if c is Exact && c.field() == "_signature"@ {
        v.signature@ == c->Exact_wire
    } else {
        exists|i: int, value: Seq<u8>| #[trigger] carries(v, c.field(), i, value) && stands_to(value, c)
    }
}

/// A value passes a clause exactly when it stands to the operand as the clause says.
pub proof fn law_clause_compares_with_its_operand(c: ClauseView, value: Seq<u8>)
    ensures
        value_passes(c, value) <==> stands_to(value, c),
{
    if let ClauseView::Range { wire, .. } = c {
        law_range_operators(value, wire);
    }
}

proof fn lemma_satisfied_is_met(v: StrandView, c: ClauseView, bare: bool)
    ensures
        satisfies(v, c, bare) ==> meets(v, c),
        c.field() != "_signature"@ || c is Exact ==> (satisfies(v, c, bare) <==> meets(v, c)),
{
    let field = c.field();
    let vals = values(v, field);
    lemma_values(v, field);
    if !(c is Exact && field == "_signature"@) {
        if satisfies(v, c, bare) {
            let k = choose|k: int| #[trigger] passes_at(c, vals, k);
            law_clause_compares_with_its_operand(c, vals[k]);
            assert(vals.contains(vals[k]));
            assert(has_value(v, field, vals[k]));
            let i = choose|i: int| carries(v, field, i, vals[k]);
            assert(carries(v, field, i, vals[k]));
        }
        if meets(v, c) && field != "_signature"@ {
            let (i, value) = choose|i: int, value: Seq<u8>| #[trigger] carries(v, field, i, value) && stands_to(value, c);
            law_clause_compares_with_its_operand(c, value);
            assert(has_value(v, field, value));
            assert(vals.contains(value));
            let k = vals.index_of(value);
            assert(passes_at(c, vals, k));
        }
    }
}

/// A strand satisfies a query exactly when it meets each clause, where clauses on the signature
/// are exact.
pub proof fn law_matching_is_meeting_every_clause(v: StrandView, g: GuideView)
    requires
        forall|i: int|
            0 <= i < g.clauses.len() ==> (#[trigger] g.clauses[i]).field() != "_signature"@ || g.clauses[i] is Exact,
    ensures
        matches_all(v, g) <==> forall|i: int| 0 <= i < g.clauses.len() ==> meets(v, #[trigger] g.clauses[i]),
{
    assert forall|i: int| 0 <= i < g.clauses.len() implies (satisfies(
        v,
        #[trigger] g.clauses[i],
        signature_only(g),
    ) <==> meets(v, g.clauses[i])) by {
        lemma_satisfied_is_met(v, g.clauses[i], signature_only(g));
    }
    if matches_all(v, g) {
        assert forall|i: int| 0 <= i < g.clauses.len() implies meets(v, #[trigger] g.clauses[i]) by {
            assert(satisfies(v, g.clauses[i], signature_only(g)));
        }
    }
    if forall|i: int| 0 <= i < g.clauses.len() ==> meets(v, #[trigger] g.clauses[i]) {
        assert forall|i: int| 0 <= i < g.clauses.len() implies satisfies(
            v,
            #[trigger] g.clauses[i],
            signature_only(g),
        ) by {
            assert(meets(v, g.clauses[i]));
        }
    }
}

/// Every row that a query is answered with is one of the strands and meets every clause, and
/// there are no more rows than the limit allows.
pub proof fn law_fetched_rows_meet_every_clause(
    before: QueryPlanner,
    after: QueryPlanner,
    g: GuideView,
    strands: Seq<StrandView>,
    cfg: ScanConfig,
    probing: bool,
    rows: Seq<StrandView>,
    i: int,
    k: int,
)
    requires
        fetched(before, after, g, strands, cfg, probing, rows),
        0 <= i < rows.len(),
    ensures
        strands.contains(rows[i]),
        0 <= k < g.clauses.len() ==> meets(rows[i], g.clauses[k]),
        g.limit matches Some(n) ==> rows.len() <= n,
{
    let path = choose|path: PathView| rows == #[trigger] answer(path, g, strands, cfg, probing);
    assert(rows.contains(rows[i]));
    law_answer_is_sound(path, g, strands, cfg, probing, rows[i]);
    if 0 <= k < g.clauses.len() {
        assert(satisfies(rows[i], g.clauses[k], signature_only(g)));
        lemma_satisfied_is_met(rows[i], g.clauses[k], signature_only(g));
    }
}

/// A row of an answer whose field carries one value has a value that stands to the operand as the
/// clause says: no row for `<=` has one that comes behind the operand, and so for the others.
pub proof fn law_values_of_rows_stand_to_the_operand(
    before: QueryPlanner,
    after: QueryPlanner,
    g: GuideView,
    strands: Seq<StrandView>,
    cfg: ScanConfig,
    probing: bool,
    rows: Seq<StrandView>,
    i: int,
    k: int,
    at: int,
    value: Seq<u8>,
)
    requires
        fetched(before, after, g, strands, cfg, probing, rows),
        0 <= i < rows.len(),
        0 <= k < g.clauses.len(),
        g.clauses[k] is Range,
        carries(rows[i], g.clauses[k].field(), at, value),
        forall|j: int, w: Seq<u8>| #[trigger] carries(rows[i], g.clauses[k].field(), j, w) ==> w == value,
    ensures
        ({
            let wire = g.clauses[k]->Range_wire;
            match g.clauses[k]->op {
                RangeOp::LessThan => comes_first(value, wire),
                RangeOp::LessOrEqual => !comes_first(wire, value),
                RangeOp::GreaterThan => comes_first(wire, value),
                RangeOp::GreaterOrEqual => !comes_first(value, wire),
                RangeOp::NotEqual => value != wire,
            }
        }),
{
    law_fetched_rows_meet_every_clause(before, after, g, strands, cfg, probing, rows, i, k);
    let c = g.clauses[k];
    let (j, w) = choose|j: int, w: Seq<u8>| #[trigger] carries(rows[i], c.field(), j, w) && stands_to(w, c);
    assert(w == value);
    law_range_operators(value, c->Range_wire);
}

/// Without a limit, every strand that meets every clause is among the rows, along whichever
/// path: a strand is answered exactly when it meets the clauses. What this takes of strands and
/// configuration is what the completeness of an answer takes.
pub proof fn law_answer_is_the_strands_that_meet_the_clauses(
    path: PathView,
    g: GuideView,
    strands: Seq<StrandView>,
    cfg: ScanConfig,
    probing: bool,
    m: int,
    seg: int,
)
    requires
        strands.len() <= usize::MAX,
        distinct_signatures(strands),
        honest_config(cfg, strands),
        honest_indexes(cfg, strands),
        0 <= m < strands.len(),
        covered(cfg, strands.len() as usize, m, seg),
        scoped(cfg.collection_id, strands[m]),
        truthful_hashes(strands[m]),
        no_signature_clause(g),
        asks_by_number(path, g, strands, cfg) ==> plain_numbers(strands[m], g),
        path matches PathView::Index { field } && between(g, field) is Some ==> single_valued(strands[m], g),
        g.limit is None,
    ensures
        answer(path, g, strands, cfg, probing).contains(strands[m]) <==> forall|i: int|
            0 <= i < g.clauses.len() ==> meets(strands[m], #[trigger] g.clauses[i]),
{
    law_matching_is_meeting_every_clause(strands[m], g);
    if matches_all(strands[m], g) {
        law_answer_is_complete(path, g, strands, cfg, probing, m, seg);
    }
    if answer(path, g, strands, cfg, probing).contains(strands[m]) {
        law_answer_is_sound(path, g, strands, cfg, probing, strands[m]);
    }
}

/// Whether two numbers stand in a direction: they do not fall, or do not rise.
pub open spec fn in_direction(a: u64, b: u64, dir: SortDirection) -> bool {
    match dir {
        SortDirection::Asc => a <= b,
        SortDirection::Desc => a >= b,
    }
}

proof fn lemma_header_fields_differ()
    ensures
        "version"@ != "created_at"@,
        "version"@ != "updated_at"@,
        "created_at"@ != "updated_at"@,
{
    reveal_strlit("version");
    reveal_strlit("created_at");
    reveal_strlit("updated_at");
    assert("version"@.len() != "created_at"@.len());
    assert("version"@.len() != "updated_at"@.len());
    assert("created_at"@[0] != "updated_at"@[0]);
}

/// The rows of an ordered query stand in the order of the field that it names: the version, the
/// time of creation or the time of the last update; under any other name, in the order of the
/// signatures as little-endian numbers.
pub proof fn law_fetched_rows_are_in_order(
    before: QueryPlanner,
    after: QueryPlanner,
    g: GuideView,
    strands: Seq<StrandView>,
    cfg: ScanConfig,
    probing: bool,
    rows: Seq<StrandView>,
    field: Seq<char>,
    dir: SortDirection,
    i: int,
    j: int,
)
    requires
        fetched(before, after, g, strands, cfg, probing, rows),
        g.order_by == Some((field, dir)),
        0 <= i < j < rows.len(),
    ensures
        field == "version"@ ==> in_direction(rows[i].version, rows[j].version, dir),
        field == "created_at"@ ==> in_direction(rows[i].created_at, rows[j].created_at, dir),
        field == "updated_at"@ ==> in_direction(rows[i].updated_at, rows[j].updated_at, dir),
        field != "version"@ && field != "created_at"@ && field != "updated_at"@ ==> in_direction(
            from_le(rows[i].signature@) as u64,
            from_le(rows[j].signature@) as u64,
            dir,
        ),
{
    let path = choose|path: PathView| rows == #[trigger] answer(path, g, strands, cfg, probing);
    law_answer_is_ordered(path, g, strands, cfg, probing, field, dir, i, j);
    lemma_header_fields_differ();
}

/// A query, the same without its order and limit.
pub open spec fn plain(g: GuideView) -> GuideView {
    GuideView { order_by: None, limit: None, ..g }
}

/// The order and the limit of a query change nothing else of its answer: it is the answer of
/// the query without them, rearranged and cut off. Rows that the order does not tell apart keep
/// their places.
pub proof fn law_ordering_rearranges_and_limit_cuts_off(
    path: PathView,
    g: GuideView,
    strands: Seq<StrandView>,
    cfg: ScanConfig,
    probing: bool,
)
    ensures
        ({
            let all = answer(path, plain(g), strands, cfg, probing);
            let out = answer(path, g, strands, cfg, probing);
            &&& out.len() == (match g.limit {
                Some(n) => if all.len() < n { all.len() } else { n as nat },
                None => all.len(),
            })
            &&& g.order_by is None ==> out =~= all.take(out.len() as int)
            &&& exists|p: Seq<int>| #[trigger] takes_in_turn(all, out, p, g.order_by is Some)
        }),
        forall|field: Seq<char>, dir: SortDirection|
            g.order_by == Some((field, dir)) ==> exists|p: Seq<int>| #[trigger]
                takes_in_turn(
                    answer(path, plain(g), strands, cfg, probing),
                    answer(path, g, strands, cfg, probing),
                    p,
                    true,
                ) && forall|i: int, j: int|
                    #![trigger p[i], p[j]]
                    0 <= i < j < answer(path, g, strands, cfg, probing).len() && !row_order(field, dir)(
                        answer(path, g, strands, cfg, probing)[i],
                        answer(path, g, strands, cfg, probing)[j],
                    ) ==> p[i] < p[j],
{
    lemma_base_is_plain(path, g, strands, cfg, probing);
    let all = answer(path, plain(g), strands, cfg, probing);
    let out = answer(path, g, strands, cfg, probing);
    let rows = matching(base_rows(path, g, strands, cfg, probing), g);
    assert(all == rows);
    let full = ordered(rows, g);
    match g.order_by {
        None => {
            let p = Seq::new(out.len(), |i: int| i);
            assert(takes_in_turn(all, out, p, false));
        },
        Some((field, dir)) => {
            let lt = row_order(field, dir);
            assert(strict_weak_order(lt));
            lemma_arrangement_exists(rows, lt);
            let q = choose|q: Seq<int>| stable_order(rows, full, q, lt);
            let p = q.take(out.len() as int);
            assert forall|i: int| 0 <= i < out.len() implies 0 <= p[i] < all.len() && #[trigger] out[i] == all[p[i]] by {
                assert(out[i] == full[i]);
                assert(p[i] == q[i]);
            }
            assert(takes_in_turn(all, out, p, true));
            assert forall|i: int, j: int|
                #![trigger p[i], p[j]]
                0 <= i < j < out.len() && !lt(out[i], out[j]) implies p[i] < p[j] by {
                assert(out[i] == full[i] && out[j] == full[j]);
                assert(p[i] == q[i] && p[j] == q[j]);
            }
        },
    }
}

/// Whether `out` takes rows of `all`, each from the place that `p` names and none twice; in
/// their order, unless they may be rearranged.
pub open spec fn takes_in_turn(all: Seq<StrandView>, out: Seq<StrandView>, p: Seq<int>, rearranged: bool) -> bool {
    &&& p.len() == out.len()
    &&& p.no_duplicates()
    &&& forall|i: int| 0 <= i < out.len() ==> 0 <= p[i] < all.len() && #[trigger] out[i] == all[p[i]]
    &&& !rearranged ==> forall|i: int| 0 <= i < out.len() ==> #[trigger] p[i] == i
}

proof fn lemma_skips_is_plain(g: GuideView)
    ensures
        forall|stats: Map<u64, FieldStats>, books: Option<Map<u64, FieldCompressionDictionary>>| #[trigger]
            skips(stats, books, plain(g)) == skips(stats, books, g),
        forall|introns: Seq<IntronView>| #[trigger] all_fast_match(plain(g), introns) == all_fast_match(g, introns),
{
    assert forall|stats: Map<u64, FieldStats>, books: Option<Map<u64, FieldCompressionDictionary>>| #[trigger]
        skips(stats, books, plain(g)) == skips(stats, books, g) by {
        if skips(stats, books, plain(g)) {
            let i = choose|i: int| 0 <= i < g.clauses.len() && clause_skips(stats, books, #[trigger] plain(g).clauses[i]);
            assert(clause_skips(stats, books, g.clauses[i]));
        }
        if skips(stats, books, g) {
            let i = choose|i: int| 0 <= i < g.clauses.len() && clause_skips(stats, books, #[trigger] g.clauses[i]);
            assert(clause_skips(stats, books, plain(g).clauses[i]));
        }
    }
    assert forall|introns: Seq<IntronView>| #[trigger] all_fast_match(plain(g), introns) == all_fast_match(
        g,
        introns,
    ) by {
        if all_fast_match(plain(g), introns) {
            assert forall|i: int| 0 <= i < g.clauses.len() implies fast_match(#[trigger] g.clauses[i], introns) by {
                assert(fast_match(plain(g).clauses[i], introns));
            }
        }
    }
}

proof fn lemma_kept_blocks_are_plain(
    metas: Seq<SegmentBlockMeta>,
    blocks: Seq<(usize, usize)>,
    g: GuideView,
    seg: (usize, usize),
    n: usize,
    k: nat,
)
    ensures
        kept_blocks(metas, blocks, plain(g), seg, n, k) == kept_blocks(metas, blocks, g, seg, n, k),
    decreases k,
{
    if k > 0 {
        lemma_kept_blocks_are_plain(metas, blocks, g, seg, n, (k - 1) as nat);
        lemma_skips_is_plain(g);
    }
}

proof fn lemma_kept_segments_are_plain(cfg: ScanConfig, g: GuideView, n: usize, k: nat)
    ensures
        kept_segments(cfg, plain(g), n, k) == kept_segments(cfg, g, n, k),
    decreases k,
{
    if k > 0 {
        lemma_kept_segments_are_plain(cfg, g, n, (k - 1) as nat);
        lemma_skips_is_plain(g);
        if has_blocks(cfg, k - 1) {
            lemma_kept_blocks_are_plain(
                cfg.segment_block_metas->0@[k - 1]@,
                cfg.segment_block_ranges->0@[k - 1]@,
                g,
                segments(cfg, n)[k - 1],
                n,
                cfg.segment_block_ranges->0@[k - 1]@.len(),
            );
        }
    }
}

proof fn lemma_hits_are_plain(g: GuideView, id: Option<u32>, strands: Seq<StrandView>, from: int, to: int)
    ensures
        hits(plain(g), id, strands, from, to) == hits(g, id, strands, from, to),
    decreases to - from,
{
    if to > from {
        lemma_hits_are_plain(g, id, strands, from, to - 1);
        lemma_skips_is_plain(g);
    }
}

proof fn lemma_hits_in_are_plain(
    g: GuideView,
    id: Option<u32>,
    strands: Seq<StrandView>,
    ranges: Seq<(usize, usize)>,
    k: nat,
)
    ensures
        hits_in(plain(g), id, strands, ranges, k) == hits_in(g, id, strands, ranges, k),
    decreases k,
{
    if k > 0 {
        lemma_hits_in_are_plain(g, id, strands, ranges, (k - 1) as nat);
        let n = strands.len() as usize;
        lemma_hits_are_plain(
            g,
            id,
            strands,
            clip(ranges[k - 1].0 as int, n) as int,
            clip(ranges[k - 1].1 as int, n) as int,
        );
    }
}

proof fn lemma_base_is_plain(path: PathView, g: GuideView, strands: Seq<StrandView>, cfg: ScanConfig, probing: bool)
    ensures
        base_rows(path, plain(g), strands, cfg, probing) == base_rows(path, g, strands, cfg, probing),
        matching(base_rows(path, g, strands, cfg, probing), plain(g)) == matching(
            base_rows(path, g, strands, cfg, probing),
            g,
        ),
{
    lemma_matching_is_plain(base_rows(path, g, strands, cfg, probing), g);
    let n = strands.len() as usize;
    lemma_kept_segments_are_plain(cfg, g, n, segments(cfg, n).len());
    let ranges = candidates(cfg, g, n);
    lemma_hits_in_are_plain(g, cfg.collection_id, strands, ranges, ranges.len());
    assert(scanned(plain(g), strands, cfg) == scanned(g, strands, cfg));
}

proof fn lemma_matching_is_plain(rows: Seq<StrandView>, g: GuideView)
    ensures
        matching(rows, plain(g)) == matching(rows, g),
    decreases rows.len(),
{
    if rows.len() > 0 {
        lemma_matching_is_plain(rows.drop_last(), g);
        assert(signature_only(plain(g)) == signature_only(g));
        assert(matches_all(rows.last(), plain(g)) == matches_all(rows.last(), g));
    }
}

} // verus!
