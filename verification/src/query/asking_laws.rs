//! Calls that ask: queries, lookups, matches and skips, said of what is handed in and comes back.
use super::answer_laws::{
    in_direction, law_answer_is_the_strands_that_meet_the_clauses,
    law_fetched_rows_are_in_order, law_fetched_rows_meet_every_clause,
    law_matching_is_meeting_every_clause, meets,
};
use super::ast::{QueryAst, QueryLiteral, SortDirection, WhereOp};
use super::bloom::{law_added_value_is_found, BloomFilter};
use super::compile::{compile_query, CompileError};
use super::fetch::{
    answer, fetch, fetch_one, fetch_with_includes, FetchResult, FetchWithIncludes, QuerySession,
};
use super::fetch_laws::{
    distinct_signatures, honest_indexes, no_signature_clause, plain_numbers, single_valued,
    truthful_hashes,
};
use super::fields::carries;
use super::find_laws::{
    law_one_name_leads_to_what_the_root_refers_to, law_projection_holds_the_first_values,
    law_signature_stands_for_the_last_strand,
};
use super::guide::{GuidePattern, RangeOp};
use super::index::{GlobalHashIndex, GlobalRangeIndex};
use super::like_util::{law_like_is_laying_along, lies_along, like_matches};
use super::literal::{as_numeric_u64, law_literal_round_trip, literal_wire, read_literal};
use super::matching::{matches_all_clauses, project_rows, ProjectedRow};
use super::plan_cache::QueryPlanCache;
use super::plan_laws::{
    law_exact_index_lists_the_strands_with_a_value, law_numeric_index_finds_the_strands_in_range,
    number_stands_to,
};
use super::planner::{PathView, QueryPath};
use super::scan::{
    covered, honest_config, scan_strands, scan_strands_parallel, scan_strands_sequential, scoped,
    ScanConfig,
};
use super::segment::{
    should_skip_segment, should_skip_segment_bloom_only, SegmentMeta,
};
use super::signatures::{resolve_include_path, strand_by_signature, SignatureIndex};
use super::write_read_laws::{asks_for_payload, law_payload_is_not_skipped, logged_entry};
use crate::model::{strand_views, Strand};
use crate::support::bytes::from_le;
use crate::support::str_set::StrSet;
use vstd::prelude::*;

verus! {

/// The rows that are fetched are among the strands, meet every clause, stand in the order of the
/// field that is asked for, and are no more than the limit.
pub proof fn law_fetching<'a>(
    session: &mut QuerySession,
    pattern: &GuidePattern,
    strands: &'a [Strand],
    config: &ScanConfig,
    r: FetchResult<'a>,
    i: int,
    j: int,
    k: int,
    field: Seq<char>,
    dir: SortDirection,
)
    requires
        call_ensures(fetch, (session, pattern, strands, config), r),
        0 <= i < j < r.rows@.len(),
        pattern@.order_by is Some ==> pattern@.order_by == Some((field, dir)),
    ensures
        strand_views(strands@).contains(r.rows@[i]@),
        0 <= k < pattern@.clauses.len() ==> meets(r.rows@[i]@, pattern@.clauses[k]) && meets(
            r.rows@[j]@,
            pattern@.clauses[k],
        ),
        pattern@.limit matches Some(n) ==> r.rows@.len() <= n,
        pattern@.order_by is Some && field == "version"@ ==> in_direction(r.rows@[i].version, r.rows@[j].version, dir),
        pattern@.order_by is Some && field == "created_at"@ ==> in_direction(
            r.rows@[i].created_at,
            r.rows@[j].created_at,
            dir,
        ),
        pattern@.order_by is Some && field == "updated_at"@ ==> in_direction(
            r.rows@[i].updated_at,
            r.rows@[j].updated_at,
            dir,
        ),
        pattern@.order_by is Some && field != "version"@ && field != "created_at"@ && field != "updated_at"@
            ==> in_direction(
            from_le(r.rows@[i].signature@) as u64,
            from_le(r.rows@[j].signature@) as u64,
            dir,
        ),
{
    let rows = super::matching::row_views(r.rows@);
    let views = strand_views(strands@);
    let before = old(session).planner;
    let after = final(session).planner;
    law_fetched_rows_meet_every_clause(before, after, pattern@, views, *config, true, rows, i, k);
    law_fetched_rows_meet_every_clause(before, after, pattern@, views, *config, true, rows, j, k);
    if pattern@.order_by is Some {
        law_fetched_rows_are_in_order(before, after, pattern@, views, *config, true, rows, field, dir, i, j);
    }
}

/// A single row that is fetched meets every clause.
pub proof fn law_fetching_a_row<'a>(
    session: &mut QuerySession,
    pattern: &GuidePattern,
    strands: &'a [Strand],
    config: &ScanConfig,
    r: FetchResult<'a>,
    i: int,
    k: int,
)
    requires
        call_ensures(fetch, (session, pattern, strands, config), r),
        0 <= i < r.rows@.len(),
        0 <= k < pattern@.clauses.len(),
    ensures
        strand_views(strands@).contains(r.rows@[i]@),
        meets(r.rows@[i]@, pattern@.clauses[k]),
        pattern@.limit != Some(0u32),
{
    let rows = super::matching::row_views(r.rows@);
    law_fetched_rows_meet_every_clause(
        old(session).planner,
        final(session).planner,
        pattern@,
        strand_views(strands@),
        *config,
        true,
        rows,
        i,
        k,
    );
}

/// Without a limit, a strand is fetched exactly where it meets every clause. What this takes of
/// strands and configuration is what the completeness of an answer takes.
pub proof fn law_fetching_finds_what_meets_the_clauses<'a>(
    session: &mut QuerySession,
    pattern: &GuidePattern,
    strands: &'a [Strand],
    config: &ScanConfig,
    r: FetchResult<'a>,
    m: int,
    seg: int,
)
    requires
        call_ensures(fetch, (session, pattern, strands, config), r),
        strands@.len() <= usize::MAX,
        distinct_signatures(strand_views(strands@)),
        honest_config(*config, strand_views(strands@)),
        honest_indexes(*config, strand_views(strands@)),
        0 <= m < strands@.len(),
        covered(*config, strands@.len() as usize, m, seg),
        scoped(config.collection_id, strands@[m]@),
        truthful_hashes(strands@[m]@),
        no_signature_clause(pattern@),
        plain_numbers(strands@[m]@, pattern@),
        single_valued(strands@[m]@, pattern@),
        pattern@.limit is None,
    ensures
        (exists|i: int| 0 <= i < r.rows@.len() && (#[trigger] r.rows@[i])@ == strands@[m]@) <==> forall|k: int|
            0 <= k < pattern@.clauses.len() ==> meets(strands@[m]@, #[trigger] pattern@.clauses[k]),
{
    let rows = super::matching::row_views(r.rows@);
    let views = strand_views(strands@);
    let path = choose|path: PathView| rows == #[trigger] answer(path, pattern@, views, *config, true);
    law_answer_is_the_strands_that_meet_the_clauses(path, pattern@, views, *config, true, m, seg);
    if rows.contains(views[m]) {
        let i = rows.index_of(views[m]);
        assert(r.rows@[i]@ == strands@[m]@);
    }
    if exists|i: int| 0 <= i < r.rows@.len() && (#[trigger] r.rows@[i])@ == strands@[m]@ {
        let i = choose|i: int| 0 <= i < r.rows@.len() && (#[trigger] r.rows@[i])@ == strands@[m]@;
        assert(rows[i] == views[m]);
    }
}

/// The one row that is fetched meets every clause.
pub proof fn law_fetching_one<'a>(
    session: &mut QuerySession,
    pattern: &GuidePattern,
    strands: &'a [Strand],
    config: &ScanConfig,
    r: Option<&'a Strand>,
    k: int,
)
    requires
        call_ensures(fetch_one, (session, pattern, strands, config), r),
        r is Some,
        0 <= k < pattern@.clauses.len(),
    ensures
        strand_views(strands@).contains(r->0@),
        meets(r->0@, pattern@.clauses[k]),
{
    let rows = choose|rows: Seq<crate::model::StrandView>| #[trigger]
        super::fetch::fetched(
            old(session).planner,
            final(session).planner,
            pattern@,
            strand_views(strands@),
            *config,
            true,
            rows,
        ) && rows.len() > 0 && r->0@ == rows[0];
    law_fetched_rows_meet_every_clause(
        old(session).planner,
        final(session).planner,
        pattern@,
        strand_views(strands@),
        *config,
        true,
        rows,
        0,
        k,
    );
}

/// A row that is fetched with its related strands meets every clause, and has, for each path that
/// is asked for, the strands that the path leads to: those that the row refers to by a path of one
/// name.
pub proof fn law_fetching_with_related_strands<'a>(
    session: &mut QuerySession,
    pattern: &GuidePattern,
    strands: &'a [Strand],
    config: &ScanConfig,
    r: FetchWithIncludes<'a>,
    i: int,
    k: int,
    t: crate::model::StrandView,
)
    requires
        call_ensures(fetch_with_includes, (session, pattern, strands, config), r),
        0 <= i < r.rows@.len(),
        0 <= k < pattern@.includes.len(),
        pattern@.includes[k].len() > 0,
        !pattern@.includes[k].contains('.'),
    ensures
        strand_views(strands@).contains(r.rows@[i].root@),
        r.rows@[i].included@.len() == pattern@.includes.len(),
        r.rows@[i].included@[k].0@ == pattern@.includes[k],
        super::matching::row_views(r.rows@[i].included@[k].1@).contains(t) <==> exists|n: int|
            #![trigger r.rows@[i].root@.introns[n]]
            0 <= n < r.rows@[i].root@.introns.len() && r.rows@[i].root@.introns[n].field_name == pattern@.includes[k]
                && r.rows@[i].root@.introns[n].references_strand is Some && super::signatures::find(
                strand_views(strands@),
                r.rows@[i].root@.introns[n].references_strand->0,
            ) == Some(t),
{
    let rows = super::fetch::root_views(r.rows@);
    let views = strand_views(strands@);
    law_fetched_rows_meet_every_clause(
        old(session).planner,
        final(session).planner,
        pattern@,
        views,
        *config,
        true,
        rows,
        i,
        0,
    );
    assert(super::fetch::includes_of(r.rows@[i], pattern@.includes, views));
    law_one_name_leads_to_what_the_root_refers_to(views, r.rows@[i].root@, pattern@.includes[k], t);
}

/// A strand matches a pattern exactly where it meets each of its clauses.
pub proof fn law_matching_a_strand(strand: &Strand, pattern: &GuidePattern, r: bool)
    requires
        call_ensures(matches_all_clauses, (strand, pattern), r),
        no_signature_clause(pattern@),
    ensures
        r <==> forall|i: int| 0 <= i < pattern@.clauses.len() ==> meets(strand@, #[trigger] pattern@.clauses[i]),
{
    law_matching_is_meeting_every_clause(strand@, pattern@);
}

/// A text matches a pattern exactly where the pattern can be laid along it.
pub proof fn law_matching_a_text(value: &str, pattern: &str, r: bool)
    requires
        call_ensures(like_matches, (value, pattern), r),
    ensures
        r <==> exists|cuts: Seq<int>| lies_along(value@, pattern@, cuts),
{
    law_like_is_laying_along(value@, pattern@);
}

/// Scans find the same, in the same order, whether or not they are spread over threads.
pub proof fn law_scans_agree(
    pattern: &GuidePattern,
    strands: &[Strand],
    config: &ScanConfig,
    a: Vec<[u8; 8]>,
    b: Vec<[u8; 8]>,
    c: Vec<[u8; 8]>,
)
    requires
        call_ensures(scan_strands, (pattern, strands, config), a),
        call_ensures(scan_strands_sequential, (pattern, strands, config), b),
        call_ensures(scan_strands_parallel, (pattern, strands, config), c),
    ensures
        a@ == b@,
        b@ == c@,
{
}

/// A query is refused for want of a collection, or for a `LIKE` without a text; any other is
/// compiled, with a clause for each constraint.
pub proof fn law_compiling(ast: &QueryAst, overlay: Option<String>, r: Result<GuidePattern, CompileError>, i: int)
    requires
        call_ensures(compile_query, (ast, overlay), r),
    ensures
        ast.collection@.len() == 0 ==> r is Err,
        r is Ok <==> ast.collection@.len() > 0 && forall|k: int|
            #![trigger ast.wheres@[k]]
            0 <= k < ast.wheres@.len() ==> ast.wheres@[k].op != WhereOp::Like || ast.wheres@[k].value@ is String,
        r matches Ok(g) ==> {
            &&& g@.collection == ast.collection@
            &&& g@.clauses.len() == ast.wheres@.len()
            &&& 0 <= i < ast.wheres@.len() ==> g@.clauses[i].field() == ast.wheres@[i].field@
            &&& g@.limit == ast.limit
        },
{
    if r is Ok {
        assert forall|k: int|
            #![trigger ast.wheres@[k]]
            0 <= k < ast.wheres@.len() implies ast.wheres@[k].op != WhereOp::Like || ast.wheres@[k].value@ is String by {
            assert(super::compile::nth_clause(*ast, k) == Some(r->Ok_0@.clauses[k]));
        }
        if 0 <= i < ast.wheres@.len() {
            assert(super::compile::nth_clause(*ast, i) == Some(r->Ok_0@.clauses[i]));
        }
    } else if ast.collection@.len() > 0 {
        let k = choose|k: int| #[trigger] super::compile::first_refused(*ast, k);
        assert(super::compile::nth_clause(*ast, k) is None);
        assert(ast.wheres@[k].op == WhereOp::Like && !(ast.wheres@[k].value@ is String));
    }
}

/// A constraint that is added stands behind the others as it was given.
pub proof fn law_adding_a_constraint(q: QueryAst, field: &str, op: WhereOp, value: QueryLiteral, r: QueryAst, i: int)
    requires
        call_ensures(QueryAst::where_field, (q, field, op, value), r),
    ensures
        r.wheres@.len() == q.wheres@.len() + 1,
        r.wheres@[q.wheres@.len() as int].field@ == field@,
        r.wheres@[q.wheres@.len() as int].op == op,
        r.wheres@[q.wheres@.len() as int].value == value,
        0 <= i < q.wheres@.len() ==> r.wheres@[i] == q.wheres@[i],
        r.collection@ == q.collection@,
        r.limit == q.limit,
{
    if 0 <= i < q.wheres@.len() {
        assert(r.wheres@.drop_last()[i] == r.wheres@[i]);
    }
}

/// A literal that was written is read back.
pub proof fn law_writing_and_reading_a_literal(
    lit: &QueryLiteral,
    b: Vec<u8>,
    bytes: &[u8],
    r: Option<QueryLiteral>,
    number: Option<u64>,
)
    requires
        call_ensures(literal_wire, (lit,), Ok(b)),
        bytes@ == b@,
        call_ensures(read_literal, (bytes,), r),
        call_ensures(as_numeric_u64, (bytes,), number),
        lit matches QueryLiteral::String(s) ==> vstd::utf8::encode_utf8(s@).len() <= u64::MAX,
    ensures
        r is Some,
        r->0@ == lit@,
        lit matches QueryLiteral::U64(n) ==> number == Some(*n),
        lit matches QueryLiteral::I64(n) ==> (*n < 0 ==> number is None) && (*n >= 0 ==> number == Some(*n as u64)),
        lit is String || lit is Bool || lit is F64 ==> number is None,
{
    law_literal_round_trip(lit@);
}

/// An exact index over strands gives for a value the signatures of those that carry it.
pub proof fn law_looking_up_a_value(
    field: &str,
    strands: &[Strand],
    idx: GlobalHashIndex,
    value: &[u8],
    r: Vec<[u8; 8]>,
    sig: [u8; 8],
)
    requires
        call_ensures(GlobalHashIndex::build, (field, strands), idx),
        call_ensures(GlobalHashIndex::lookup, (&idx, value), r),
        field@ != "_signature"@,
    ensures
        idx.field@ == field@,
        r@.contains(sig) <==> exists|m: int, i: int|
            0 <= m < strands@.len() && #[trigger] carries(strand_views(strands@)[m], field@, i, value@) && strand_views(
                strands@,
            )[m].signature == sig,
{
    law_exact_index_lists_the_strands_with_a_value(idx.map@, strand_views(strands@), field@, value@, sig);
}

/// A numeric index over strands gives for an operator and a number the signatures of those with a
/// value that stands so to the number; and for a span, of those with a value in it.
pub proof fn law_looking_up_a_range(
    field: &str,
    strands: &[Strand],
    idx: GlobalRangeIndex,
    op: RangeOp,
    n: u64,
    r: Vec<[u8; 8]>,
    lo: u64,
    hi: u64,
    span: Vec<[u8; 8]>,
    sig: [u8; 8],
)
    requires
        call_ensures(GlobalRangeIndex::build, (field, strands), idx),
        call_ensures(GlobalRangeIndex::lookup, (&idx, op, n), r),
        call_ensures(GlobalRangeIndex::lookup_between_inclusive, (&idx, lo, hi), span),
    ensures
        r@.contains(sig) <==> exists|m: int, i: int, value: Seq<u8>|
            0 <= m < strands@.len() && #[trigger] carries(strand_views(strands@)[m], field@, i, value) && strand_views(
                strands@,
            )[m].signature == sig && super::literal::numeric_value(value) is Some && number_stands_to(
                super::literal::numeric_value(value)->0 as int,
                op,
                n as int,
            ),
        span@.contains(sig) <==> exists|m: int, i: int, value: Seq<u8>|
            0 <= m < strands@.len() && #[trigger] carries(strand_views(strands@)[m], field@, i, value) && strand_views(
                strands@,
            )[m].signature == sig && super::literal::numeric_value(value) is Some && lo
                <= super::literal::numeric_value(value)->0 && super::literal::numeric_value(value)->0 <= hi,
{
    law_numeric_index_finds_the_strands_in_range(
        idx.entries@,
        strand_views(strands@),
        field@,
        op,
        n,
        lo,
        hi,
        sig,
    );
}

/// A value that was added to a filter is found in it, and so is all that was found before.
pub proof fn law_adding_to_a_filter(f: &mut BloomFilter, value: &[u8], other: &[u8], found: bool, before: bool, after: bool)
    requires
        old(f).bits().len() > 0,
        call_ensures(BloomFilter::add, (f, value), ()),
        call_ensures(BloomFilter::might_contain, (final(f), value), found),
        call_ensures(BloomFilter::might_contain, (old(f), other), before),
        call_ensures(BloomFilter::might_contain, (final(f), other), after),
    ensures
        found,
        before ==> after,
{
    law_added_value_is_found(old(f).bits(), old(f).hashes(), value@, value@);
    law_added_value_is_found(old(f).bits(), old(f).hashes(), other@, value@);
    law_added_value_is_found(old(f).bits(), old(f).hashes(), value@, other@);
}

/// A plan that was stored is found under its key.
pub proof fn law_storing_a_plan(
    cache: &mut QueryPlanCache,
    key: u64,
    plan: QueryPath,
    later: &mut QueryPlanCache,
    r: Option<QueryPath>,
)
    requires
        super::plan_cache::keys_distinct(old(cache).plans()),
        old(cache).plans().len() <= old(cache).room(),
        old(cache).room() >= 1,
        call_ensures(QueryPlanCache::insert, (cache, key, plan), ()),
        old(later).plans() == final(cache).plans(),
        call_ensures(QueryPlanCache::get, (later, key), r),
    ensures
        r is Some,
        r->0@ == plan@,
        final(cache).plans().len() <= final(cache).room(),
{
    super::plan_cache::law_stored_plan_is_found(old(cache).plans(), old(cache).room(), key, plan@);
}

/// A segment that holds a payload is not skipped by a query for it, with codebooks or without.
pub proof fn law_segments_with_a_payload_are_not_skipped(
    segment_id: u32,
    strands: &[Strand],
    names: &[&str],
    places: usize,
    hashes: u8,
    meta: SegmentMeta,
    pattern: &GuidePattern,
    skipped: bool,
    by_filter: bool,
    collection_id: u32,
    sequence: u64,
    payload: Seq<u8>,
    m: int,
)
    requires
        call_ensures(SegmentMeta::build, (segment_id, strands, names, places, hashes), meta),
        call_ensures(should_skip_segment, (&meta, pattern), skipped),
        call_ensures(should_skip_segment_bloom_only, (&meta, pattern), by_filter),
        0 <= m < strands@.len(),
        logged_entry(strands@[m]@, collection_id, sequence, payload),
        asks_for_payload(pattern@, payload),
    ensures
        meta.segment_id == segment_id,
        meta.record_count == strands@.len(),
        !skipped,
        !by_filter,
{
    law_payload_is_not_skipped(
        meta.field_stats@,
        meta.field_dictionaries@,
        strand_views(strands@),
        names@,
        places as nat,
        hashes as nat,
        collection_id,
        sequence,
        payload,
        pattern@,
        m,
    );
}

/// A projected row has, of each field asked for, the first value that its strand carries.
pub proof fn law_projecting<'a>(
    rows: &[&'a Strand],
    fields: &StrSet,
    r: Vec<ProjectedRow>,
    n: int,
    f: Seq<char>,
    i: int,
    value: Seq<u8>,
)
    requires
        call_ensures(project_rows, (rows, fields), r),
        0 <= n < rows@.len(),
    ensures
        r@.len() == rows@.len(),
        r@[n].signature == rows@[n].signature,
        r@[n].version == rows@[n].version,
        fields@.contains(f) && carries(rows@[n]@, f, i, value) && (forall|j: int, w: Seq<u8>|
            j < i ==> !#[trigger] carries(rows@[n]@, f, j, w)) ==> r@[n].fields@.dom().contains(f) && r@[n].fields@[f]@
            == value,
        !fields@.contains(f) ==> !r@[n].fields@.dom().contains(f),
{
    law_projection_holds_the_first_values(r@[n], rows@[n]@, fields@, f, i, value);
}

/// A signature is looked up as the last strand that has it.
pub proof fn law_looking_up_a_signature<'a>(
    strands: &'a [Strand],
    index: SignatureIndex<'a>,
    sig: &[u8; 8],
    r: Option<&'a Strand>,
    i: int,
)
    requires
        call_ensures(strand_by_signature, (strands,), index),
        call_ensures(SignatureIndex::get, (&index, sig), r),
    ensures
        0 <= i < strands@.len() && strands@[i].signature == *sig && (forall|j: int|
            i < j < strands@.len() ==> (#[trigger] strands@[j]).signature != *sig) ==> r is Some && r->0@ == strands@[i]@,
        r matches Some(s) ==> s.signature == *sig,
{
    let views = strand_views(strands@);
    law_signature_stands_for_the_last_strand(views, *sig, i);
    if 0 <= i < strands@.len() && strands@[i].signature == *sig && (forall|j: int|
        i < j < strands@.len() ==> (#[trigger] strands@[j]).signature != *sig) {
        assert(views[i] == strands@[i]@);
        assert forall|j: int| i < j < views.len() implies (#[trigger] views[j]).signature != *sig by {
            assert(strands@[j].signature != *sig);
        }
    }
    super::signatures::lemma_last_with(views, *sig, views.len());
}

/// A path of one name is resolved to the strands that the root refers to under it.
pub proof fn law_resolving_a_name<'a>(
    root: &'a Strand,
    name: &str,
    index: &SignatureIndex<'a>,
    r: Vec<&'a Strand>,
    t: crate::model::StrandView,
)
    requires
        call_ensures(resolve_include_path, (root, name, index), r),
        name@.len() > 0,
        !name@.contains('.'),
    ensures
        super::matching::row_views(r@).contains(t) <==> exists|k: int|
            #![trigger root@.introns[k]]
            0 <= k < root@.introns.len() && root@.introns[k].field_name == name@
                && root@.introns[k].references_strand is Some && super::signatures::find(
                index.strands(),
                root@.introns[k].references_strand->0,
            ) == Some(t),
{
    law_one_name_leads_to_what_the_root_refers_to(index.strands(), root@, name@, t);
}

} // verus!
