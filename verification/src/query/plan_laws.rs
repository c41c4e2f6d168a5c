//! What compiled clauses mean, what indexes hold, which numbers bytes stand for and which path a
//! query takes.
use super::answer_laws::{comes_first, law_clause_compares_with_its_operand};
use super::ast::{LiteralView, QueryAst, WhereOp};
use super::compile::{compiled, nth_clause};
use super::fetch::stats_for;
use super::fetch_laws::{lemma_index_entry, lemma_number_entry, lemma_picked, lemma_posting};
use super::fields::{carries, has_value};
use super::guide::{ClauseView, GuideView, RangeOp};
use super::index::{
    index_entries, indexes, intron_entries, intron_numbers, number_in_range, number_less,
    numbers_of, picked, postings, strand_entries,
};
use super::like_util::like;
use super::literal::{literal_bytes, literal_number, numeric_value};
use super::matching::value_passes;
use super::plan_cache::{bucket, clause_shape, op_name, tenths};
use super::planner::{
    best_index, between, between_field, bounded, cheaper, goes_between, index_candidate,
    index_cost, is_plan, law_index_plan_has_an_index, preferred, scan_cost, selectivity,
    CollectionStats, PathView,
};
use super::scan::ScanConfig;
use crate::model::StrandView;
use crate::support::num_text::{decimal_value, parse_decimal};
use crate::support::posting_map::listed;
use crate::support::sort::{lemma_sorted_same_members, stable_order, stably_sorted};
use crate::support::text::lossy_text;
use vstd::prelude::*;

verus! {

/// A constraint means the same compiled: a value passes its clause exactly when it stands to the
/// written-out literal as the operator says, equality by the same bytes, order as in a
/// dictionary, `LIKE` by the pattern.
pub proof fn law_compiled_constraint_means_its_operator(
    ast: QueryAst,
    overlay: Option<Seq<char>>,
    g: GuideView,
    i: int,
    value: Seq<u8>,
)
    requires
        compiled(ast, overlay, g),
        0 <= i < ast.wheres@.len(),
    ensures
        g.clauses.len() == ast.wheres@.len(),
        g.clauses[i].field() == ast.wheres@[i].field@,
        ({
            let wire = literal_bytes(ast.wheres@[i].value@);
            let passes = value_passes(g.clauses[i], value);
            match ast.wheres@[i].op {
                WhereOp::Eq => passes <==> value == wire,
                WhereOp::Ne => passes <==> value != wire,
                WhereOp::Lt => passes <==> comes_first(value, wire),
                WhereOp::Lte => passes <==> comes_first(value, wire) || value == wire,
                WhereOp::Gt => passes <==> comes_first(wire, value),
                WhereOp::Gte => passes <==> comes_first(wire, value) || value == wire,
                WhereOp::Like => ast.wheres@[i].value@ matches LiteralView::String(pattern) && (passes <==> like(
                    lossy_text(value),
                    pattern,
                )),
            }
        }),
{
    assert(nth_clause(ast, i) == Some(g.clauses[i]));
    law_clause_compares_with_its_operand(g.clauses[i], value);
}

/// A compiled query keeps the collection, the paths, the order and the limit of what was written.
pub proof fn law_compiled_query_keeps_the_rest(ast: QueryAst, overlay: Option<Seq<char>>, g: GuideView, i: int)
    requires
        compiled(ast, overlay, g),
    ensures
        g.collection == ast.collection@,
        g.overlay == overlay,
        g.limit == ast.limit,
        g.includes.len() == ast.includes@.len(),
        0 <= i < g.includes.len() ==> g.includes[i] == ast.includes@[i]@,
        g.order_by is Some <==> ast.order_by is Some,
        ast.order_by matches Some(o) ==> g.order_by == Some((o.field@, o.direction)),
{
}

/// The only constraint that cannot be compiled is a `LIKE` without a text.
pub proof fn law_only_like_without_text_is_refused(ast: QueryAst, i: int)
    requires
        0 <= i < ast.wheres@.len(),
    ensures
        nth_clause(ast, i) is None <==> ast.wheres@[i].op == WhereOp::Like && !(ast.wheres@[i].value@ is String),
{
}

/// Which literals stand for a number: the unsigned ones, and the signed ones from zero on.
pub proof fn law_numbers_of_literals(v: LiteralView)
    ensures
        v matches LiteralView::U64(n) ==> literal_number(v) == Some(n),
        v matches LiteralView::I64(n) ==> (n < 0 ==> literal_number(v) is None) && (n >= 0 ==> literal_number(v) == Some(
            n as u64,
        )),
        v is String || v is F64 || v is Bool ==> literal_number(v) is None,
{
}

/// Whether bytes are decimal digits.
pub open spec fn all_digits(b: Seq<u8>) -> bool {
    forall|i: int| 0 <= i < b.len() ==> 48 <= #[trigger] b[i] <= 57
}

proof fn lemma_digits_have_a_value(b: Seq<u8>)
    ensures
        decimal_value(b) is Some <==> all_digits(b),
    decreases b.len(),
{
    if b.len() > 0 {
        let front = b.drop_last();
        lemma_digits_have_a_value(front);
        if all_digits(b) {
            assert forall|i: int| 0 <= i < front.len() implies 48 <= #[trigger] front[i] <= 57 by {
                assert(48 <= b[i] <= 57);
            }
            assert(48 <= b[b.len() - 1] <= 57);
        }
        if decimal_value(b) is Some {
            assert forall|i: int| 0 <= i < b.len() implies 48 <= #[trigger] b[i] <= 57 by {
                if i < front.len() {
                    assert(48 <= front[i] <= 57);
                }
            }
        }
    }
}

/// Decimal text stands for its number: one digit for itself, and a digit behind others for ten
/// times what they stand for and itself; a plus sign in front counts for nothing, and text with
/// anything but digits, or none, stands for no number.
pub proof fn law_decimal_text_stands_for_its_number(b: Seq<u8>, d: u8)
    ensures
        parse_decimal(Seq::empty()) is None,
        48 <= d <= 57 ==> parse_decimal(seq![d]) == Some((d - 48) as u64),
        b.len() > 0 && b[0] != 43 && !all_digits(b) ==> parse_decimal(b) is None,
        b.len() > 0 && all_digits(b) && 48 <= d <= 57 && parse_decimal(b) is Some && parse_decimal(b)->0 * 10 + (d - 48)
            <= u64::MAX ==> parse_decimal(b.push(d)) == Some((parse_decimal(b)->0 * 10 + (d - 48)) as u64),
        b.len() > 0 && all_digits(b) && 48 <= d <= 57 && parse_decimal(b) is Some && parse_decimal(b)->0 * 10 + (d - 48)
            > u64::MAX ==> parse_decimal(b.push(d)) is None,
        b.len() > 0 && all_digits(b) ==> parse_decimal(seq![43u8] + b) == parse_decimal(b),
{
    lemma_digits_have_a_value(b);
    assert(seq![d].drop_last() =~= Seq::<u8>::empty());
    assert(decimal_value(Seq::empty()) == Some(0nat));
    assert(b.push(d).drop_last() =~= b);
    if b.len() > 0 {
        assert(b.push(d)[0] == b[0]);
        if all_digits(b) {
            assert(48 <= b[0] <= 57);
        }
        let p = seq![43u8] + b;
        assert(p[0] == 43);
        assert(p.skip(1) =~= b);
        assert(p.subrange(1, p.len() as int) =~= b);
    }
}

proof fn lemma_posting_back(entries: Seq<(Seq<u8>, [u8; 8])>, value: Seq<u8>, sig: [u8; 8])
    requires
        postings(entries, value).contains(sig),
    ensures
        entries.contains((value, sig)),
    decreases entries.len(),
{
    if entries.len() > 0 {
        let front = entries.drop_last();
        let before = postings(front, value);
        let now = postings(entries, value);
        let q = now.index_of(sig);
        if q < before.len() {
            assert(before[q] == sig);
            lemma_posting_back(front, value, sig);
            let k = front.index_of((value, sig));
            assert(entries[k] == (value, sig));
        } else {
            assert(entries[entries.len() - 1] == (value, sig));
        }
    }
}

proof fn lemma_intron_entry_back(v: StrandView, field: Seq<char>, n: nat, value: Seq<u8>, sig: [u8; 8])
    requires
        n <= v.introns.len(),
        intron_entries(v, field, n).contains((value, sig)),
    ensures
        v.signature == sig,
        has_value(v, field, value),
    decreases n,
{
    if n > 0 {
        let before = intron_entries(v, field, (n - 1) as nat);
        let now = intron_entries(v, field, n);
        let q = now.index_of((value, sig));
        if q < before.len() {
            assert(before[q] == (value, sig));
            lemma_intron_entry_back(v, field, (n - 1) as nat, value, sig);
        } else {
            assert(carries(v, field, n - 1, value));
        }
    }
}

proof fn lemma_index_entry_back(strands: Seq<StrandView>, field: Seq<char>, n: nat, value: Seq<u8>, sig: [u8; 8]) -> (m:
    int)
    requires
        n <= strands.len(),
        field != "_signature"@,
        index_entries(strands, field, n).contains((value, sig)),
    ensures
        0 <= m < n,
        strands[m].signature == sig,
        has_value(strands[m], field, value),
    decreases n,
{
    if n == 0 {
        assert(false);
        0
    } else {
        let before = index_entries(strands, field, (n - 1) as nat);
        let more = strand_entries(strands[n - 1], field);
        let now = index_entries(strands, field, n);
        let q = now.index_of((value, sig));
        if q < before.len() {
            assert(before[q] == (value, sig));
            lemma_index_entry_back(strands, field, (n - 1) as nat, value, sig)
        } else {
            assert(more[q - before.len()] == (value, sig));
            lemma_intron_entry_back(strands[n - 1], field, strands[n - 1].introns.len(), value, sig);
            n - 1
        }
    }
}

/// An exact index lists under a value the signatures of exactly the strands that carry it.
pub proof fn law_exact_index_lists_the_strands_with_a_value(
    map: Map<Seq<u8>, Seq<[u8; 8]>>,
    strands: Seq<StrandView>,
    field: Seq<char>,
    value: Seq<u8>,
    sig: [u8; 8],
)
    requires
        field != "_signature"@,
        indexes(map, index_entries(strands, field, strands.len())),
    ensures
        listed(map, value).contains(sig) <==> exists|m: int, i: int|
            0 <= m < strands.len() && #[trigger] carries(strands[m], field, i, value) && strands[m].signature == sig,
{
    let entries = index_entries(strands, field, strands.len());
    assert(listed(map, value) == postings(entries, value));
    if listed(map, value).contains(sig) {
        lemma_posting_back(entries, value, sig);
        let m = lemma_index_entry_back(strands, field, strands.len(), value, sig);
        let i = choose|i: int| carries(strands[m], field, i, value);
        assert(carries(strands[m], field, i, value));
    }
    if exists|m: int, i: int|
        0 <= m < strands.len() && #[trigger] carries(strands[m], field, i, value) && strands[m].signature == sig {
        let (m, i) = choose|m: int, i: int|
            0 <= m < strands.len() && #[trigger] carries(strands[m], field, i, value) && strands[m].signature == sig;
        assert(has_value(strands[m], field, value));
        lemma_index_entry(strands, field, strands.len(), m, value);
        let k = entries.index_of((value, sig));
        lemma_posting(entries, value, sig, k);
    }
}

proof fn lemma_intron_number_back(v: StrandView, field: Seq<char>, n: nat, x: u64, sig: [u8; 8]) -> (w: (int, Seq<u8>))
    requires
        n <= v.introns.len(),
        intron_numbers(v, field, n).contains((x, sig)),
    ensures
        v.signature == sig,
        carries(v, field, w.0, w.1),
        numeric_value(w.1) == Some(x),
    decreases n,
{
    if n == 0 {
        assert(false);
        (0, Seq::empty())
    } else {
        let before = intron_numbers(v, field, (n - 1) as nat);
        let now = intron_numbers(v, field, n);
        let q = now.index_of((x, sig));
        if q < before.len() {
            assert(before[q] == (x, sig));
            lemma_intron_number_back(v, field, (n - 1) as nat, x, sig)
        } else {
            let b = super::fields::field_bytes(v.codons, v.introns[n - 1])->0;
            assert(carries(v, field, n - 1, b));
            (n - 1, b)
        }
    }
}

proof fn lemma_number_entry_back(strands: Seq<StrandView>, field: Seq<char>, n: nat, x: u64, sig: [u8; 8]) -> (w: (
    int,
    int,
    Seq<u8>,
))
    requires
        n <= strands.len(),
        numbers_of(strands, field, n).contains((x, sig)),
    ensures
        0 <= w.0 < n,
        strands[w.0].signature == sig,
        carries(strands[w.0], field, w.1, w.2),
        numeric_value(w.2) == Some(x),
    decreases n,
{
    if n == 0 {
        assert(false);
        (0, 0, Seq::empty())
    } else {
        let before = numbers_of(strands, field, (n - 1) as nat);
        let more = intron_numbers(strands[n - 1], field, strands[n - 1].introns.len());
        let now = numbers_of(strands, field, n);
        let q = now.index_of((x, sig));
        if q < before.len() {
            assert(before[q] == (x, sig));
            lemma_number_entry_back(strands, field, (n - 1) as nat, x, sig)
        } else {
            assert(more[q - before.len()] == (x, sig));
            let w = lemma_intron_number_back(strands[n - 1], field, strands[n - 1].introns.len(), x, sig);
            (n - 1, w.0, w.1)
        }
    }
}

proof fn lemma_picked_back(entries: Seq<(u64, [u8; 8])>, keep: spec_fn(u64) -> bool, sig: [u8; 8]) -> (k: int)
    requires
        picked(entries, keep).contains(sig),
    ensures
        0 <= k < entries.len(),
        entries[k].1 == sig,
        keep(entries[k].0),
    decreases entries.len(),
{
    if entries.len() == 0 {
        assert(false);
        0
    } else {
        let front = entries.drop_last();
        let before = picked(front, keep);
        let now = picked(entries, keep);
        let q = now.index_of(sig);
        if q < before.len() {
            assert(before[q] == sig);
            lemma_picked_back(front, keep, sig)
        } else {
            entries.len() - 1
        }
    }
}

/// Whether a number stands to another as an operator says.
pub open spec fn number_stands_to(x: int, op: RangeOp, n: int) -> bool {
    match op {
        RangeOp::GreaterThan => n < x,
        RangeOp::GreaterOrEqual => n < x || x == n,
        RangeOp::LessThan => x < n,
        RangeOp::LessOrEqual => x < n || x == n,
        RangeOp::NotEqual => x < n || n < x,
    }
}

/// A numeric index finds the signatures of exactly the strands with a value whose number stands
/// to the given one as the operator says, or lies between the given ones.
pub proof fn law_numeric_index_finds_the_strands_in_range(
    entries: Seq<(u64, [u8; 8])>,
    strands: Seq<StrandView>,
    field: Seq<char>,
    op: RangeOp,
    n: u64,
    lo: u64,
    hi: u64,
    sig: [u8; 8],
)
    requires
        stably_sorted(
            numbers_of(strands, field, strands.len()),
            entries,
            |a: (u64, [u8; 8]), b: (u64, [u8; 8])| number_less(a, b),
        ),
    ensures
        picked(entries, |v: u64| number_in_range(v, op, n)).contains(sig) <==> exists|m: int, i: int, value: Seq<u8>|
            0 <= m < strands.len() && #[trigger] carries(strands[m], field, i, value) && strands[m].signature == sig
                && numeric_value(value) is Some && number_stands_to(numeric_value(value)->0 as int, op, n as int),
        picked(entries, |v: u64| lo <= v <= hi).contains(sig) <==> exists|m: int, i: int, value: Seq<u8>|
            0 <= m < strands.len() && #[trigger] carries(strands[m], field, i, value) && strands[m].signature == sig
                && numeric_value(value) is Some && lo <= numeric_value(value)->0 && numeric_value(value)->0 <= hi,
{
    let by_op = |v: u64| number_in_range(v, op, n);
    let by_span = |v: u64| lo <= v <= hi;
    lemma_index_finds(entries, strands, field, by_op, sig);
    lemma_index_finds(entries, strands, field, by_span, sig);
    if picked(entries, by_op).contains(sig) {
        let (m, i, value) = choose|m: int, i: int, value: Seq<u8>|
            0 <= m < strands.len() && #[trigger] carries(strands[m], field, i, value) && strands[m].signature == sig
                && numeric_value(value) is Some && by_op(numeric_value(value)->0);
        assert(carries(strands[m], field, i, value));
    }
    if picked(entries, by_span).contains(sig) {
        let (m, i, value) = choose|m: int, i: int, value: Seq<u8>|
            0 <= m < strands.len() && #[trigger] carries(strands[m], field, i, value) && strands[m].signature == sig
                && numeric_value(value) is Some && by_span(numeric_value(value)->0);
        assert(carries(strands[m], field, i, value));
    }
}

proof fn lemma_index_finds(
    entries: Seq<(u64, [u8; 8])>,
    strands: Seq<StrandView>,
    field: Seq<char>,
    keep: spec_fn(u64) -> bool,
    sig: [u8; 8],
)
    requires
        stably_sorted(
            numbers_of(strands, field, strands.len()),
            entries,
            |a: (u64, [u8; 8]), b: (u64, [u8; 8])| number_less(a, b),
        ),
    ensures
        picked(entries, keep).contains(sig) <==> exists|m: int, i: int, value: Seq<u8>|
            0 <= m < strands.len() && #[trigger] carries(strands[m], field, i, value) && strands[m].signature == sig
                && numeric_value(value) is Some && keep(numeric_value(value)->0),
{
    let all = numbers_of(strands, field, strands.len());
    let lt = |a: (u64, [u8; 8]), b: (u64, [u8; 8])| number_less(a, b);
    lemma_sorted_same_members(all, entries, lt);
    if picked(entries, keep).contains(sig) {
        let k = lemma_picked_back(entries, keep, sig);
        assert(all.contains(entries[k]));
        let w = lemma_number_entry_back(strands, field, strands.len(), entries[k].0, sig);
        assert(carries(strands[w.0], field, w.1, w.2));
    }
    if exists|m: int, i: int, value: Seq<u8>|
        0 <= m < strands.len() && #[trigger] carries(strands[m], field, i, value) && strands[m].signature == sig
            && numeric_value(value) is Some && keep(numeric_value(value)->0) {
        let (m, i, value) = choose|m: int, i: int, value: Seq<u8>|
            0 <= m < strands.len() && #[trigger] carries(strands[m], field, i, value) && strands[m].signature == sig
                && numeric_value(value) is Some && keep(numeric_value(value)->0);
        lemma_number_entry(strands, field, strands.len(), m, i, value);
        let item = (numeric_value(value)->0, sig);
        assert(entries.contains(item));
        lemma_picked(entries, keep, entries.index_of(item));
    }
}

/// The entries of a numeric index do not fall.
pub proof fn law_numeric_index_is_in_order(
    entries: Seq<(u64, [u8; 8])>,
    strands: Seq<StrandView>,
    field: Seq<char>,
    i: int,
    j: int,
)
    requires
        stably_sorted(
            numbers_of(strands, field, strands.len()),
            entries,
            |a: (u64, [u8; 8]), b: (u64, [u8; 8])| number_less(a, b),
        ),
        0 <= i < j < entries.len(),
    ensures
        entries[i].0 <= entries[j].0,
{
    let all = numbers_of(strands, field, strands.len());
    let lt = |a: (u64, [u8; 8]), b: (u64, [u8; 8])| number_less(a, b);
    let p = choose|p: Seq<int>| stable_order(all, entries, p, lt);
    assert(!lt(entries[j], entries[i]));
}

/// Whether a number lies in a span.
pub open spec fn in_span(span: (u64, u64), x: u64) -> bool {
    span.0 <= x && x <= span.1
}

/// Two range clauses that span a field admit exactly the numbers from the lower to the upper end
/// of the span, but where a clause asks for more than the highest number or less than zero.
pub proof fn law_span_is_what_both_clauses_admit(g: GuideView, field: Seq<char>, x: u64)
    requires
        between(g, field) is Some,
        forall|i: int|
            #![trigger g.clauses[i]]
            0 <= i < 2 ==> (g.clauses[i] matches ClauseView::Range { op, wire, .. } ==> !(op == RangeOp::GreaterThan
                && numeric_value(wire) == Some(u64::MAX)) && !(op == RangeOp::LessThan && numeric_value(wire) == Some(
                0u64,
            ))),
    ensures
        g.clauses.len() == 2,
        g.clauses[0] is Range && g.clauses[1] is Range,
        g.clauses[0].field() == field && g.clauses[1].field() == field,
        numeric_value(g.clauses[0]->Range_wire) is Some && numeric_value(g.clauses[1]->Range_wire) is Some,
        in_span(between(g, field)->0, x) <==> number_stands_to(
            x as int,
            g.clauses[0]->op,
            numeric_value(g.clauses[0]->Range_wire)->0 as int,
        ) && number_stands_to(x as int, g.clauses[1]->op, numeric_value(g.clauses[1]->Range_wire)->0 as int),
{
    let one = bounded((None, None), g.clauses[0], field)->0;
    assert(bounded(one, g.clauses[1], field) is Some);
}

/// What is expected of an index: one record in twenty where nothing is known of its field. A
/// lookup costs one, and two for each record expected.
pub proof fn law_cost_of_an_index(stats: CollectionStats, field: Seq<char>)
    ensures
        !stats.index_selectivity@.dom().contains(field) ==> selectivity(stats, field) == (1nat, 20nat),
        stats.index_selectivity@.dom().contains(field) ==> selectivity(stats, field).0
            == stats.index_selectivity@[field].top() && selectivity(stats, field).1
            == stats.index_selectivity@[field].bottom(),
        index_cost(stats, field).1 == selectivity(stats, field).1,
        selectivity(stats, field).0 <= selectivity(stats, field).1 ==> index_cost(stats, field).0
            == index_cost(stats, field).1 + 2 * stats.record_count * selectivity(stats, field).0,
        selectivity(stats, field).0 > selectivity(stats, field).1 ==> index_cost(stats, field).0
            == index_cost(stats, field).1 + 2 * stats.record_count * selectivity(stats, field).1,
{
    assert(2 * stats.record_count as nat * selectivity(stats, field).1 == 2 * stats.record_count
        * selectivity(stats, field).1) by (nonlinear_arith);
}

/// A scan costs nothing but its paths where every record is skipped; each clause, an order and
/// each path make it dearer.
pub proof fn law_cost_of_a_scan(g: GuideView, stats: CollectionStats)
    ensures
        ({
            let d = stats.estimated_bloom_skip_rate.bottom();
            let c = stats.estimated_bloom_skip_rate.top();
            let left = if c < d {
                stats.record_count * (d - c)
            } else {
                0
            };
            &&& scan_cost(g, stats).1 == d * 100
            &&& scan_cost(g, stats).0 == left * (10 + 3 * g.clauses.len() + (if g.order_by is Some {
                2int
            } else {
                0
            })) + d * g.includes.len() * 2500
        }),
{
    let d = stats.estimated_bloom_skip_rate.bottom();
    let c = stats.estimated_bloom_skip_rate.clamped_top();
    let left = stats.record_count as nat * (d - c) as nat;
    let n = g.clauses.len();
    let o: nat = if g.order_by is Some {
        2
    } else {
        0
    };
    assert(left * 10 + left * n * 3 + left * o == left * (10 + 3 * n + o)) by (nonlinear_arith);
    assert(stats.record_count * 0 == 0) by (nonlinear_arith);
}

/// Whether a query is a lookup of one row by one exact clause.
pub open spec fn asks_for_one(g: GuideView) -> bool {
    &&& g.clauses.len() == 1
    &&& g.clauses[0] is Exact
    &&& g.includes.len() == 0
    &&& g.order_by is None
    &&& g.limit is None || g.limit == Some(1u32)
}

/// A lookup of one row goes direct where its field can be looked up directly, and to the index
/// of its field where that is expected to find at most one record in twenty. Nothing else goes
/// direct, and nothing goes to an index that is not there.
pub proof fn law_lookups_take_the_short_way(g: GuideView, stats: CollectionStats, path: PathView)
    requires
        is_plan(g, stats, path),
    ensures
        path is Direct <==> asks_for_one(g) && stats.direct_lookup_fields@.contains(g.clauses[0].field()),
        asks_for_one(g) && !stats.direct_lookup_fields@.contains(g.clauses[0].field())
            && stats.indexed_fields@.contains(g.clauses[0].field()) && 20 * selectivity(stats, g.clauses[0].field()).0
            <= selectivity(stats, g.clauses[0].field()).1 ==> path == (PathView::Index { field: g.clauses[0].field() }),
        path is Index ==> stats.indexed_fields@.contains(path->field) && exists|i: int|
            0 <= i < g.clauses.len() && (#[trigger] g.clauses[i]).field() == path->field && !(g.clauses[i] is Like),
{
    if path is Index {
        law_index_plan_has_an_index(g, stats, path);
    }
}

/// A span over an indexed field, without order and paths, goes to the index of that field.
pub proof fn law_spans_go_to_their_index(g: GuideView, stats: CollectionStats, path: PathView, field: Seq<char>)
    requires
        is_plan(g, stats, path),
        g.includes.len() == 0,
        g.order_by is None,
        between(g, field) is Some,
        stats.indexed_fields@.contains(field),
    ensures
        path == (PathView::Index { field }),
{
    assert(bounded((None, None), g.clauses[0], field) is Some);
    assert(g.clauses[0].field() == field);
    assert(between_field(g) == Some(field));
    assert(goes_between(g, stats, field));
}

/// Any other query goes to an index only where that is cheaper than a scan, and then to one that
/// no other is cheaper than; where the best index is cheaper than a scan, it does go to it.
pub proof fn law_other_queries_go_by_cost(g: GuideView, stats: CollectionStats, path: PathView, field: Seq<char>)
    requires
        is_plan(g, stats, path),
        !asks_for_one(g),
        forall|f: Seq<char>| !goes_between(g, stats, f),
        forall|f: Seq<char>| #[trigger] index_candidate(g, stats, f) ==> selectivity(stats, f).1 > 0,
    ensures
        path is Index ==> index_cost(stats, path->field).0 * scan_cost(g, stats).1 < scan_cost(g, stats).0 * index_cost(
            stats,
            path->field,
        ).1,
        path is Index && index_candidate(g, stats, field) ==> index_cost(stats, path->field).0 * index_cost(
            stats,
            field,
        ).1 <= index_cost(stats, field).0 * index_cost(stats, path->field).1,
        path is Index || path is GuidedScan,
        path is GuidedScan && best_index(g, stats, field) ==> index_cost(stats, field).0 * scan_cost(g, stats).1
            >= scan_cost(g, stats).0 * index_cost(stats, field).1,
{
    if path is GuidedScan && best_index(g, stats, field) {
        assert(!cheaper(index_cost(stats, field), scan_cost(g, stats)));
    }
    if path is Index {
        let f = choose|f: Seq<char>| #[trigger]
            best_index(g, stats, f) && cheaper(index_cost(stats, f), scan_cost(g, stats));
        let h = choose|h: Seq<char>| #[trigger] best_index(g, stats, h) && path == (PathView::Index { field: h });
        assert(!preferred(stats, f, h) && !preferred(stats, h, f));
        assert(f == h) by {
            crate::support::sort::lemma_text_total(f, h);
        }
        if index_candidate(g, stats, field) {
            assert(!preferred(stats, field, h));
        }
    }
}

/// The bucket of a number is the position of its highest bit.
pub proof fn law_bucket_is_the_highest_bit(n: nat)
    ensures
        n > 0 ==> vstd::arithmetic::power2::pow2(bucket(n)) <= n < 2 * vstd::arithmetic::power2::pow2(bucket(n)),
        n <= 1 ==> bucket(n) == 0,
    decreases n,
{
    vstd::arithmetic::power2::lemma2_to64();
    if n > 1 {
        law_bucket_is_the_highest_bit(n / 2);
        vstd::arithmetic::power2::lemma_pow2_unfold(bucket(n));
    }
}

/// Tenths are rounded to the nearest.
pub proof fn law_tenths_are_rounded(top: nat, bottom: nat)
    requires
        bottom > 0,
    ensures
        2 * bottom * tenths(top, bottom) <= 20 * top + bottom < 2 * bottom * (tenths(top, bottom) + 1),
{
    vstd::arithmetic::div_mod::lemma_fundamental_div_mod((20 * top + bottom) as int, (2 * bottom) as int);
    vstd::arithmetic::div_mod::lemma_mod_bound((20 * top + bottom) as int, (2 * bottom) as int);
    assert(2 * bottom * (tenths(top, bottom) + 1) == 2 * bottom * tenths(top, bottom) + 2 * bottom) by (nonlinear_arith);
}

/// Clauses on one field have different shapes where they are of different kinds, or compare
/// differently.
pub proof fn law_shapes_tell_clauses_apart(field: Seq<char>, a: RangeOp, b: RangeOp, c: ClauseView, d: ClauseView)
    requires
        c.field() == field,
        d.field() == field,
    ensures
        c is Exact && d is Like ==> clause_shape(c) != clause_shape(d),
        c is Exact && d is Range ==> clause_shape(c) != clause_shape(d),
        c is Like && d is Range ==> clause_shape(c) != clause_shape(d),
        a != b ==> op_name(a) != op_name(b),
{
    reveal_strlit("exact:");
    reveal_strlit("range:");
    reveal_strlit("like:");
    reveal_strlit("GreaterThan");
    reveal_strlit("GreaterOrEqual");
    reveal_strlit("LessThan");
    reveal_strlit("LessOrEqual");
    reveal_strlit("NotEqual");
    if c is Exact {
        assert(clause_shape(c)[0] == 'e');
    }
    if c is Like {
        assert(clause_shape(c)[0] == 'l');
    }
    if d is Like {
        assert(clause_shape(d)[0] == 'l');
    }
    if d is Range {
        assert(clause_shape(d)[0] == 'r');
    }
    if a != b && op_name(a) == op_name(b) {
        assert(op_name(a).len() == op_name(b).len());
        assert(op_name(a)[0] == op_name(b)[0]);
    }
}

/// What the planner is told: the number of strands, the fields that are named as indexed, and that
/// the signature can be looked up directly. A field that is not named has no index.
pub proof fn law_planner_is_told_the_truth(
    cfg: ScanConfig,
    strands: Seq<StrandView>,
    g: GuideView,
    st: CollectionStats,
    f: Seq<char>,
)
    requires
        stats_for(cfg, strands, g, st),
    ensures
        st.record_count == strands.len(),
        st.direct_lookup_fields@.contains(f) <==> f == "_signature"@,
        cfg.indexed_fields is None ==> !st.indexed_fields@.contains(f),
        cfg.indexed_fields matches Some(s) ==> (st.indexed_fields@.contains(f) <==> s@.contains(f)),
        cfg.segment_metas is None ==> st.estimated_bloom_skip_rate.top() == 0,
{
}

/// A lookup of one row whose field is expected to find more than one record in twenty goes to its
/// index only where that is cheaper than a scan.
pub proof fn law_loose_lookups_go_by_cost(g: GuideView, stats: CollectionStats, path: PathView)
    requires
        is_plan(g, stats, path),
        asks_for_one(g),
        !stats.direct_lookup_fields@.contains(g.clauses[0].field()),
        20 * selectivity(stats, g.clauses[0].field()).0 > selectivity(stats, g.clauses[0].field()).1,
        index_cost(stats, g.clauses[0].field()).0 * scan_cost(g, stats).1 >= scan_cost(g, stats).0 * index_cost(
            stats,
            g.clauses[0].field(),
        ).1,
    ensures
        path == PathView::GuidedScan,
{
    assert forall|f: Seq<char>| #[trigger] best_index(g, stats, f) implies f == g.clauses[0].field() by {
        let i = choose|i: int| 0 <= i < g.clauses.len() && !(#[trigger] g.clauses[i] is Like) && g.clauses[i].field() == f;
        assert(i == 0);
    }
    assert forall|f: Seq<char>| !goes_between(g, stats, f) by {}
}

} // verus!
