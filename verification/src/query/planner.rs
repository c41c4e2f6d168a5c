//! Choice of the access path: direct lookup, index or guided scan, by a cost model over exact
//! fractions.
use super::guide::{Clause, ClauseView, GuidePattern, GuideView, RangeOp};
use super::literal::{as_numeric_u64, numeric_value};
use crate::support::big_nat::BigNat;
use crate::support::sort::{lemma_lex_is_order, lemma_text_total, str_less, text_less};
use crate::support::str_map::StrMap;
use crate::support::str_set::StrSet;
use crate::support::text::{owned, string_is};
use vstd::prelude::*;

verus! {

/// How the rows of a query are found.
#[derive(Debug, PartialEq, Eq)]
pub enum QueryPath {
    Direct,
    Index { field: String },
    GuidedScan,
}

/// What a [`QueryPath`] holds.
pub enum PathView {
    Direct,
    Index { field: Seq<char> },
    GuidedScan,
}

impl View for QueryPath {
    type V = PathView;

    open spec fn view(&self) -> PathView {
        match self {
            QueryPath::Direct => PathView::Direct,
            QueryPath::Index { field } => PathView::Index { field: field@ },
            QueryPath::GuidedScan => PathView::GuidedScan,
        }
    }
}

impl Clone for QueryPath {
    fn clone(&self) -> (r: Self)
        ensures
            r@ == self@,
    {
        match self {
            QueryPath::Direct => QueryPath::Direct,
            QueryPath::Index { field } => QueryPath::Index { field: field.clone() },
            QueryPath::GuidedScan => QueryPath::GuidedScan,
        }
    }
}

/// A share of a whole: numerator and denominator.
#[derive(Debug, Clone, Copy)]
pub struct Fraction {
    num: u64,
    den: u64,
}

impl Fraction {
    #[verifier::type_invariant]
    spec fn has_denominator(self) -> bool {
        self.den > 0
    }

    /// The numerator.
    pub closed spec fn top(self) -> nat {
        self.num as nat
    }

    /// The denominator.
    pub closed spec fn bottom(self) -> nat {
        self.den as nat
    }

    /// The numerator, cut off at the denominator: the fraction clamped to one.
    pub open spec fn clamped_top(self) -> nat {
        if self.top() < self.bottom() {
            self.top()
        } else {
            self.bottom()
        }
    }

    /// `num` out of `den`.
    pub fn new(num: u64, den: u64) -> (r: Self)
        requires
            den > 0,
        ensures
            r.top() == num,
            r.bottom() == den,
    {
        Fraction { num, den }
    }

    /// Numerator and denominator.
    pub fn parts(&self) -> (r: (u64, u64))
        ensures
            r.0 == self.top(),
            r.1 == self.bottom(),
            r.1 > 0,
    {
        proof {
            use_type_invariant(self);
        }
        (self.num, self.den)
    }

    /// Numerator and denominator of the fraction clamped to one.
    pub fn clamped_parts(&self) -> (r: (u64, u64))
        ensures
            r.0 == self.clamped_top(),
            r.1 == self.bottom(),
            0 < r.1,
            r.0 <= r.1,
    {
        proof {
            use_type_invariant(self);
        }
        if self.num < self.den {
            (self.num, self.den)
        } else {
            (self.den, self.den)
        }
    }
}

/// What the planner knows of a collection.
#[derive(Debug)]
pub struct CollectionStats {
    pub record_count: usize,
    pub indexed_fields: StrSet,
    pub direct_lookup_fields: StrSet,
    /// Share of the records that a scan is expected to skip.
    pub estimated_bloom_skip_rate: Fraction,
    /// Share of the records that an equality lookup in a field is expected to find.
    pub index_selectivity: StrMap<Fraction>,
}

impl CollectionStats {
    /// A collection of a hundred thousand records without indexes; signatures can be looked up
    /// directly.
    pub fn fake() -> (r: Self)
        ensures
            r.record_count == 100_000,
            r.indexed_fields@ == Set::<Seq<char>>::empty(),
            r.direct_lookup_fields@ == set!["_signature"@],
            r.estimated_bloom_skip_rate.top() == 0,
            r.estimated_bloom_skip_rate.bottom() == 1,
            r.index_selectivity@ == Map::<Seq<char>, Fraction>::empty(),
    {
        let mut direct = StrSet::new();
        let _ = direct.insert(owned("_signature"));
        CollectionStats {
            record_count: 100_000,
            indexed_fields: StrSet::new(),
            direct_lookup_fields: direct,
            estimated_bloom_skip_rate: Fraction::new(0, 1),
            index_selectivity: StrMap::new(),
        }
    }

    /// Marks a field as indexed; unless something is known of it, a lookup is expected to find
    /// one record in a hundred.
    pub fn add_index(&mut self, field: String)
        ensures
            final(self).indexed_fields@ == old(self).indexed_fields@.insert(field@),
            final(self).record_count == old(self).record_count,
            final(self).direct_lookup_fields == old(self).direct_lookup_fields,
            final(self).estimated_bloom_skip_rate == old(self).estimated_bloom_skip_rate,
            old(self).index_selectivity@.dom().contains(field@) ==> final(self).index_selectivity
                == old(self).index_selectivity,
            !old(self).index_selectivity@.dom().contains(field@) ==> exists|f: Fraction|
                f.top() == 1 && f.bottom() == 100 && final(self).index_selectivity@ == #[trigger] old(
                    self,
                ).index_selectivity@.insert(field@, f),
    {
        let _ = self.indexed_fields.insert(field.clone());
        if !self.index_selectivity.contains_key(field.as_str()) {
            let f = Fraction::new(1, 100);
            let _ = self.index_selectivity.insert(field, f);
        }
    }
}

/// The expected share for a field, one in twenty where nothing is known: numerator and
/// denominator.
pub open spec fn selectivity(stats: CollectionStats, field: Seq<char>) -> (nat, nat) {
    if stats.index_selectivity@.dom().contains(field) {
        (
            stats.index_selectivity@[field].top(),
            stats.index_selectivity@[field].bottom(),
        )
    } else {
        (1, 20)
    }
}

fn selectivity_parts(stats: &CollectionStats, field: &str) -> (r: (u64, u64))
    ensures
        (r.0 as nat, r.1 as nat) == selectivity(*stats, field@),
        r.1 > 0,
{
    match stats.index_selectivity.get(field) {
        Some(f) => f.parts(),
        None => (1, 20),
    }
}

/// The cost of an index lookup, as a fraction: 1 for the lookup and 2 for every record
/// expected to be loaded.
pub open spec fn index_cost(stats: CollectionStats, field: Seq<char>) -> (nat, nat) {
    let (a, b) = selectivity(stats, field);
    let share = if a < b {
        a
    } else {
        b
    };
    (b + 2 * stats.record_count as nat * share, b)
}

/// The cost of a scan, as a fraction: of the records not skipped, a tenth each for reading,
/// 3/100 for every clause and, when ordered, 2/100; and 25 for every included path.
pub open spec fn scan_cost(g: GuideView, stats: CollectionStats) -> (nat, nat) {
    let c = stats.estimated_bloom_skip_rate.clamped_top();
    let d = stats.estimated_bloom_skip_rate.bottom();
    let remaining = stats.record_count as nat * (d - c) as nat;
    (
        remaining * 10 + remaining * g.clauses.len() * 3 + remaining * (if g.order_by is Some {
            2nat
        } else {
            0
        }) + d * g.includes.len() * 2500,
        d * 100,
    )
}

/// Whether one cost is below another.
pub open spec fn cheaper(x: (nat, nat), y: (nat, nat)) -> bool {
    x.0 * y.1 < y.0 * x.1
}

/// A cost: a fraction of a big number by a machine number.
struct Cost {
    num: BigNat,
    den: BigNat,
}

fn cost_less(x: &Cost, xd: u64, y: &Cost, yd: u64, scale: u64) -> (r: bool)
    requires
        x.den@ == xd,
        y.den@ == yd * scale,
    ensures
        r == cheaper((x.num@, x.den@), (y.num@, y.den@)),
{
    let left = x.num.times(yd).times(scale);
    let right = y.num.times(xd);
    proof {
        assert(x.num@ * yd * scale == x.num@ * (yd * scale)) by (nonlinear_arith);
    }
    left.less(&right)
}

fn estimate_index_cost(field: &str, stats: &CollectionStats) -> (r: (Cost, u64))
    ensures
        (r.0.num@, r.0.den@) == index_cost(*stats, field@),
        r.0.den@ == r.1,
        r.1 > 0,
{
    let (a, b) = selectivity_parts(stats, field);
    let share: u64 = if a < b {
        a
    } else {
        b
    };
    let loads = BigNat::of(stats.record_count as u64).times(2).times(share);
    proof {
        assert(stats.record_count as nat * 2 * share == 2 * stats.record_count as nat * share)
            by (nonlinear_arith);
    }
    let num = BigNat::of(b).plus(&loads);
    (Cost { num, den: BigNat::of(b) }, b)
}

fn estimate_scan_cost(pattern: &GuidePattern, stats: &CollectionStats) -> (r: (Cost, u64))
    ensures
        (r.0.num@, r.0.den@) == scan_cost(pattern@, *stats),
        r.0.den@ == r.1 * 100,
        r.1 > 0,
{
    let (c, d) = stats.estimated_bloom_skip_rate.clamped_parts();
    let remaining = BigNat::of(stats.record_count as u64).times(d - c);
    let read = remaining.times(10);
    let verify = remaining.times(pattern.clauses.len() as u64).times(3);
    let ordered: u64 = if pattern.order_by.is_some() {
        2
    } else {
        0
    };
    let order = remaining.times(ordered);
    let paths = BigNat::of(d).times(pattern.includes.len() as u64).times(2500);
    let num = read.plus(&verify).plus(&order).plus(&paths);
    (Cost { num, den: BigNat::of(d).times(100) }, d)
}

/// A lower and an upper bound gathered from range clauses, each with whether it is strict.
pub type Bounds = (Option<(bool, u64)>, Option<(bool, u64)>);

/// The bounds after one more clause; `None` where it is no bound on `field` by a number.
pub open spec fn bounded(b: Bounds, c: ClauseView, field: Seq<char>) -> Option<Bounds> {
    match c {
        ClauseView::Range { field: f, op, wire, .. } => {
            if f != field {
                None
            } else {
                match (numeric_value(wire), op) {
                    (Some(n), RangeOp::GreaterThan) => Some((Some((true, n)), b.1)),
                    (Some(n), RangeOp::GreaterOrEqual) => Some((Some((false, n)), b.1)),
                    (Some(n), RangeOp::LessThan) => Some((b.0, Some((true, n)))),
                    (Some(n), RangeOp::LessOrEqual) => Some((b.0, Some((false, n)))),
                    _ => None,
                }
            }
        },
        _ => None,
    }
}

/// The smallest and largest number that two range clauses on one field admit: one of them a
/// lower and one an upper bound, with some number between.
pub open spec fn between(g: GuideView, field: Seq<char>) -> Option<(u64, u64)> {
    if g.clauses.len() != 2 {
        None
    } else {
        match bounded((None, None), g.clauses[0], field) {
            None => None,
            Some(one) => match bounded(one, g.clauses[1], field) {
                Some((Some((ls, lo)), Some((hs, hi)))) => {
                    let from = if ls && lo < u64::MAX {
                        (lo + 1) as u64
                    } else {
                        lo
                    };
                    let to = if hs && hi > 0 {
                        (hi - 1) as u64
                    } else {
                        hi
                    };
                    if from <= to {
                        Some((from, to))
                    } else {
                        None
                    }
                },
                _ => None,
            },
        }
    }
}

fn add_bound(b: Bounds, c: &Clause, field: &str) -> (r: Option<Bounds>)
    ensures
        r == bounded(b, c@, field@),
{
    match c {
        Clause::RangeMatch { field_intron, operator, operand_wire, .. } => {
            if !string_is(field_intron, field) {
                return None;
            }
            match as_numeric_u64(operand_wire.as_slice()) {
                Some(n) => match operator {
                    RangeOp::GreaterThan => Some((Some((true, n)), b.1)),
                    RangeOp::GreaterOrEqual => Some((Some((false, n)), b.1)),
                    RangeOp::LessThan => Some((b.0, Some((true, n)))),
                    RangeOp::LessOrEqual => Some((b.0, Some((false, n)))),
                    RangeOp::NotEqual => None,
                },
                None => None,
            }
        },
        _ => None,
    }
}

/// The bounds of two range clauses on `field`, both inclusive.
pub fn parse_indexed_between_bounds(pattern: &GuidePattern, field: &str) -> (r: Option<(u64, u64)>)
    ensures
        r == between(pattern@, field@),
{
    if pattern.clauses.len() != 2 {
        return None;
    }
    let one = match add_bound((None, None), &pattern.clauses[0], field) {
        Some(b) => b,
        None => {
            return None;
        },
    };
    match add_bound(one, &pattern.clauses[1], field) {
        Some((Some((lo_strict, lo)), Some((hi_strict, hi)))) => {
            let from: u64 = if lo_strict && lo < u64::MAX {
                lo + 1
            } else {
                lo
            };
            let to: u64 = if hi_strict && hi > 0 {
                hi - 1
            } else {
                hi
            };
            if from <= to {
                Some((from, to))
            } else {
                None
            }
        },
        _ => None,
    }
}

/// The field that two range clauses bound from both sides.
pub open spec fn between_field(g: GuideView) -> Option<Seq<char>> {
    if g.clauses.len() == 2 && between(g, g.clauses[0].field()) is Some {
        Some(g.clauses[0].field())
    } else {
        None
    }
}

fn indexed_between_field(pattern: &GuidePattern) -> (r: Option<String>)
    ensures
        match r {
            Some(f) => between_field(pattern@) == Some(f@),
            None => between_field(pattern@) is None,
        },
{
    if pattern.clauses.len() != 2 {
        return None;
    }
    let field = pattern.clauses[0].field();
    if parse_indexed_between_bounds(pattern, field.as_str()).is_some() {
        Some(field.clone())
    } else {
        None
    }
}

/// Whether a query is a point lookup: one clause, no order, no include, at most one row or
/// no limit.
pub open spec fn point_lookup(g: GuideView) -> bool {
    &&& g.clauses.len() == 1
    &&& g.includes.len() == 0
    &&& g.order_by is None
    &&& (g.limit is None || g.limit == Some(1u32))
}

/// Whether a query can be answered directly.
pub open spec fn goes_direct(g: GuideView, stats: CollectionStats) -> bool {
    &&& point_lookup(g)
    &&& g.clauses[0] is Exact
    &&& stats.direct_lookup_fields@.contains(g.clauses[0].field())
}

/// Whether a query is a span over an indexed field.
pub open spec fn goes_between(g: GuideView, stats: CollectionStats, field: Seq<char>) -> bool {
    &&& g.includes.len() == 0
    &&& g.order_by is None
    &&& between_field(g) == Some(field)
    &&& stats.indexed_fields@.contains(field)
}

/// Whether a query is a point lookup in an index that is expected to find at most one record
/// in twenty.
pub open spec fn goes_to_point_index(g: GuideView, stats: CollectionStats) -> bool {
    &&& point_lookup(g)
    &&& g.clauses[0] is Exact
    &&& stats.indexed_fields@.contains(g.clauses[0].field())
    &&& selectivity(stats, g.clauses[0].field()).0 * 20 <= selectivity(stats, g.clauses[0].field()).1
}

/// Whether some exact or range clause is on the indexed field `field`.
pub open spec fn index_candidate(g: GuideView, stats: CollectionStats, field: Seq<char>) -> bool {
    &&& stats.indexed_fields@.contains(field)
    &&& exists|i: int| 0 <= i < g.clauses.len() && !(#[trigger] g.clauses[i] is Like) && g.clauses[i].field() == field
}

/// Whether `f` goes before `h`: cheaper, or as cheap and earlier in the alphabet.
pub open spec fn preferred(stats: CollectionStats, f: Seq<char>, h: Seq<char>) -> bool {
    cheaper(index_cost(stats, f), index_cost(stats, h)) || (!cheaper(
        index_cost(stats, h),
        index_cost(stats, f),
    ) && text_less(f, h))
}

/// Whether `field` is the candidate that no other goes before.
pub open spec fn best_index(g: GuideView, stats: CollectionStats, field: Seq<char>) -> bool {
    &&& index_candidate(g, stats, field)
    &&& forall|h: Seq<char>| #[trigger] index_candidate(g, stats, h) ==> !preferred(stats, h, field)
}

/// Whether `path` is the one to take: direct where that is possible, else an index for a span
/// or a selective point lookup, else the best index if it is cheaper than a scan, else a scan.
pub open spec fn is_plan(g: GuideView, stats: CollectionStats, path: PathView) -> bool {
    if goes_direct(g, stats) {
        path == PathView::Direct
    } else if exists|f: Seq<char>| goes_between(g, stats, f) {
        exists|f: Seq<char>| #[trigger] goes_between(g, stats, f) && path == (PathView::Index { field: f })
    } else if goes_to_point_index(g, stats) {
        path == (PathView::Index { field: g.clauses[0].field() })
    } else if exists|f: Seq<char>| #[trigger]
        best_index(g, stats, f) && cheaper(index_cost(stats, f), scan_cost(g, stats)) {
        exists|f: Seq<char>| #[trigger] best_index(g, stats, f) && path == (PathView::Index { field: f })
    } else {
        path == PathView::GuidedScan
    }
}

proof fn lemma_cheaper_transitive(x: (nat, nat), y: (nat, nat), z: (nat, nat))
    requires
        x.1 > 0,
        y.1 > 0,
        z.1 > 0,
    ensures
        cheaper(x, y) && !cheaper(z, y) ==> cheaper(x, z),
        !cheaper(y, x) && cheaper(y, z) ==> cheaper(x, z),
        !cheaper(y, x) && !cheaper(z, y) ==> !cheaper(z, x),
        !cheaper(x, x),
        cheaper(x, y) ==> !cheaper(y, x),
{
    let (a, b) = (x.0 as int, x.1 as int);
    let (c, d) = (y.0 as int, y.1 as int);
    let (e, f) = (z.0 as int, z.1 as int);
    assert(a * d < c * b && c * f <= e * d ==> a * f < e * b) by (nonlinear_arith)
        requires
            a >= 0,
            c >= 0,
            e >= 0,
            b > 0,
            d > 0,
            f > 0,
    {
        if a * d < c * b && c * f <= e * d {
            assert(a * d * f < c * b * f) by (nonlinear_arith)
                requires
                    a * d < c * b,
                    f > 0,
            ;
            assert(c * f * b <= e * d * b) by (nonlinear_arith)
                requires
                    c * f <= e * d,
                    b > 0,
            ;
            assert((a * f) * d < (e * b) * d) by (nonlinear_arith)
                requires
                    a * d * f < c * b * f,
                    c * f * b <= e * d * b,
            ;
            assert(a * f < e * b) by (nonlinear_arith)
                requires
                    (a * f) * d < (e * b) * d,
                    d > 0,
            ;
        }
    }
    assert(a * d <= c * b && c * f < e * d ==> a * f < e * b) by (nonlinear_arith)
        requires
            a >= 0,
            c >= 0,
            e >= 0,
            b > 0,
            d > 0,
            f > 0,
    {
        if a * d <= c * b && c * f < e * d {
            assert(a * d * f <= c * b * f) by (nonlinear_arith)
                requires
                    a * d <= c * b,
                    f > 0,
            ;
            assert(c * f * b < e * d * b) by (nonlinear_arith)
                requires
                    c * f < e * d,
                    b > 0,
            ;
            assert((a * f) * d < (e * b) * d) by (nonlinear_arith)
                requires
                    a * d * f <= c * b * f,
                    c * f * b < e * d * b,
            ;
            assert(a * f < e * b) by (nonlinear_arith)
                requires
                    (a * f) * d < (e * b) * d,
                    d > 0,
            ;
        }
    }
    assert(a * d <= c * b && c * f <= e * d ==> a * f <= e * b) by (nonlinear_arith)
        requires
            a >= 0,
            c >= 0,
            e >= 0,
            b > 0,
            d > 0,
            f > 0,
    {
        if a * d <= c * b && c * f <= e * d {
            assert(a * d * f <= c * b * f) by (nonlinear_arith)
                requires
                    a * d <= c * b,
                    f > 0,
            ;
            assert(c * f * b <= e * d * b) by (nonlinear_arith)
                requires
                    c * f <= e * d,
                    b > 0,
            ;
            assert((a * f) * d <= (e * b) * d) by (nonlinear_arith)
                requires
                    a * d * f <= c * b * f,
                    c * f * b <= e * d * b,
            ;
            assert(a * f <= e * b) by (nonlinear_arith)
                requires
                    (a * f) * d <= (e * b) * d,
                    d > 0,
            ;
        }
    }
}

/// The clause whose field is the best index among the candidates.
fn best_candidate(pattern: &GuidePattern, stats: &CollectionStats) -> (r: Option<usize>)
    ensures
        match r {
            Some(i) => i < pattern@.clauses.len() && best_index(pattern@, *stats, pattern@.clauses[i as int].field())
                && index_cost(*stats, pattern@.clauses[i as int].field()).1 > 0,
            None => forall|f: Seq<char>| !#[trigger] index_candidate(pattern@, *stats, f),
        },
        forall|f: Seq<char>| #[trigger] index_candidate(pattern@, *stats, f) ==> index_cost(*stats, f).1 > 0,
{
    let ghost g = pattern@;
    let mut best: Option<usize> = None;
    let mut k: usize = 0;
    while k < pattern.clauses.len()
        invariant
            0 <= k <= pattern.clauses@.len(),
            g == pattern@,
            forall|i: int| 0 <= i < k && candidate_at(g, *stats, i) ==> index_cost(*stats, #[trigger] g.clauses[i].field()).1 > 0,
            match best {
                Some(b) => b < k && candidate_at(g, *stats, b as int) && forall|i: int|
                    0 <= i < k && candidate_at(g, *stats, i) ==> !preferred(
                        *stats,
                        #[trigger] g.clauses[i].field(),
                        g.clauses[b as int].field(),
                    ),
                None => forall|i: int| 0 <= i < k ==> !#[trigger] candidate_at(g, *stats, i),
            },
        decreases pattern.clauses@.len() - k,
    {
        let clause = &pattern.clauses[k];
        let eligible = match clause {
            Clause::LikePattern { .. } => false,
            _ => stats.indexed_fields.contains(clause.field().as_str()),
        };
        proof {
            assert(g.clauses[k as int] == clause@);
            assert(eligible == candidate_at(g, *stats, k as int));
        }
        if eligible {
            let (cost, den) = estimate_index_cost(clause.field().as_str(), stats);
            let ghost here = g.clauses[k as int].field();
            match best {
                None => {
                    proof {
                        lemma_cheaper_transitive(
                            index_cost(*stats, here),
                            index_cost(*stats, here),
                            index_cost(*stats, here),
                        );
                        lemma_lex_is_order();
                    }
                    best = Some(k);
                },
                Some(b) => {
                    let rival = pattern.clauses[b].field();
                    let (other, other_den) = estimate_index_cost(rival.as_str(), stats);
                    let below = cost_less(&cost, den, &other, other_den, 1);
                    let above = cost_less(&other, other_den, &cost, den, 1);
                    let replace = below || (!above && str_less(clause.field().as_str(), rival.as_str()));
                    proof {
                        let there = g.clauses[b as int].field();
                        assert(replace == preferred(*stats, here, there));
                        lemma_lex_is_order();
                        assert forall|i: int| 0 <= i <= k && candidate_at(g, *stats, i) implies !preferred(
                            *stats,
                            #[trigger] g.clauses[i].field(),
                            if replace { here } else { there },
                        ) by {
                            let f = g.clauses[i].field();
                            lemma_preferred(*stats, f, there, here);
                            lemma_preferred(*stats, here, here, here);
                        }
                    }
                    if replace {
                        best = Some(k);
                    }
                },
            }
        }
        k += 1;
    }
    proof {
        assert forall|f: Seq<char>| #[trigger] index_candidate(g, *stats, f) implies exists|i: int|
            0 <= i < g.clauses.len() && #[trigger] candidate_at(g, *stats, i) && g.clauses[i].field() == f by {
            let i = choose|i: int|
                0 <= i < g.clauses.len() && !(#[trigger] g.clauses[i] is Like) && g.clauses[i].field() == f;
            assert(candidate_at(g, *stats, i));
        }
        if best is Some {
            let b = best->0 as int;
            assert(!(g.clauses[b] is Like));
            assert(index_candidate(g, *stats, g.clauses[b].field()));
        }
    }
    best
}

/// Whether the `i`-th clause makes its field a candidate.
pub open spec fn candidate_at(g: GuideView, stats: CollectionStats, i: int) -> bool {
    !(g.clauses[i] is Like) && stats.indexed_fields@.contains(g.clauses[i].field())
}

/// Preference is a strict order, as far as needed: what does not go before `b` does not go
/// before anything that goes before `b`.
proof fn lemma_preferred(stats: CollectionStats, a: Seq<char>, b: Seq<char>, c: Seq<char>)
    requires
        index_cost(stats, a).1 > 0,
        index_cost(stats, b).1 > 0,
        index_cost(stats, c).1 > 0,
    ensures
        !preferred(stats, a, b) && preferred(stats, c, b) ==> !preferred(stats, a, c),
        !preferred(stats, a, a),
{
    lemma_lex_is_order();
    let x = index_cost(stats, a);
    let y = index_cost(stats, b);
    let z = index_cost(stats, c);
    lemma_cheaper_transitive(x, y, z);
    lemma_cheaper_transitive(x, z, y);
    lemma_cheaper_transitive(y, x, z);
    lemma_cheaper_transitive(y, z, x);
    lemma_cheaper_transitive(z, x, y);
    lemma_cheaper_transitive(z, y, x);
}

/// The access path for a query. Costs are compared as exact fractions, so that two costs that
/// are equal compare as equal; floating-point costs, which differ in their last places, could
/// break such a tie either way.
pub fn choose_path(pattern: &GuidePattern, stats: &CollectionStats) -> (r: QueryPath)
    ensures
        is_plan(pattern@, *stats, r@),
{
    let ghost g = pattern@;
    let point = pattern.clauses.len() == 1 && pattern.includes.len() == 0 && pattern.order_by.is_none() && (
    match pattern.limit {
        None => true,
        Some(n) => n == 1,
    });
    proof {
        assert(point == point_lookup(g));
    }
    if point {
        if let Clause::ExactMatch { field_intron, .. } = &pattern.clauses[0] {
            proof {
                assert(g.clauses[0] == pattern.clauses@[0]@);
            }
            if stats.direct_lookup_fields.contains(field_intron.as_str()) {
                return QueryPath::Direct;
            }
        }
    }
    proof {
        assert(g.clauses.len() == 1 ==> g.clauses[0] == pattern.clauses@[0]@);
        assert(!goes_direct(g, *stats));
    }
    if pattern.includes.len() == 0 && pattern.order_by.is_none() {
        if let Some(field) = indexed_between_field(pattern) {
            if stats.indexed_fields.contains(field.as_str()) {
                proof {
                    assert(goes_between(g, *stats, field@));
                }
                return QueryPath::Index { field };
            }
        }
    }
    proof {
        assert(forall|f: Seq<char>| !goes_between(g, *stats, f));
    }
    if point {
        if let Clause::ExactMatch { field_intron, .. } = &pattern.clauses[0] {
            if stats.indexed_fields.contains(field_intron.as_str()) {
                let (a, b) = selectivity_parts(stats, field_intron.as_str());
                if a as u128 * 20 <= b as u128 {
                    return QueryPath::Index { field: field_intron.clone() };
                }
            }
        }
    }
    proof {
        assert(!goes_to_point_index(g, *stats));
    }
    match best_candidate(pattern, stats) {
        Some(i) => {
            let field = pattern.clauses[i].field();
            let (scan, scan_den) = estimate_scan_cost(pattern, stats);
            let (cost, den) = estimate_index_cost(field.as_str(), stats);
            if cost_less(&cost, den, &scan, scan_den, 100) {
                return QueryPath::Index { field: field.clone() };
            }
            proof {
                assert forall|f: Seq<char>| #[trigger] best_index(g, *stats, f) implies !cheaper(
                    index_cost(*stats, f),
                    scan_cost(g, *stats),
                ) by {
                    lemma_lex_is_order();
                    assert(!preferred(*stats, f, field@) && !preferred(*stats, field@, f));
                    lemma_cheaper_transitive(index_cost(*stats, field@), index_cost(*stats, f), scan_cost(g, *stats));
                }
            }
        },
        None => {},
    }
    QueryPath::GuidedScan
}

/// An index is only chosen for an indexed field that an exact or range clause constrains.
pub proof fn law_index_plan_has_an_index(g: GuideView, stats: CollectionStats, path: PathView)
    requires
        is_plan(g, stats, path),
        path is Index,
    ensures
        index_candidate(g, stats, path->field),
{
    if exists|f: Seq<char>| goes_between(g, stats, f) {
        let f = choose|f: Seq<char>| #[trigger] goes_between(g, stats, f) && path == (PathView::Index { field: f });
        assert(bounded((None, None), g.clauses[0], f) is Some);
        assert(!(g.clauses[0] is Like) && g.clauses[0].field() == f);
    } else if goes_to_point_index(g, stats) {
        assert(!(g.clauses[0] is Like));
    }
}

/// A query is only looked up directly for its single exact clause on a direct field.
pub proof fn law_direct_plan_is_a_point_lookup(g: GuideView, stats: CollectionStats, path: PathView)
    requires
        is_plan(g, stats, path),
        path is Direct,
    ensures
        g.clauses.len() == 1,
        g.clauses[0] is Exact,
        stats.direct_lookup_fields@.contains(g.clauses[0].field()),
        g.order_by is None,
        g.includes.len() == 0,
{
}

/// There is one plan for every query.
pub proof fn law_plan_is_unique(g: GuideView, stats: CollectionStats, p: PathView, q: PathView)
    requires
        is_plan(g, stats, p),
        is_plan(g, stats, q),
        forall|f: Seq<char>| #[trigger] index_candidate(g, stats, f) ==> selectivity(stats, f).1 > 0,
    ensures
        p == q,
{
    assert forall|f: Seq<char>, h: Seq<char>| #[trigger] best_index(g, stats, f) && #[trigger] best_index(
        g,
        stats,
        h,
    ) implies f == h by {
        assert(!preferred(stats, f, h) && !preferred(stats, h, f));
        lemma_cheaper_transitive(index_cost(stats, f), index_cost(stats, h), index_cost(stats, f));
        lemma_text_total(f, h);
    }
}

} // verus!
