//! Which strand a signature stands for, where paths lead, what a projection holds, what a scan
//! stays within, and when a run of strands is skipped.
use super::bloom::{filter_of, maybe_in, place};
use super::codebook::{
    coded, count_of, is_codebook, law_complete_codebook_holds_every_hash, FieldCompressionDictionary,
};
use super::fast_match::fast_match;
use super::fetch::{answer, scan_rows};
use super::fetch_laws::distinct_signatures;
use super::fields::{carries, field_bytes};
use super::guide::{ClauseView, GuideView, RangeOp};
use super::literal::numeric_value;
use super::matching::{lemma_matching, matching, projects, values_upto, ProjectedRow};
use super::plan_cache::{after_get, after_insert, cached, keys_distinct, place as place_of};
use super::planner::PathView;
use super::scan::{
    candidates, hit, hits, hits_in, kept_of_segment, kept_segments, law_scan_reports_only_hits,
    scanned, segments, ScanConfig,
};
use super::segment::{
    clause_skips, describes, field_key, seen, seen_hashes, seen_values, sums_up, FieldStats,
};
use super::signatures::{
    find, found, hop, lemma_last_with, parts, path_parts, path_target, reached, references,
};
use crate::encoding::{codons_of, law_decode_inverts_encode, law_length_from_codon_count};
use crate::model::{Codon, IntronView, StrandView};
use crate::processor::fnv1a64_spec;
use vstd::prelude::*;

verus! {

/// A signature stands for the last strand that has it, and for none where no strand does.
pub proof fn law_signature_stands_for_the_last_strand(strands: Seq<StrandView>, sig: [u8; 8], i: int)
    ensures
        0 <= i < strands.len() && strands[i].signature == sig && (forall|j: int|
            i < j < strands.len() ==> (#[trigger] strands[j]).signature != sig) ==> find(strands, sig) == Some(
            strands[i],
        ),
        (forall|j: int| 0 <= j < strands.len() ==> (#[trigger] strands[j]).signature != sig) ==> find(strands, sig)
            is None,
{
    lemma_last_with(strands, sig, strands.len());
}

proof fn lemma_no_dots(path: Seq<char>, n: nat)
    requires
        n <= path.len(),
        !path.contains('.'),
    ensures
        parts(path, n).0 =~= Seq::<Seq<char>>::empty(),
        parts(path, n).1 =~= path.take(n as int),
    decreases n,
{
    if n > 0 {
        lemma_no_dots(path, (n - 1) as nat);
        assert(path.contains(path[n - 1]));
    }
}

proof fn lemma_references(strands: Seq<StrandView>, v: StrandView, part: Seq<char>, n: nat, t: StrandView)
    requires
        n <= v.introns.len(),
    ensures
        references(strands, v, part, n).contains(t) <==> exists|k: int|
            #![trigger v.introns[k]]
            0 <= k < n && v.introns[k].field_name == part && v.introns[k].references_strand is Some && find(
                strands,
                v.introns[k].references_strand->0,
            ) == Some(t),
    decreases n,
{
    if n > 0 {
        lemma_references(strands, v, part, (n - 1) as nat, t);
        let before = references(strands, v, part, (n - 1) as nat);
        let now = references(strands, v, part, n);
        let here = v.introns[n - 1];
        if before.contains(t) {
            assert(now[before.index_of(t)] == t);
        }
        if now.contains(t) {
            let q = now.index_of(t);
            if q < before.len() {
                assert(before[q] == t);
            }
        }
        if here.field_name == part && here.references_strand is Some && find(strands, here.references_strand->0)
            == Some(t) {
            assert(now[before.len() as int] == t);
        }
    }
}

/// A path of one name leads to exactly the strands that the root refers to under that name.
pub proof fn law_one_name_leads_to_what_the_root_refers_to(
    strands: Seq<StrandView>,
    root: StrandView,
    name: Seq<char>,
    t: StrandView,
)
    requires
        name.len() > 0,
        !name.contains('.'),
    ensures
        path_target(strands, root, name).contains(t) <==> exists|k: int|
            #![trigger root.introns[k]]
            0 <= k < root.introns.len() && root.introns[k].field_name == name
                && root.introns[k].references_strand is Some && find(strands, root.introns[k].references_strand->0)
                == Some(t),
{
    lemma_no_dots(name, name.len());
    assert(name.take(name.len() as int) =~= name);
    assert(path_parts(name) =~= seq![name]);
    let from = seq![root];
    assert(reached(strands, root, path_parts(name), 0) == from);
    assert(hop(strands, from, name, 0) =~= Seq::<StrandView>::empty());
    assert(hop(strands, from, name, 1) =~= references(strands, root, name, root.introns.len()));
    assert(reached(strands, root, path_parts(name), 1) == hop(strands, from, name, 1));
    lemma_references(strands, root, name, root.introns.len(), t);
}

proof fn lemma_values_upto(v: StrandView, f: Seq<char>, n: nat, i: int, value: Seq<u8>)
    requires
        n <= v.introns.len(),
    ensures
        i < n && carries(v, f, i, value) && (forall|j: int, w: Seq<u8>| j < i ==> !#[trigger] carries(v, f, j, w))
            ==> values_upto(v, f, n).len() > 0 && values_upto(v, f, n)[0] == value,
        (forall|j: int, w: Seq<u8>| j < n ==> !#[trigger] carries(v, f, j, w)) ==> values_upto(v, f, n).len() == 0,
    decreases n,
{
    if n > 0 {
        lemma_values_upto(v, f, (n - 1) as nat, i, value);
        let last = v.introns[n - 1];
        if last.field_name == f && field_bytes(v.codons, last) is Some {
            assert(carries(v, f, n - 1, field_bytes(v.codons, last)->0));
        }
    }
}

/// A projection has the signature, the version and the times of its strand and, of each field
/// asked for, the value of the first intron that carries one; nothing of other fields.
pub proof fn law_projection_holds_the_first_values(
    r: ProjectedRow,
    v: StrandView,
    required: Set<Seq<char>>,
    f: Seq<char>,
    i: int,
    value: Seq<u8>,
)
    requires
        projects(r, v, required),
    ensures
        r.signature == v.signature,
        r.version == v.version,
        r.created_at == v.created_at,
        r.updated_at == v.updated_at,
        required.contains(f) && carries(v, f, i, value) && (forall|j: int, w: Seq<u8>|
            j < i ==> !#[trigger] carries(v, f, j, w)) ==> r.fields@.dom().contains(f) && r.fields@[f]@ == value,
        !required.contains(f) ==> !r.fields@.dom().contains(f),
        (forall|j: int, w: Seq<u8>| !#[trigger] carries(v, f, j, w)) ==> !r.fields@.dom().contains(f),
{
    lemma_values_upto(v, f, v.introns.len(), i, value);
}

proof fn lemma_found_back(strands: Seq<StrandView>, sigs: Seq<[u8; 8]>, n: nat, v: StrandView) -> (k: int)
    requires
        n <= sigs.len(),
        found(strands, sigs, n).contains(v),
    ensures
        0 <= k < n,
        find(strands, sigs[k]) == Some(v),
    decreases n,
{
    if n == 0 {
        assert(false);
        0
    } else {
        let before = found(strands, sigs, (n - 1) as nat);
        let now = found(strands, sigs, n);
        let q = now.index_of(v);
        if q < before.len() {
            assert(before[q] == v);
            lemma_found_back(strands, sigs, (n - 1) as nat, v)
        } else {
            n - 1
        }
    }
}

/// A scan for one collection answers with strands of that collection only.
pub proof fn law_scan_stays_within_its_collection(
    g: GuideView,
    strands: Seq<StrandView>,
    cfg: ScanConfig,
    probing: bool,
    id: u32,
    v: StrandView,
)
    requires
        strands.len() <= usize::MAX,
        distinct_signatures(strands),
        cfg.collection_id == Some(id),
        answer(PathView::GuidedScan, g, strands, cfg, probing).contains(v),
    ensures
        v.collection_id == id,
{
    let plain = GuideView { order_by: None, limit: None, ..g };
    super::answer_laws::law_ordering_rearranges_and_limit_cuts_off(PathView::GuidedScan, g, strands, cfg, probing);
    let all = answer(PathView::GuidedScan, plain, strands, cfg, probing);
    let out = answer(PathView::GuidedScan, g, strands, cfg, probing);
    let p = choose|p: Seq<int>| #[trigger]
        super::answer_laws::takes_in_turn(all, out, p, g.order_by is Some);
    let i = out.index_of(v);
    assert(out[i] == all[p[i]]);
    let rows = scan_rows(plain, strands, cfg);
    assert(all == matching(rows, plain));
    lemma_matching(rows, plain);
    assert(all.contains(all[p[i]]));
    assert(rows.contains(v));
    let sigs = scanned(plain, strands, cfg);
    let k = lemma_found_back(strands, sigs, sigs.len(), v);
    assert(sigs.contains(sigs[k]));
    law_scan_reports_only_hits(plain, strands, cfg, sigs[k]);
    let m = choose|m: int|
        0 <= m < strands.len() && hit(plain, cfg.collection_id, #[trigger] strands[m]) && strands[m].signature == sigs[k];
    lemma_last_with(strands, sigs[k], strands.len());
}

/// An empty filter holds nothing, and a filter is sure of a value only where each place of the
/// value is marked.
pub proof fn law_filter_denies_what_is_not_marked(bits: Seq<u8>, hashes: nat, len: nat, value: Seq<u8>, seed: nat)
    requires
        len > 0,
        seed < hashes,
    ensures
        !maybe_in(filter_of(Seq::empty(), hashes, len), hashes, value),
        bits[place(value, seed, bits.len())] != 1 ==> !maybe_in(bits, hashes, value),
{
    let none = filter_of(Seq::empty(), hashes, len);
    assert(none.len() == len);
    let at = place(value, seed, len);
    assert(0 <= at < len);
    assert(none[at] == 0);
    assert(none[place(value, seed, none.len())] != 1);
}

/// A codebook has no more than 254 codes. It codes the most frequent hashes: each code stands for
/// a hash that occurs, with its count, from one on in the order of their counts, and a hash that
/// is left out occurs no oftener than any that is coded.
pub proof fn law_codebook_codes_the_most_frequent(
    d: FieldCompressionDictionary,
    hashes: Seq<u64>,
    i: int,
    j: int,
    h: u64,
)
    requires
        is_codebook(d, hashes),
    ensures
        d.total_values == hashes.len(),
        d.entries@.len() <= 254,
        0 <= i < d.entries@.len() ==> d.entries@[i].code == i + 1 && d.entries@[i].frequency == count_of(
            hashes,
            d.entries@[i].value_hash,
        ) && d.entries@[i].frequency > 0,
        0 <= i < j < d.entries@.len() ==> d.entries@[i].frequency >= d.entries@[j].frequency,
        count_of(hashes, h) > 0 && !coded(d.entries@).contains(h) ==> d.entries@.len() == 254,
        count_of(hashes, h) > 0 && !coded(d.entries@).contains(h) && 0 <= i < d.entries@.len() ==> count_of(hashes, h)
            <= d.entries@[i].frequency,
{
    assert(count_of(hashes, h) > 0 || count_of(hashes, h) == 0);
}

/// A hash is counted once for each place where it stands.
pub proof fn law_hashes_are_counted(hashes: Seq<u64>, h: u64)
    ensures
        count_of(hashes, h) == hashes.filter(|x: u64| x == h).len(),
    decreases hashes.len(),
{
    reveal(Seq::filter);
    if hashes.len() > 0 {
        law_hashes_are_counted(hashes.drop_last(), h);
    }
}

proof fn lemma_counted(hashes: Seq<u64>, h: u64)
    ensures
        count_of(hashes, h) > 0 <==> hashes.contains(h),
    decreases hashes.len(),
{
    if hashes.len() > 0 {
        let front = hashes.drop_last();
        lemma_counted(front, h);
        if front.contains(h) {
            assert(hashes[front.index_of(h)] == h);
        }
        if hashes.contains(h) {
            let q = hashes.index_of(h);
            if q < front.len() {
                assert(front[q] == h);
            }
        }
        if hashes.last() == h {
            assert(hashes[hashes.len() - 1] == h);
        }
    }
}

/// A run of strands is skipped by an exact clause on a tracked field where all of its hashes are
/// coded and that of the operand is not among them.
pub proof fn law_absent_hash_is_skipped(
    stats: Map<u64, FieldStats>,
    books: Map<u64, FieldCompressionDictionary>,
    strands: Seq<StrandView>,
    names: Seq<&str>,
    places: nat,
    hashes: nat,
    c: ClauseView,
)
    requires
        describes(stats, books, strands, names, places, hashes),
        c is Exact,
        exists|i: int| 0 <= i < names.len() && field_key((#[trigger] names[i])@) == field_key(c.field()),
        books[field_key(c.field())].complete(),
        !seen_hashes(seen(strands, field_key(c.field()), strands.len())).contains(fnv1a64_spec(c->Exact_wire)),
    ensures
        clause_skips(stats, Some(books), c),
{
    let key = field_key(c.field());
    assert(super::segment::tracks(names, key));
    assert(stats.dom().contains(key) && books.dom().contains(key));
    let all = seen_hashes(seen(strands, key, strands.len()));
    let h = fnv1a64_spec(c->Exact_wire);
    law_complete_codebook_holds_every_hash(books[key], all, h);
    lemma_counted(all, h);
}

/// A run of strands with numbers in a tracked field is skipped by a range clause exactly where no
/// number from the lowest to the highest of them stands to the operand's as the clause says.
pub proof fn law_numbers_out_of_range_are_skipped(
    stats: Map<u64, FieldStats>,
    books: Map<u64, FieldCompressionDictionary>,
    strands: Seq<StrandView>,
    names: Seq<&str>,
    places: nat,
    hashes: nat,
    c: ClauseView,
    lo: int,
    hi: int,
)
    requires
        describes(stats, books, strands, names, places, hashes),
        c is Range,
        exists|i: int| 0 <= i < names.len() && field_key((#[trigger] names[i])@) == field_key(c.field()),
        numeric_value(c->Range_wire) is Some,
        ({
            let vals = seen_values(seen(strands, field_key(c.field()), strands.len()));
            &&& 0 <= lo < vals.len() && numeric_value(vals[lo]) is Some
            &&& 0 <= hi < vals.len() && numeric_value(vals[hi]) is Some
            &&& forall|i: int|
                0 <= i < vals.len() && numeric_value(#[trigger] vals[i]) is Some ==> numeric_value(vals[lo])->0
                    <= numeric_value(vals[i])->0 && numeric_value(vals[i])->0 <= numeric_value(vals[hi])->0
        }),
    ensures
        ({
            let vals = seen_values(seen(strands, field_key(c.field()), strands.len()));
            let a = numeric_value(vals[lo])->0;
            let b = numeric_value(vals[hi])->0;
            let n = numeric_value(c->Range_wire)->0;
            clause_skips(stats, Some(books), c) <==> match c->op {
                RangeOp::GreaterThan => b <= n,
                RangeOp::GreaterOrEqual => b < n,
                RangeOp::LessThan => a >= n,
                RangeOp::LessOrEqual => a > n,
                RangeOp::NotEqual => a == n && b == n,
            }
        }),
{
    let key = field_key(c.field());
    assert(super::segment::tracks(names, key));
    assert(stats.dom().contains(key));
    let s = seen(strands, key, strands.len());
    assert(sums_up(stats[key], s, places, hashes));
    let st = stats[key];
    let vals = seen_values(s);
    assert(numeric_value(vals[lo]) is Some && numeric_value(vals[hi]) is Some);
    assert(st.has_numeric);
    let i = choose|i: int| 0 <= i < vals.len() && numeric_value(#[trigger] vals[i]) == Some(st.min_numeric);
    let j = choose|j: int| 0 <= j < vals.len() && numeric_value(#[trigger] vals[j]) == Some(st.max_numeric);
    assert(numeric_value(vals[lo])->0 <= st.min_numeric);
    assert(st.max_numeric <= numeric_value(vals[hi])->0);
}

/// Nothing is skipped for a field that is not tracked, nor by a pattern.
pub proof fn law_untracked_fields_skip_nothing(
    stats: Map<u64, FieldStats>,
    books: Map<u64, FieldCompressionDictionary>,
    strands: Seq<StrandView>,
    names: Seq<&str>,
    places: nat,
    hashes: nat,
    c: ClauseView,
)
    requires
        describes(stats, books, strands, names, places, hashes),
        c is Like || forall|i: int| 0 <= i < names.len() ==> field_key((#[trigger] names[i])@) != field_key(c.field()),
    ensures
        !clause_skips(stats, Some(books), c),
        !clause_skips(stats, None, c),
{
    assert(stats.dom().contains(field_key(c.field())) <==> super::segment::tracks(names, field_key(c.field())));
}

/// A lookup forgets no plan, and storing one forgets none but the least recently used, and that
/// only for want of room.
pub proof fn law_plans_are_kept(s: Seq<(u64, PathView)>, capacity: nat, key: u64, plan: PathView, i: int)
    requires
        keys_distinct(s),
        0 <= i < s.len(),
    ensures
        after_get(s, key).len() == s.len(),
        after_get(s, key).contains(s[i]),
        cached(s, key) ==> after_get(s, key).last().0 == key,
        s[i].0 != key && (cached(s, key) || s.len() < capacity || i > 0) ==> after_insert(s, capacity, key, plan).contains(
            s[i],
        ),
        !cached(s, key) && s.len() >= capacity && s[i].0 != key && i == 0 ==> !cached(
            after_insert(s, capacity, key, plan),
            s[i].0,
        ),
        after_insert(s, capacity, key, plan).last() == (key, plan),
{
    let k = place_of(s, key);
    if cached(s, key) {
        let g = after_get(s, key);
        if i < k {
            assert(g[i] == s[i]);
        } else if i > k {
            assert(g[i - 1] == s[i]);
        } else {
            assert(g[s.len() - 1] == s[i]);
        }
        let r = after_insert(s, capacity, key, plan);
        if s[i].0 != key {
            if i < k {
                assert(r[i] == s[i]);
            } else {
                assert(r[i - 1] == s[i]);
            }
        }
    } else {
        assert(after_get(s, key)[i] == s[i]);
        let r = after_insert(s, capacity, key, plan);
        if s.len() < capacity {
            assert(r[i] == s[i]);
        } else if i > 0 {
            assert(r[i - 1] == s[i]);
        } else if s[0].0 != key {
            assert forall|j: int| 0 <= j < r.len() implies (#[trigger] r[j]).0 != s[0].0 by {
                if j < r.len() - 1 {
                    assert(r[j] == s[j + 1]);
                }
            }
        }
    }
}

/// Whether a strand has what a scan looks for: an intron on the field of each clause and, for an
/// exact clause, with the hash of its operand.
pub open spec fn looks_right(v: StrandView, g: GuideView) -> bool {
    forall|k: int|
        #![trigger g.clauses[k]]
        0 <= k < g.clauses.len() ==> exists|i: int|
            #![trigger v.introns[i]]
            0 <= i < v.introns.len() && v.introns[i].field_name == g.clauses[k].field() && (g.clauses[k] is Exact
                ==> v.introns[i].value_hash == fnv1a64_spec(g.clauses[k]->Exact_wire))
}

proof fn lemma_hit_looks_right(g: GuideView, id: Option<u32>, v: StrandView)
    ensures
        hit(g, id, v) <==> (id is None || id == Some(v.collection_id)) && looks_right(v, g),
{
    if hit(g, id, v) {
        assert forall|k: int|
            #![trigger g.clauses[k]]
            0 <= k < g.clauses.len() implies exists|i: int|
            #![trigger v.introns[i]]
            0 <= i < v.introns.len() && v.introns[i].field_name == g.clauses[k].field() && (g.clauses[k] is Exact
                ==> v.introns[i].value_hash == fnv1a64_spec(g.clauses[k]->Exact_wire)) by {
            assert(fast_match(g.clauses[k], v.introns));
        }
    }
    if looks_right(v, g) {
        assert forall|k: int| 0 <= k < g.clauses.len() implies fast_match(#[trigger] g.clauses[k], v.introns) by {
            let i = choose|i: int|
                #![trigger v.introns[i]]
                0 <= i < v.introns.len() && v.introns[i].field_name == g.clauses[k].field() && (g.clauses[k] is Exact
                    ==> v.introns[i].value_hash == fnv1a64_spec(g.clauses[k]->Exact_wire));
            assert(v.introns[i].field_name == g.clauses[k].field());
        }
    }
}

/// A scan without segments reports the signatures of exactly the strands of its collection, or of
/// all where it is for none, that have what it looks for.
pub proof fn law_scan_reports_what_looks_right(g: GuideView, strands: Seq<StrandView>, cfg: ScanConfig, sig: [u8; 8])
    requires
        strands.len() <= usize::MAX,
        cfg.segment_ranges is None,
        cfg.segment_block_metas is None,
    ensures
        scanned(g, strands, cfg).contains(sig) <==> exists|m: int|
            0 <= m < strands.len() && (#[trigger] strands[m]).signature == sig && (cfg.collection_id is None
                || cfg.collection_id == Some(strands[m].collection_id)) && looks_right(strands[m], g),
{
    let n = strands.len() as usize;
    let ranges = candidates(cfg, g, n);
    assert(segments(cfg, n) =~= seq![(0usize, n)]);
    assert(kept_segments(cfg, g, n, 0) =~= Seq::<(usize, usize)>::empty());
    assert(kept_of_segment(cfg, g, n, 0) =~= seq![(0usize, n)]);
    assert(kept_segments(cfg, g, n, 1) =~= seq![(0usize, n)]);
    assert(ranges =~= seq![(0usize, n)]);
    assert(hits_in(g, cfg.collection_id, strands, ranges, 0) =~= Seq::<[u8; 8]>::empty());
    assert(hits_in(g, cfg.collection_id, strands, ranges, 1) =~= hits(g, cfg.collection_id, strands, 0, n as int));
    lemma_hits(g, cfg.collection_id, strands, n as int, sig);
}

proof fn lemma_hits(g: GuideView, id: Option<u32>, strands: Seq<StrandView>, to: int, sig: [u8; 8])
    requires
        0 <= to <= strands.len(),
    ensures
        hits(g, id, strands, 0, to).contains(sig) <==> exists|m: int|
            0 <= m < to && (#[trigger] strands[m]).signature == sig && (id is None || id == Some(
                strands[m].collection_id,
            )) && looks_right(strands[m], g),
    decreases to,
{
    if to > 0 {
        lemma_hits(g, id, strands, to - 1, sig);
        let v = strands[to - 1];
        lemma_hit_looks_right(g, id, v);
        let before = hits(g, id, strands, 0, to - 1);
        let now = hits(g, id, strands, 0, to);
        if before.contains(sig) {
            assert(now[before.index_of(sig)] == sig);
        }
        if now.contains(sig) {
            let q = now.index_of(sig);
            if q < before.len() {
                assert(before[q] == sig);
            } else {
                assert(strands[to - 1].signature == sig);
            }
        }
        if hit(g, id, v) && v.signature == sig {
            assert(now[before.len() as int] == sig);
        }
    }
}

/// The codons under an intron, where they are those of some bytes, are read as these bytes,
/// wherever in the strand they stand; an intron that reaches beyond the strand is not read.
pub proof fn law_introns_read_the_bytes_under_them(codons: Seq<Codon>, intron: IntronView, bytes: Seq<u8>)
    ensures
        intron.codon_offset + intron.codon_length > codons.len() ==> field_bytes(codons, intron) is None,
        intron.codon_offset + intron.codon_length <= codons.len() && codons.subrange(
            intron.codon_offset as int,
            intron.codon_offset + intron.codon_length,
        ) == codons_of(bytes) ==> field_bytes(codons, intron) == Some(bytes),
{
    law_length_from_codon_count(bytes);
    law_decode_inverts_encode(bytes);
}

} // verus!
