//! Segment metadata: what a run of strands holds, summed up so that a scan can skip it.
use super::bloom::{filter_of, law_no_false_negatives, maybe_in};
use super::codebook::{
    build_codebook, coded, is_codebook, law_complete_codebook_holds_every_hash,
    lemma_member_is_counted,
};
use super::fast_match::fast_match;
use super::fields::{carries, field_bytes, has_value, intron_payload_bytes};
use super::guide::{Clause, ClauseView, GuidePattern, GuideView, RangeOp};
use super::literal::{as_numeric_u64, numeric_value};
use crate::model::{strand_views, Strand, StrandView};
use crate::processor::{fnv1a64, fnv1a64_spec};
use crate::support::int_map::IntMap;
use vstd::prelude::*;
use vstd::utf8::encode_utf8;

pub use super::bloom::BloomFilter;
pub use super::codebook::{FieldCompressionDictionary, ValueCodebookEntry};

verus! {

/// Numbers and values seen in one field.
#[derive(Debug)]
pub struct FieldStats {
    pub min_numeric: u64,
    pub max_numeric: u64,
    pub has_numeric: bool,
    pub bloom: BloomFilter,
}

/// Summary of a segment.
#[derive(Debug)]
pub struct SegmentMeta {
    pub segment_id: u32,
    pub record_count: u64,
    pub field_stats: IntMap<FieldStats>,
    /// Codebooks of the tracked fields.
    pub field_dictionaries: IntMap<FieldCompressionDictionary>,
}

/// Summary of a block within a segment.
#[derive(Debug)]
pub struct SegmentBlockMeta {
    pub block_id: u32,
    pub record_count: u32,
    pub field_stats: IntMap<FieldStats>,
    pub field_dictionaries: IntMap<FieldCompressionDictionary>,
}

/// The hash under which a field is tracked.
pub open spec fn field_key(name: Seq<char>) -> u64 {
    fnv1a64_spec(encode_utf8(name))
}

/// The hash under which the field `name` is tracked.
pub fn field_hash(name: &str) -> (r: u64)
    ensures
        r == field_key(name@),
{
    fnv1a64(name.as_bytes())
}

/// The introns among the first `n` of a strand whose field has the hash `key`: each one's
/// value hash, and its bytes where they can be decoded.
pub open spec fn seen_introns(v: StrandView, key: u64, n: nat) -> Seq<(u64, Option<Seq<u8>>)>
    decreases n,
{
    if n == 0 {
        Seq::empty()
    } else {
        let before = seen_introns(v, key, (n - 1) as nat);
        let intron = v.introns[n - 1];
        if field_key(intron.field_name) == key {
            before.push((intron.value_hash, field_bytes(v.codons, intron)))
        } else {
            before
        }
    }
}

/// The same for the first `n` strands.
pub open spec fn seen(strands: Seq<StrandView>, key: u64, n: nat) -> Seq<(u64, Option<Seq<u8>>)>
    decreases n,
{
    if n == 0 {
        Seq::empty()
    } else {
        seen(strands, key, (n - 1) as nat) + seen_introns(
            strands[n - 1],
            key,
            strands[n - 1].introns.len(),
        )
    }
}

/// The value hashes seen.
pub open spec fn seen_hashes(s: Seq<(u64, Option<Seq<u8>>)>) -> Seq<u64> {
    Seq::new(s.len(), |i: int| s[i].0)
}

/// The values seen, as far as they could be decoded.
pub open spec fn seen_values(s: Seq<(u64, Option<Seq<u8>>)>) -> Seq<Seq<u8>>
    decreases s.len(),
{
    if s.len() == 0 {
        Seq::empty()
    } else {
        match s.last().1 {
            Some(b) => seen_values(s.drop_last()).push(b),
            None => seen_values(s.drop_last()),
        }
    }
}

/// Whether the numbers of `st` are the smallest and largest that the values stand for; without
/// a number among them the bounds are crossed.
pub open spec fn bounds(st: FieldStats, values: Seq<Seq<u8>>) -> bool {
    &&& st.has_numeric <==> exists|i: int| 0 <= i < values.len() && numeric_value(#[trigger] values[i]) is Some
    &&& !st.has_numeric ==> st.min_numeric == u64::MAX && st.max_numeric == 0
    &&& forall|i: int|
        0 <= i < values.len() ==> (numeric_value(#[trigger] values[i]) matches Some(x) ==> st.min_numeric
            <= x <= st.max_numeric)
    &&& st.has_numeric ==> exists|i: int|
        0 <= i < values.len() && numeric_value(#[trigger] values[i]) == Some(st.min_numeric)
    &&& st.has_numeric ==> exists|i: int|
        0 <= i < values.len() && numeric_value(#[trigger] values[i]) == Some(st.max_numeric)
}

/// Whether `st` sums up what was seen, with a filter of at least eight places and one hash.
pub open spec fn sums_up(st: FieldStats, s: Seq<(u64, Option<Seq<u8>>)>, places: nat, hashes: nat) -> bool {
    &&& bounds(st, seen_values(s))
    &&& st.bloom.hashes() == (if hashes < 1 {
        1
    } else {
        hashes
    })
    &&& st.bloom.bits() == filter_of(
        seen_values(s),
        st.bloom.hashes(),
        (if places < 8 {
            8
        } else {
            places
        }),
    )
}

/// Whether `key` is the hash of a tracked field.
pub open spec fn tracks(names: Seq<&str>, key: u64) -> bool {
    exists|i: int| 0 <= i < names.len() && field_key((#[trigger] names[i])@) == key
}

/// Whether statistics and codebooks describe exactly the tracked fields of the strands.
pub open spec fn describes(
    stats: Map<u64, FieldStats>,
    books: Map<u64, FieldCompressionDictionary>,
    strands: Seq<StrandView>,
    names: Seq<&str>,
    places: nat,
    hashes: nat,
) -> bool {
    &&& forall|key: u64| #[trigger] stats.dom().contains(key) <==> tracks(names, key)
    &&& forall|key: u64| #[trigger] books.dom().contains(key) <==> tracks(names, key)
    &&& forall|key: u64| #[trigger]
        stats.dom().contains(key) ==> sums_up(stats[key], seen(strands, key, strands.len()), places, hashes)
    &&& forall|key: u64| #[trigger]
        books.dom().contains(key) ==> is_codebook(books[key], seen_hashes(seen(strands, key, strands.len())))
}

/// Whether the introns of every tracked field can be counted in 32 bits, as the codebooks do.
pub open spec fn countable(strands: Seq<StrandView>, names: Seq<&str>) -> bool {
    forall|key: u64| #[trigger] tracks(names, key) ==> seen(strands, key, strands.len()).len() <= u32::MAX
}

/// How many introns the first `n` strands have.
pub open spec fn intron_total(strands: Seq<StrandView>, n: nat) -> nat
    decreases n,
{
    if n == 0 {
        0
    } else {
        intron_total(strands, (n - 1) as nat) + strands[n - 1].introns.len()
    }
}

proof fn lemma_seen_introns_bounded(v: StrandView, key: u64, n: nat)
    ensures
        seen_introns(v, key, n).len() <= n,
    decreases n,
{
    if n > 0 {
        lemma_seen_introns_bounded(v, key, (n - 1) as nat);
    }
}

proof fn lemma_seen_bounded(strands: Seq<StrandView>, key: u64, n: nat)
    requires
        n <= strands.len(),
    ensures
        seen(strands, key, n).len() <= intron_total(strands, n),
    decreases n,
{
    if n > 0 {
        lemma_seen_bounded(strands, key, (n - 1) as nat);
        lemma_seen_introns_bounded(strands[n - 1], key, strands[n - 1].introns.len());
    }
}

/// Strands with no more introns than 32 bits can count are countable whatever is tracked.
pub proof fn law_few_introns_are_countable(strands: Seq<StrandView>, names: Seq<&str>)
    requires
        intron_total(strands, strands.len()) <= u32::MAX,
    ensures
        countable(strands, names),
{
    assert forall|key: u64| #[trigger] tracks(names, key) implies seen(strands, key, strands.len()).len()
        <= u32::MAX by {
        lemma_seen_bounded(strands, key, strands.len());
    }
}

/// One field's statistics together with its value hashes.
struct Tally {
    stats: FieldStats,
    hashes: Vec<u64>,
}

fn note_value(stats: FieldStats, bytes: &[u8], Ghost(values): Ghost<Seq<Seq<u8>>>) -> (r: FieldStats)
    requires
        bounds(stats, values),
    ensures
        bounds(r, values.push(bytes@)),
        r.bloom.hashes() == stats.bloom.hashes(),
        r.bloom.bits() == super::bloom::added(stats.bloom.bits(), stats.bloom.hashes(), bytes@),
{
    let mut bloom = stats.bloom;
    bloom.add(bytes);
    let ghost after = values.push(bytes@);
    proof {
        assert forall|i: int| 0 <= i < values.len() implies after[i] == #[trigger] values[i] by {}
    }
    match as_numeric_u64(bytes) {
        Some(n) => {
            let lo: u64 = if n < stats.min_numeric {
                n
            } else {
                stats.min_numeric
            };
            let hi: u64 = if n > stats.max_numeric {
                n
            } else {
                stats.max_numeric
            };
            let r = FieldStats { min_numeric: lo, max_numeric: hi, has_numeric: true, bloom };
            proof {
                assert(after[values.len() as int] == bytes@);
                if stats.has_numeric {
                    let a = choose|i: int|
                        0 <= i < values.len() && numeric_value(#[trigger] values[i]) == Some(stats.min_numeric);
                    let b = choose|i: int|
                        0 <= i < values.len() && numeric_value(#[trigger] values[i]) == Some(stats.max_numeric);
                    assert(after[a] == values[a] && after[b] == values[b]);
                }
                assert forall|i: int| 0 <= i < after.len() implies (numeric_value(
                    #[trigger] after[i],
                ) matches Some(x) ==> r.min_numeric <= x <= r.max_numeric) by {
                    if i < values.len() {
                        assert(after[i] == values[i]);
                    }
                }
            }
            r
        },
        None => {
            let r = FieldStats {
                min_numeric: stats.min_numeric,
                max_numeric: stats.max_numeric,
                has_numeric: stats.has_numeric,
                bloom,
            };
            proof {
                if r.has_numeric {
                    let a = choose|i: int|
                        0 <= i < values.len() && numeric_value(#[trigger] values[i]) == Some(stats.min_numeric);
                    let b = choose|i: int|
                        0 <= i < values.len() && numeric_value(#[trigger] values[i]) == Some(stats.max_numeric);
                    assert(after[a] == values[a] && after[b] == values[b]);
                }
                assert forall|i: int| 0 <= i < after.len() implies (numeric_value(
                    #[trigger] after[i],
                ) matches Some(x) ==> r.min_numeric <= x <= r.max_numeric) by {
                    if i < values.len() {
                        assert(after[i] == values[i]);
                    }
                }
                if exists|i: int| 0 <= i < after.len() && numeric_value(#[trigger] after[i]) is Some {
                    let i = choose|i: int| 0 <= i < after.len() && numeric_value(#[trigger] after[i]) is Some;
                    assert(i < values.len());
                    assert(values[i] == after[i]);
                }
            }
            r
        },
    }
}

/// Sums up one field of a run of strands.
fn tally_field(strands: &[Strand], key: u64, bloom_bits: usize, bloom_hashes: u8) -> (r: Tally)
    ensures
        sums_up(
            r.stats,
            seen(strand_views(strands@), key, strands@.len()),
            bloom_bits as nat,
            bloom_hashes as nat,
        ),
        r.hashes@ == seen_hashes(seen(strand_views(strands@), key, strands@.len())),
{
    let ghost views = strand_views(strands@);
    let bloom = BloomFilter::new(bloom_bits, bloom_hashes);
    let mut stats = FieldStats { min_numeric: u64::MAX, max_numeric: 0, has_numeric: false, bloom };
    let mut hashes: Vec<u64> = Vec::new();
    let ghost empty: Seq<(u64, Option<Seq<u8>>)> = Seq::empty();
    proof {
        assert(seen_values(empty) =~= Seq::<Seq<u8>>::empty());
        assert(seen_hashes(empty) =~= Seq::<u64>::empty());
    }
    let mut n: usize = 0;
    while n < strands.len()
        invariant
            0 <= n <= strands@.len(),
            views == strand_views(strands@),
            sums_up(stats, seen(views, key, n as nat), bloom_bits as nat, bloom_hashes as nat),
            hashes@ == seen_hashes(seen(views, key, n as nat)),
        decreases strands@.len() - n,
    {
        let s = &strands[n];
        let ghost base = seen(views, key, n as nat);
        let mut i: usize = 0;
        proof {
            assert(base + seen_introns(s@, key, 0) =~= base);
        }
        while i < s.introns.len()
            invariant
                0 <= i <= s.introns@.len(),
                sums_up(
                    stats,
                    base + seen_introns(s@, key, i as nat),
                    bloom_bits as nat,
                    bloom_hashes as nat,
                ),
                hashes@ == seen_hashes(base + seen_introns(s@, key, i as nat)),
            decreases s.introns@.len() - i,
        {
            let intron = &s.introns[i];
            let ghost now = base + seen_introns(s@, key, i as nat);
            if field_hash(intron.field_name.as_str()) == key {
                let ghost item = (intron.value_hash, field_bytes(s@.codons, intron@));
                proof {
                    assert(base + seen_introns(s@, key, (i + 1) as nat) =~= now.push(item));
                    assert(now.push(item).drop_last() =~= now);
                    assert(seen_hashes(now.push(item)) =~= seen_hashes(now).push(item.0));
                }
                hashes.push(intron.value_hash);
                if let Some(bytes) = intron_payload_bytes(s, intron) {
                    proof {
                        let values = seen_values(now);
                        assert(values.push(bytes@).drop_last() =~= values);
                    }
                    stats = note_value(stats, bytes.as_slice(), Ghost(seen_values(now)));
                }
            }
            i += 1;
        }
        proof {
            assert(views[n as int] == s@);
        }
        n += 1;
    }
    Tally { stats, hashes }
}

/// Statistics and codebooks of the tracked fields.
fn describe(strands: &[Strand], tracked_fields: &[&str], bloom_bits: usize, bloom_hashes: u8) -> (r: (
    IntMap<FieldStats>,
    IntMap<FieldCompressionDictionary>,
))
    requires
        countable(strand_views(strands@), tracked_fields@),
    ensures
        describes(
            r.0@,
            r.1@,
            strand_views(strands@),
            tracked_fields@,
            bloom_bits as nat,
            bloom_hashes as nat,
        ),
{
    let ghost views = strand_views(strands@);
    let mut stats: IntMap<FieldStats> = IntMap::new();
    let mut books: IntMap<FieldCompressionDictionary> = IntMap::new();
    let mut t: usize = 0;
    proof {
        assert(describes(stats@, books@, views, tracked_fields@.take(0), bloom_bits as nat, bloom_hashes as nat));
    }
    while t < tracked_fields.len()
        invariant
            0 <= t <= tracked_fields@.len(),
            views == strand_views(strands@),
            countable(views, tracked_fields@),
            describes(
                stats@,
                books@,
                views,
                tracked_fields@.take(t as int),
                bloom_bits as nat,
                bloom_hashes as nat,
            ),
        decreases tracked_fields@.len() - t,
    {
        let name = tracked_fields[t];
        let key: u64 = field_hash(name);
        let tally = tally_field(strands, key, bloom_bits, bloom_hashes);
        proof {
            assert(field_key(tracked_fields@[t as int]@) == key);
            assert(tracks(tracked_fields@, key));
            let before = tracked_fields@.take(t as int);
            let after = tracked_fields@.take(t + 1);
            assert forall|k: u64| #[trigger] tracks(after, k) <==> (tracks(before, k) || k == key) by {
                if tracks(after, k) {
                    let i = choose|i: int| 0 <= i < after.len() && field_key((#[trigger] after[i])@) == k;
                    if i < t {
                        assert(before[i] == after[i]);
                    }
                }
                if tracks(before, k) {
                    let i = choose|i: int| 0 <= i < before.len() && field_key((#[trigger] before[i])@) == k;
                    assert(after[i] == before[i]);
                }
                if k == key {
                    assert(after[t as int] == name);
                }
            }
        }
        let book = build_codebook(tally.hashes);
        let ghost old_stats = stats@;
        let ghost old_books = books@;
        let _ = stats.insert(key, tally.stats);
        let _ = books.insert(key, book);
        proof {
            let after = tracked_fields@.take(t + 1);
            assert forall|k: u64| #[trigger] stats@.dom().contains(k) <==> tracks(after, k) by {
                assert(old_stats.dom().contains(k) <==> tracks(tracked_fields@.take(t as int), k));
            }
            assert forall|k: u64| #[trigger] books@.dom().contains(k) <==> tracks(after, k) by {
                assert(old_books.dom().contains(k) <==> tracks(tracked_fields@.take(t as int), k));
            }
            assert forall|k: u64| #[trigger] stats@.dom().contains(k) implies sums_up(
                stats@[k],
                seen(views, k, views.len()),
                bloom_bits as nat,
                bloom_hashes as nat,
            ) by {
                if k != key {
                    assert(old_stats.dom().contains(k));
                }
            }
            assert forall|k: u64| #[trigger] books@.dom().contains(k) implies is_codebook(
                books@[k],
                seen_hashes(seen(views, k, views.len())),
            ) by {
                if k != key {
                    assert(old_books.dom().contains(k));
                }
            }
        }
        t += 1;
    }
    proof {
        assert(tracked_fields@.take(tracked_fields@.len() as int) =~= tracked_fields@);
    }
    (stats, books)
}

/// The number of codes under the first `n` keys.
pub open spec fn code_count(books: Map<u64, FieldCompressionDictionary>, keys: Seq<u64>, n: nat) -> nat
    decreases n,
{
    if n == 0 {
        0
    } else {
        code_count(books, keys, (n - 1) as nat) + books[keys[n - 1]].entries@.len()
    }
}

/// The coded and the seen values under the first `n` keys.
pub open spec fn coverage(books: Map<u64, FieldCompressionDictionary>, keys: Seq<u64>, n: nat) -> (nat, nat)
    decreases n,
{
    if n == 0 {
        (0, 0)
    } else {
        let before = coverage(books, keys, (n - 1) as nat);
        (
            before.0 + books[keys[n - 1]].covered_values as nat,
            before.1 + books[keys[n - 1]].total_values as nat,
        )
    }
}

proof fn lemma_code_count_grows(books: Map<u64, FieldCompressionDictionary>, keys: Seq<u64>, n: nat, m: nat)
    requires
        n <= m,
    ensures
        code_count(books, keys, n) <= code_count(books, keys, m),
    decreases m,
{
    if n < m {
        lemma_code_count_grows(books, keys, n, (m - 1) as nat);
    }
}

fn count_codes(books: &IntMap<FieldCompressionDictionary>) -> (r: usize)
    requires
        code_count(books@, books.keys(), books.keys().len()) <= usize::MAX,
    ensures
        r as nat == code_count(books@, books.keys(), books.keys().len()),
{
    let n = books.len();
    let mut out: usize = 0;
    let mut i: usize = 0;
    while i < n
        invariant
            0 <= i <= n,
            n == books.keys().len(),
            code_count(books@, books.keys(), books.keys().len()) <= usize::MAX,
            out as nat == code_count(books@, books.keys(), i as nat),
        decreases n - i,
    {
        proof {
            lemma_code_count_grows(books@, books.keys(), (i + 1) as nat, n as nat);
        }
        let d = books.value(i);
        out = out + d.entries.len();
        i += 1;
    }
    out
}

fn sum_coverage(books: &IntMap<FieldCompressionDictionary>) -> (r: (u64, u64))
    requires
        books.keys().len() <= u32::MAX,
    ensures
        (r.0 as nat, r.1 as nat) == coverage(books@, books.keys(), books.keys().len()),
{
    let n = books.len();
    let mut covered: u64 = 0;
    let mut total: u64 = 0;
    let mut i: usize = 0;
    while i < n
        invariant
            0 <= i <= n,
            n == books.keys().len(),
            n <= u32::MAX,
            (covered as nat, total as nat) == coverage(books@, books.keys(), i as nat),
            covered <= i * u32::MAX,
            total <= i * u32::MAX,
        decreases n - i,
    {
        let d = books.value(i);
        proof {
            assert(i * u32::MAX + u32::MAX <= u64::MAX) by (nonlinear_arith)
                requires
                    i < u32::MAX,
            ;
            assert((i + 1) * u32::MAX == i * u32::MAX + u32::MAX) by (nonlinear_arith);
        }
        covered = covered + d.covered_values as u64;
        total = total + d.total_values as u64;
        i += 1;
    }
    (covered, total)
}

impl SegmentMeta {
    /// Sums up a segment. The introns of a tracked field must be countable in 32 bits, as the
    /// frequencies are.
    pub fn build(
        segment_id: u32,
        strands: &[Strand],
        tracked_fields: &[&str],
        bloom_bits: usize,
        bloom_hashes: u8,
    ) -> (r: Self)
        requires
            countable(strand_views(strands@), tracked_fields@),
        ensures
            r.segment_id == segment_id,
            r.record_count == strands@.len(),
            describes(
                r.field_stats@,
                r.field_dictionaries@,
                strand_views(strands@),
                tracked_fields@,
                bloom_bits as nat,
                bloom_hashes as nat,
            ),
    {
        let (field_stats, field_dictionaries) = describe(
            strands,
            tracked_fields,
            bloom_bits,
            bloom_hashes,
        );
        SegmentMeta {
            segment_id,
            record_count: strands.len() as u64,
            field_stats,
            field_dictionaries,
        }
    }

    /// How many values are coded, over all tracked fields.
    pub fn dictionary_entry_count(&self) -> (r: usize)
        requires
            code_count(
                self.field_dictionaries@,
                self.field_dictionaries.keys(),
                self.field_dictionaries.keys().len(),
            ) <= usize::MAX,
        ensures
            r as nat == code_count(
                self.field_dictionaries@,
                self.field_dictionaries.keys(),
                self.field_dictionaries.keys().len(),
            ),
    {
        count_codes(&self.field_dictionaries)
    }

    /// How many seen values are coded, and how many were seen: the two parts of the coverage
    /// ratio.
    pub fn dictionary_coverage(&self) -> (r: (u64, u64))
        requires
            self.field_dictionaries.keys().len() <= u32::MAX,
        ensures
            (r.0 as nat, r.1 as nat) == coverage(
                self.field_dictionaries@,
                self.field_dictionaries.keys(),
                self.field_dictionaries.keys().len(),
            ),
    {
        sum_coverage(&self.field_dictionaries)
    }
}

impl SegmentBlockMeta {
    /// Sums up a block. The record count is kept modulo 2^32.
    pub fn build(
        block_id: u32,
        strands: &[Strand],
        tracked_fields: &[&str],
        bloom_bits: usize,
        bloom_hashes: u8,
    ) -> (r: Self)
        requires
            countable(strand_views(strands@), tracked_fields@),
        ensures
            r.block_id == block_id,
            r.record_count as int == strands@.len() % 0x1_0000_0000,
            describes(
                r.field_stats@,
                r.field_dictionaries@,
                strand_views(strands@),
                tracked_fields@,
                bloom_bits as nat,
                bloom_hashes as nat,
            ),
    {
        let (field_stats, field_dictionaries) = describe(
            strands,
            tracked_fields,
            bloom_bits,
            bloom_hashes,
        );
        SegmentBlockMeta {
            block_id,
            record_count: (strands.len() as u64 % 0x1_0000_0000) as u32,
            field_stats,
            field_dictionaries,
        }
    }

    /// How many values are coded, over all tracked fields.
    pub fn dictionary_entry_count(&self) -> (r: usize)
        requires
            code_count(
                self.field_dictionaries@,
                self.field_dictionaries.keys(),
                self.field_dictionaries.keys().len(),
            ) <= usize::MAX,
        ensures
            r as nat == code_count(
                self.field_dictionaries@,
                self.field_dictionaries.keys(),
                self.field_dictionaries.keys().len(),
            ),
    {
        count_codes(&self.field_dictionaries)
    }

    /// How many seen values are coded, and how many were seen.
    pub fn dictionary_coverage(&self) -> (r: (u64, u64))
        requires
            self.field_dictionaries.keys().len() <= u32::MAX,
        ensures
            (r.0 as nat, r.1 as nat) == coverage(
                self.field_dictionaries@,
                self.field_dictionaries.keys(),
                self.field_dictionaries.keys().len(),
            ),
    {
        sum_coverage(&self.field_dictionaries)
    }
}

/// Whether the range of numbers rules out a comparison with `n`.
pub open spec fn range_excluded(st: FieldStats, op: RangeOp, n: u64) -> bool {
    match op {
        RangeOp::GreaterThan => st.max_numeric <= n,
        RangeOp::GreaterOrEqual => st.max_numeric < n,
        RangeOp::LessThan => st.min_numeric >= n,
        RangeOp::LessOrEqual => st.min_numeric > n,
        RangeOp::NotEqual => st.min_numeric == n && st.max_numeric == n,
    }
}

/// Whether a clause rules a run of strands out: an exact clause whose hash a complete codebook
/// lacks or whose value the filter denies, a range clause whose number lies outside the
/// bounds. Untracked fields and patterns never do.
pub open spec fn clause_skips(
    stats: Map<u64, FieldStats>,
    books: Option<Map<u64, FieldCompressionDictionary>>,
    c: ClauseView,
) -> bool {
    match c {
        ClauseView::Exact { field, wire, .. } => {
            let key = field_key(field);
            stats.dom().contains(key) && ((match books {
                Some(b) => b.dom().contains(key) && b[key].complete() && !coded(b[key].entries@).contains(
                    fnv1a64_spec(wire),
                ),
                None => false,
            }) || !maybe_in(stats[key].bloom.bits(), stats[key].bloom.hashes(), wire))
        },
        ClauseView::Range { field, op, wire, .. } => {
            let key = field_key(field);
            stats.dom().contains(key) && stats[key].has_numeric && (match numeric_value(wire) {
                Some(n) => range_excluded(stats[key], op, n),
                None => false,
            })
        },
        ClauseView::Like { .. } => false,
    }
}

/// Whether some clause rules a run of strands out.
pub open spec fn skips(
    stats: Map<u64, FieldStats>,
    books: Option<Map<u64, FieldCompressionDictionary>>,
    g: GuideView,
) -> bool {
    exists|i: int| 0 <= i < g.clauses.len() && clause_skips(stats, books, #[trigger] g.clauses[i])
}

/// What the books of an optional dictionary map are.
spec fn books_of(b: Option<&IntMap<FieldCompressionDictionary>>) -> Option<Map<u64, FieldCompressionDictionary>> {
    match b {
        Some(m) => Some(m@),
        None => None,
    }
}

fn should_skip_clause_for_stats(
    field_stats: &IntMap<FieldStats>,
    field_dictionaries: Option<&IntMap<FieldCompressionDictionary>>,
    clause: &Clause,
) -> (r: bool)
    ensures
        r == clause_skips(field_stats@, books_of(field_dictionaries), clause@),
{
    match clause {
        Clause::ExactMatch { field_intron, operand_wire, .. } => {
            let key: u64 = field_hash(field_intron.as_str());
            let stats = match field_stats.get(key) {
                Some(s) => s,
                None => {
                    return false;
                },
            };
            if let Some(m) = field_dictionaries {
                if let Some(dict) = m.get(key) {
                    if dict.is_complete() {
                        let needle: u64 = fnv1a64(operand_wire.as_slice());
                        if !dict.contains_hash(needle) {
                            return true;
                        }
                    }
                }
            }
            !stats.bloom.might_contain(operand_wire.as_slice())
        },
        Clause::RangeMatch { field_intron, operator, operand_wire, .. } => {
            let key: u64 = field_hash(field_intron.as_str());
            let stats = match field_stats.get(key) {
                Some(s) => s,
                None => {
                    return false;
                },
            };
            let n: u64 = match as_numeric_u64(operand_wire.as_slice()) {
                Some(n) => n,
                None => {
                    return false;
                },
            };
            if !stats.has_numeric {
                return false;
            }
            match operator {
                RangeOp::GreaterThan => stats.max_numeric <= n,
                RangeOp::GreaterOrEqual => stats.max_numeric < n,
                RangeOp::LessThan => stats.min_numeric >= n,
                RangeOp::LessOrEqual => stats.min_numeric > n,
                RangeOp::NotEqual => stats.min_numeric == n && stats.max_numeric == n,
            }
        },
        Clause::LikePattern { .. } => false,
    }
}

fn any_clause_skips(
    field_stats: &IntMap<FieldStats>,
    field_dictionaries: Option<&IntMap<FieldCompressionDictionary>>,
    pattern: &GuidePattern,
) -> (r: bool)
    ensures
        r == skips(field_stats@, books_of(field_dictionaries), pattern@),
{
    let mut i: usize = 0;
    while i < pattern.clauses.len()
        invariant
            0 <= i <= pattern.clauses@.len(),
            forall|j: int|
                0 <= j < i ==> !clause_skips(
                    field_stats@,
                    books_of(field_dictionaries),
                    #[trigger] pattern@.clauses[j],
                ),
        decreases pattern.clauses@.len() - i,
    {
        if should_skip_clause_for_stats(field_stats, field_dictionaries, &pattern.clauses[i]) {
            proof {
                assert(clause_skips(field_stats@, books_of(field_dictionaries), pattern@.clauses[i as int]));
            }
            return true;
        }
        i += 1;
    }
    false
}

/// Whether a segment can be skipped.
pub fn should_skip_segment(meta: &SegmentMeta, pattern: &GuidePattern) -> (r: bool)
    ensures
        r == skips(meta.field_stats@, Some(meta.field_dictionaries@), pattern@),
{
    any_clause_skips(&meta.field_stats, Some(&meta.field_dictionaries), pattern)
}

/// Whether a segment can be skipped by filter and bounds alone.
pub fn should_skip_segment_bloom_only(meta: &SegmentMeta, pattern: &GuidePattern) -> (r: bool)
    ensures
        r == skips(meta.field_stats@, None, pattern@),
{
    any_clause_skips(&meta.field_stats, None, pattern)
}

/// Whether a block can be skipped.
pub fn should_skip_block(meta: &SegmentBlockMeta, pattern: &GuidePattern) -> (r: bool)
    ensures
        r == skips(meta.field_stats@, Some(meta.field_dictionaries@), pattern@),
{
    any_clause_skips(&meta.field_stats, Some(&meta.field_dictionaries), pattern)
}

/// Whether a block can be skipped by filter and bounds alone.
pub fn should_skip_block_bloom_only(meta: &SegmentBlockMeta, pattern: &GuidePattern) -> (r: bool)
    ensures
        r == skips(meta.field_stats@, None, pattern@),
{
    any_clause_skips(&meta.field_stats, None, pattern)
}

proof fn lemma_seen_intron(v: StrandView, key: u64, n: nat, i: int)
    requires
        0 <= i < n <= v.introns.len(),
        field_key(v.introns[i].field_name) == key,
    ensures
        exists|k: int|
            0 <= k < seen_introns(v, key, n).len() && #[trigger] seen_introns(v, key, n)[k] == (
            v.introns[i].value_hash,
            field_bytes(v.codons, v.introns[i]),
        ),
    decreases n,
{
    let item = (v.introns[i].value_hash, field_bytes(v.codons, v.introns[i]));
    let before = seen_introns(v, key, (n - 1) as nat);
    if i == n - 1 {
        assert(seen_introns(v, key, n)[before.len() as int] == item);
    } else {
        lemma_seen_intron(v, key, (n - 1) as nat, i);
        let k = choose|k: int| 0 <= k < before.len() && #[trigger] before[k] == item;
        assert(seen_introns(v, key, n)[k] == item);
    }
}

/// Every tracked intron of every strand is among what was seen.
pub proof fn lemma_intron_is_seen(strands: Seq<StrandView>, key: u64, n: nat, m: int, i: int)
    requires
        0 <= m < n <= strands.len(),
        0 <= i < strands[m].introns.len(),
        field_key(strands[m].introns[i].field_name) == key,
    ensures
        exists|k: int|
            0 <= k < seen(strands, key, n).len() && #[trigger] seen(strands, key, n)[k] == (
            strands[m].introns[i].value_hash,
            field_bytes(strands[m].codons, strands[m].introns[i]),
        ),
    decreases n,
{
    let item = (
        strands[m].introns[i].value_hash,
        field_bytes(strands[m].codons, strands[m].introns[i]),
    );
    let before = seen(strands, key, (n - 1) as nat);
    let v = strands[n - 1];
    if m == n - 1 {
        lemma_seen_intron(v, key, v.introns.len(), i);
        let more = seen_introns(v, key, v.introns.len());
        let k = choose|k: int| 0 <= k < more.len() && #[trigger] more[k] == item;
        assert(seen(strands, key, n)[before.len() + k] == item);
    } else {
        lemma_intron_is_seen(strands, key, (n - 1) as nat, m, i);
        let k = choose|k: int| 0 <= k < before.len() && #[trigger] before[k] == item;
        assert(seen(strands, key, n)[k] == item);
    }
}

proof fn lemma_value_is_seen(s: Seq<(u64, Option<Seq<u8>>)>, k: int, b: Seq<u8>)
    requires
        0 <= k < s.len(),
        s[k].1 == Some(b),
    ensures
        exists|i: int| 0 <= i < seen_values(s).len() && #[trigger] seen_values(s)[i] == b,
    decreases s.len(),
{
    let front = s.drop_last();
    if k == s.len() - 1 {
        assert(seen_values(s)[seen_values(front).len() as int] == b);
    } else {
        assert(front[k] == s[k]);
        lemma_value_is_seen(front, k, b);
        let i = choose|i: int| 0 <= i < seen_values(front).len() && #[trigger] seen_values(front)[i] == b;
        assert(seen_values(s)[i] == b);
    }
}

/// Skipping by an exact clause loses nothing: no strand of the run both passes the hash filter
/// and carries the value.
pub proof fn law_exact_skip_is_sound(
    stats: Map<u64, FieldStats>,
    books: Map<u64, FieldCompressionDictionary>,
    strands: Seq<StrandView>,
    names: Seq<&str>,
    places: nat,
    hashes: nat,
    c: ClauseView,
    use_books: bool,
    m: int,
)
    requires
        describes(stats, books, strands, names, places, hashes),
        c is Exact,
        clause_skips(stats, if use_books { Some(books) } else { None }, c),
        0 <= m < strands.len(),
    ensures
        !(fast_match(c, strands[m].introns) && has_value(strands[m], c->Exact_field, c->Exact_wire)),
{
    let field = c->Exact_field;
    let wire = c->Exact_wire;
    let key = field_key(field);
    let v = strands[m];
    let s = seen(strands, key, strands.len());
    assert(sums_up(stats[key], s, places, hashes));
    let st = stats[key];
    if fast_match(c, v.introns) && has_value(v, field, wire) {
        if !maybe_in(st.bloom.bits(), st.bloom.hashes(), wire) {
            let i = choose|i: int| carries(v, field, i, wire);
            lemma_intron_is_seen(strands, key, strands.len(), m, i);
            let k = choose|k: int|
                0 <= k < s.len() && #[trigger] s[k] == (
                v.introns[i].value_hash,
                field_bytes(v.codons, v.introns[i]),
            );
            lemma_value_is_seen(s, k, wire);
            let j = choose|j: int| 0 <= j < seen_values(s).len() && #[trigger] seen_values(s)[j] == wire;
            law_no_false_negatives(
                seen_values(s),
                st.bloom.hashes(),
                if places < 8 { 8 } else { places },
                j,
            );
        } else {
            let h = fnv1a64_spec(wire);
            let i = choose|i: int|
                0 <= i < v.introns.len() && (#[trigger] v.introns[i]).field_name == field
                    && v.introns[i].value_hash == h;
            lemma_intron_is_seen(strands, key, strands.len(), m, i);
            let k = choose|k: int|
                0 <= k < s.len() && #[trigger] s[k] == (
                v.introns[i].value_hash,
                field_bytes(v.codons, v.introns[i]),
            );
            assert(seen_hashes(s)[k] == h);
            lemma_member_is_counted(seen_hashes(s), k);
            law_complete_codebook_holds_every_hash(books[key], seen_hashes(s), h);
        }
    }
}

/// Skipping by a range clause is sound for numbers: no value of the run stands for a number in
/// the wanted relation to the operand's.
pub proof fn law_range_skip_is_sound_for_numbers(
    stats: Map<u64, FieldStats>,
    books: Map<u64, FieldCompressionDictionary>,
    strands: Seq<StrandView>,
    names: Seq<&str>,
    places: nat,
    hashes: nat,
    c: ClauseView,
    m: int,
    i: int,
    value: Seq<u8>,
)
    requires
        describes(stats, books, strands, names, places, hashes),
        c is Range,
        clause_skips(stats, Some(books), c),
        0 <= m < strands.len(),
        carries(strands[m], c->Range_field, i, value),
        numeric_value(value) is Some,
    ensures
        numeric_value(c->Range_wire) is Some,
        !super::index::number_in_range(
            numeric_value(value)->0,
            c->op,
            numeric_value(c->Range_wire)->0,
        ),
{
    let key = field_key(c->Range_field);
    let v = strands[m];
    let s = seen(strands, key, strands.len());
    assert(sums_up(stats[key], s, places, hashes));
    lemma_intron_is_seen(strands, key, strands.len(), m, i);
    let k = choose|k: int|
        0 <= k < s.len() && #[trigger] s[k] == (v.introns[i].value_hash, field_bytes(v.codons, v.introns[i]));
    lemma_value_is_seen(s, k, value);
    let j = choose|j: int| 0 <= j < seen_values(s).len() && #[trigger] seen_values(s)[j] == value;
    assert(numeric_value(seen_values(s)[j]) is Some);
}

} // verus!
