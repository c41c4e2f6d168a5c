//! Global indexes: exact values to signatures, numbers in order to signatures.
use super::fields::{field_bytes, intron_payload_bytes};
use super::guide::RangeOp;
use super::literal::{as_numeric_u64, numeric_value};
use crate::model::{strand_views, IntronView, Strand, StrandView};
use crate::support::bytes::copy_bytes;
use crate::support::posting_map::{copy_signatures, listed, PostingMap};
use crate::support::sort::{stable_sort, stably_sorted, strict_weak_order};
use crate::support::text::{owned, str_eq, string_is};
use crate::wire_format::{
    bincode_hash_index, bincode_range_index, plain_postings, read_hash_index, read_range_index,
    write_hash_index, write_range_index,
};
use vstd::prelude::*;

verus! {

/// The values of `field` among the first `n` introns of a strand, each with the strand's
/// signature, in order.
pub open spec fn intron_entries(v: StrandView, field: Seq<char>, n: nat) -> Seq<(Seq<u8>, [u8; 8])>
    decreases n,
{
    if n == 0 {
        Seq::empty()
    } else {
        let before = intron_entries(v, field, (n - 1) as nat);
        let intron = v.introns[n - 1];
        match field_bytes(v.codons, intron) {
            Some(b) => if intron.field_name == field {
                before.push((b, v.signature))
            } else {
                before
            },
            None => before,
        }
    }
}

/// What a strand contributes to the exact-match index of `field`: its signature under itself
/// for `_signature`, the values of its introns otherwise.
pub open spec fn strand_entries(v: StrandView, field: Seq<char>) -> Seq<(Seq<u8>, [u8; 8])> {
    if field == "_signature"@ {
        seq![(v.signature@, v.signature)]
    } else {
        intron_entries(v, field, v.introns.len())
    }
}

/// What the first `n` strands contribute to the exact-match index of `field`.
pub open spec fn index_entries(strands: Seq<StrandView>, field: Seq<char>, n: nat) -> Seq<(Seq<u8>, [u8; 8])>
    decreases n,
{
    if n == 0 {
        Seq::empty()
    } else {
        index_entries(strands, field, (n - 1) as nat) + strand_entries(strands[n - 1], field)
    }
}

/// The signatures that stand beside `value`, in order.
pub open spec fn postings(entries: Seq<(Seq<u8>, [u8; 8])>, value: Seq<u8>) -> Seq<[u8; 8]>
    decreases entries.len(),
{
    if entries.len() == 0 {
        Seq::empty()
    } else {
        let before = postings(entries.drop_last(), value);
        if entries.last().0 == value {
            before.push(entries.last().1)
        } else {
            before
        }
    }
}

/// Whether a map lists exactly the entries: each value that occurs, with its signatures.
pub open spec fn indexes(m: Map<Seq<u8>, Seq<[u8; 8]>>, entries: Seq<(Seq<u8>, [u8; 8])>) -> bool {
    &&& forall|w: Seq<u8>| #[trigger] listed(m, w) == postings(entries, w)
    &&& forall|w: Seq<u8>| #[trigger] m.dom().contains(w) <==> postings(entries, w).len() > 0
}

proof fn lemma_append(m: Map<Seq<u8>, Seq<[u8; 8]>>, entries: Seq<(Seq<u8>, [u8; 8])>, k: Seq<u8>, sig: [u8; 8])
    requires
        indexes(m, entries),
    ensures
        indexes(m.insert(k, listed(m, k).push(sig)), entries.push((k, sig))),
{
    let after = entries.push((k, sig));
    let m2 = m.insert(k, listed(m, k).push(sig));
    assert(after.drop_last() =~= entries);
    assert(listed(m, k) == postings(entries, k));
    assert forall|w: Seq<u8>| #[trigger] listed(m2, w) == postings(after, w) by {
        assert(listed(m, w) == postings(entries, w));
    }
    assert forall|w: Seq<u8>| #[trigger] m2.dom().contains(w) <==> postings(after, w).len() > 0 by {
        assert(m.dom().contains(w) <==> postings(entries, w).len() > 0);
    }
}

proof fn lemma_entries_step(strands: Seq<StrandView>, field: Seq<char>, n: nat, more: Seq<(Seq<u8>, [u8; 8])>, e: (Seq<u8>, [u8; 8]))
    ensures
        (index_entries(strands, field, n) + more).push(e) == index_entries(strands, field, n)
            + more.push(e),
{
    assert((index_entries(strands, field, n) + more).push(e) =~= index_entries(strands, field, n)
        + more.push(e));
}

/// Builds the exact-match index of `field`.
pub fn build_exact_hash_index(strands: &[Strand], field: &str) -> (r: PostingMap)
    ensures
        indexes(r@, index_entries(strand_views(strands@), field@, strands@.len())),
{
    let mut out = PostingMap::new();
    let ghost views = strand_views(strands@);
    let by_signature = str_eq(field, "_signature");
    let mut n: usize = 0;
    proof {
        assert(indexes(out@, index_entries(views, field@, 0)));
    }
    while n < strands.len()
        invariant
            0 <= n <= strands@.len(),
            views == strand_views(strands@),
            by_signature == (field@ == "_signature"@),
            indexes(out@, index_entries(views, field@, n as nat)),
        decreases strands@.len() - n,
    {
        let s = &strands[n];
        let ghost base = index_entries(views, field@, n as nat);
        if by_signature {
            let key = copy_bytes(s.signature.as_slice());
            proof {
                lemma_append(out@, base, key@, s.signature);
                assert(base.push((key@, s.signature)) =~= base + seq![(key@, s.signature)]);
            }
            out.append(key, s.signature);
        } else {
            let mut i: usize = 0;
            proof {
                assert(base + intron_entries(s@, field@, 0) =~= base);
            }
            while i < s.introns.len()
                invariant
                    0 <= i <= s.introns@.len(),
                    indexes(out@, base + intron_entries(s@, field@, i as nat)),
                    base == index_entries(views, field@, n as nat),
                decreases s.introns@.len() - i,
            {
                let intron = &s.introns[i];
                if string_is(&intron.field_name, field) {
                    if let Some(v) = intron_payload_bytes(s, intron) {
                        proof {
                            let more = intron_entries(s@, field@, i as nat);
                            lemma_append(out@, base + more, v@, s.signature);
                            lemma_entries_step(views, field@, n as nat, more, (v@, s.signature));
                        }
                        out.append(v, s.signature);
                    }
                }
                i += 1;
            }
        }
        proof {
            assert(views[n as int] == s@);
        }
        n += 1;
    }
    out
}

/// The signatures indexed under `value`.
pub fn exact_lookup_signatures(index: &PostingMap, value: &[u8]) -> (r: Vec<[u8; 8]>)
    ensures
        r@ == listed(index@, value@),
{
    match index.get(value) {
        Some(v) => copy_signatures(v),
        None => Vec::new(),
    }
}

/// Exact-match index of one field.
#[derive(Debug)]
pub struct GlobalHashIndex {
    pub field: String,
    pub map: PostingMap,
}

/// Why a stored index could not be written or read.
#[derive(Debug)]
pub enum GlobalHashIndexError {
    Serialize(bincode::Error),
}

/// The map that a list of values with their signatures describes; of two lists under one
/// value, the later counts.
pub open spec fn map_of_postings(s: Seq<(Seq<u8>, Seq<[u8; 8]>)>) -> Map<Seq<u8>, Seq<[u8; 8]>>
    decreases s.len(),
{
    if s.len() == 0 {
        Map::empty()
    } else {
        map_of_postings(s.drop_last()).insert(s.last().0, s.last().1)
    }
}

/// Whether `b` starts with the stored form, as the list `q`, of an index.
pub open spec fn stored_as(
    b: Seq<u8>,
    field: Seq<char>,
    map: Map<Seq<u8>, Seq<[u8; 8]>>,
    q: Seq<(Seq<u8>, Seq<[u8; 8]>)>,
) -> bool {
    bincode_hash_index(field, q).is_prefix_of(b) && map_of_postings(q) == map
}

/// Whether `r` is the index whose stored form stands at the front of `b`, and an error exactly
/// where none does.
pub open spec fn loads_hash_index(r: Result<GlobalHashIndex, GlobalHashIndexError>, b: Seq<u8>) -> bool {
    match r {
        Ok(x) => {
            &&& exists|q: Seq<(Seq<u8>, Seq<[u8; 8]>)>| stored_as(b, x.field@, x.map@, q)
            &&& forall|f: Seq<char>, m: Map<Seq<u8>, Seq<[u8; 8]>>, q: Seq<(Seq<u8>, Seq<[u8; 8]>)>|
                #[trigger] stored_as(b, f, m, q) ==> x.field@ == f && x.map@ == m
        },
        Err(_) => forall|f: Seq<char>, m: Map<Seq<u8>, Seq<[u8; 8]>>, q: Seq<(Seq<u8>, Seq<[u8; 8]>)>|
            !#[trigger] stored_as(b, f, m, q),
    }
}

/// Whether `b` is a stored form of the index.
pub open spec fn stores_hash_index(b: Seq<u8>, x: GlobalHashIndex) -> bool {
    exists|q: Seq<(Seq<u8>, Seq<[u8; 8]>)>|
        b == bincode_hash_index(x.field@, q) && #[trigger] stored_as(b, x.field@, x.map@, q)
}

impl GlobalHashIndex {
    /// Builds the index of `field` over `strands`.
    pub fn build(field: &str, strands: &[Strand]) -> (r: Self)
        ensures
            r.field@ == field@,
            indexes(r.map@, index_entries(strand_views(strands@), field@, strands@.len())),
    {
        GlobalHashIndex { field: owned(field), map: build_exact_hash_index(strands, field) }
    }

    /// The signatures indexed under `value`.
    pub fn lookup(&self, value: &[u8]) -> (r: Vec<[u8; 8]>)
        ensures
            r@ == listed(self.map@, value@),
    {
        exact_lookup_signatures(&self.map, value)
    }

    /// The stored form of the index.
    pub fn to_bytes(&self) -> (r: Result<Vec<u8>, GlobalHashIndexError>)
        ensures
            r matches Ok(b) && stores_hash_index(b@, *self),
    {
        let mut list: Vec<(Vec<u8>, Vec<[u8; 8]>)> = Vec::new();
        let n = self.map.len();
        let ghost keys = self.map.keys();
        let ghost mut m: Map<Seq<u8>, Seq<[u8; 8]>> = Map::empty();
        let mut i: usize = 0;
        proof {
            assert(plain_postings(list@) =~= Seq::<(Seq<u8>, Seq<[u8; 8]>)>::empty());
        }
        while i < n
            invariant
                0 <= i <= n,
                n == keys.len(),
                keys == self.map.keys(),
                list@.len() == i,
                m == map_of_postings(plain_postings(list@)),
                forall|w: Seq<u8>| #[trigger] m.dom().contains(w) <==> keys.take(i as int).contains(w),
                forall|w: Seq<u8>| m.dom().contains(w) ==> #[trigger] m[w] == self.map@[w],
            decreases n - i,
        {
            let k = copy_bytes(self.map.key(i).as_slice());
            let v = copy_signatures(self.map.list(i));
            let ghost before = plain_postings(list@);
            list.push((k, v));
            proof {
                let after = plain_postings(list@);
                assert(after.drop_last() =~= before);
                assert(after.last() == (k@, v@));
                m = m.insert(k@, v@);
                assert(m == map_of_postings(after));
                let old_keys = keys.take(i as int);
                let new_keys = keys.take(i + 1);
                assert forall|w: Seq<u8>| #[trigger] new_keys.contains(w) <==> (old_keys.contains(w) || w == k@) by {
                    if old_keys.contains(w) {
                        let j = choose|j: int| 0 <= j < i && old_keys[j] == w;
                        assert(new_keys[j] == w);
                    }
                    if w == k@ {
                        assert(new_keys[i as int] == w);
                    }
                    if new_keys.contains(w) {
                        let j = choose|j: int| 0 <= j < i + 1 && new_keys[j] == w;
                        if j < i {
                            assert(old_keys[j] == w);
                        }
                    }
                }
            }
            i += 1;
        }
        let plain = (self.field.clone(), list);
        let ghost q = plain_postings(plain.1@);
        proof {
            assert(keys.take(n as int) =~= keys);
            assert forall|w: Seq<u8>| m.dom().contains(w) == self.map@.dom().contains(w) by {
                assert(keys.contains(w) <==> self.map@.dom().contains(w));
            }
            assert(map_of_postings(q) =~= self.map@);
        }
        let b = match write_hash_index(&plain) {
            Ok(b) => b,
            Err(e) => {
                return Err(GlobalHashIndexError::Serialize(e));
            },
        };
        proof {
            assert(b@ =~= b@.subrange(0, b@.len() as int));
            assert(stored_as(b@, self.field@, self.map@, q));
            assert(stores_hash_index(b@, *self));
        }
        Ok(b)
    }

    /// Reads a stored index. Bytes past it are ignored, and what [`Self::to_bytes`] wrote is
    /// read back.
    pub fn from_bytes(b: &[u8]) -> (r: Result<Self, GlobalHashIndexError>)
        ensures
            loads_hash_index(r, b@),
    {
        let plain = match read_hash_index(b) {
            Ok(p) => p,
            Err(e) => {
                proof {
                    assert forall|f: Seq<char>, m: Map<Seq<u8>, Seq<[u8; 8]>>, t: Seq<(Seq<u8>, Seq<[u8; 8]>)>|
                        !#[trigger] stored_as(b@, f, m, t) by {
                        if stored_as(b@, f, m, t) {
                            assert(bincode_hash_index(f, t).is_prefix_of(b@));
                        }
                    }
                }
                return Err(GlobalHashIndexError::Serialize(e));
            },
        };
        let (field, list) = plain;
        let ghost q = plain_postings(list@);
        let mut map = PostingMap::new();
        let mut i: usize = 0;
        proof {
            assert(q.take(0) =~= Seq::<(Seq<u8>, Seq<[u8; 8]>)>::empty());
        }
        while i < list.len()
            invariant
                0 <= i <= list@.len(),
                q == plain_postings(list@),
                map@ == map_of_postings(q.take(i as int)),
            decreases list@.len() - i,
        {
            proof {
                assert(q.take(i + 1).drop_last() =~= q.take(i as int));
            }
            map.set(copy_bytes(list[i].0.as_slice()), copy_signatures(&list[i].1));
            i += 1;
        }
        proof {
            assert(q.take(list@.len() as int) =~= q);
        }
        let x = GlobalHashIndex { field, map };
        proof {
            assert(stored_as(b@, x.field@, x.map@, q));
            assert forall|f: Seq<char>, m: Map<Seq<u8>, Seq<[u8; 8]>>, t: Seq<(Seq<u8>, Seq<[u8; 8]>)>|
                #[trigger] stored_as(b@, f, m, t) implies x.field@ == f && x.map@ == m by {
                assert(bincode_hash_index(f, t).is_prefix_of(b@));
                assert(t == q);
            }
        }
        let r = Ok(x);
        proof {
            assert(r->Ok_0 == x);
            assert(exists|t: Seq<(Seq<u8>, Seq<[u8; 8]>)>| stored_as(b@, x.field@, x.map@, t));
            assert(loads_hash_index(r, b@));
        }
        r
    }
}

/// Numeric index of one field, in ascending order of the numbers.
#[derive(Debug)]
pub struct GlobalRangeIndex {
    pub field: String,
    pub entries: Vec<(u64, [u8; 8])>,
}

/// The numeric values of `field` among the first `n` introns of a strand, each with the
/// strand's signature, in order.
pub open spec fn intron_numbers(v: StrandView, field: Seq<char>, n: nat) -> Seq<(u64, [u8; 8])>
    decreases n,
{
    if n == 0 {
        Seq::empty()
    } else {
        let before = intron_numbers(v, field, (n - 1) as nat);
        let intron = v.introns[n - 1];
        match intron_number(v.codons, intron) {
            Some(x) => if intron.field_name == field {
                before.push((x, v.signature))
            } else {
                before
            },
            None => before,
        }
    }
}

/// The number that a field's bytes stand for.
pub open spec fn intron_number(codons: Seq<crate::model::Codon>, intron: IntronView) -> Option<u64> {
    match field_bytes(codons, intron) {
        Some(b) => numeric_value(b),
        None => None,
    }
}

/// The numeric values of `field` among the first `n` strands.
pub open spec fn numbers_of(strands: Seq<StrandView>, field: Seq<char>, n: nat) -> Seq<(u64, [u8; 8])>
    decreases n,
{
    if n == 0 {
        Seq::empty()
    } else {
        numbers_of(strands, field, (n - 1) as nat) + intron_numbers(
            strands[n - 1],
            field,
            strands[n - 1].introns.len(),
        )
    }
}

/// Ascending order of numbers.
pub open spec fn number_less(a: (u64, [u8; 8]), b: (u64, [u8; 8])) -> bool {
    a.0 < b.0
}

fn entry_less(a: &(u64, [u8; 8]), b: &(u64, [u8; 8])) -> (r: bool)
    ensures
        r == number_less(*a, *b),
{
    a.0 < b.0
}

/// Whether `v` stands in the relation `op` to `needle`.
pub open spec fn number_in_range(v: u64, op: RangeOp, needle: u64) -> bool {
    match op {
        RangeOp::GreaterThan => v > needle,
        RangeOp::GreaterOrEqual => v >= needle,
        RangeOp::LessThan => v < needle,
        RangeOp::LessOrEqual => v <= needle,
        RangeOp::NotEqual => v != needle,
    }
}

/// The signatures of the entries whose number `keep` accepts, in order.
pub open spec fn picked(entries: Seq<(u64, [u8; 8])>, keep: spec_fn(u64) -> bool) -> Seq<[u8; 8]>
    decreases entries.len(),
{
    if entries.len() == 0 {
        Seq::empty()
    } else {
        let before = picked(entries.drop_last(), keep);
        if keep(entries.last().0) {
            before.push(entries.last().1)
        } else {
            before
        }
    }
}

impl GlobalRangeIndex {
    /// Builds the numeric index of `field` over `strands`.
    pub fn build(field: &str, strands: &[Strand]) -> (r: Self)
        ensures
            r.field@ == field@,
            stably_sorted(
                numbers_of(strand_views(strands@), field@, strands@.len()),
                r.entries@,
                |a: (u64, [u8; 8]), b: (u64, [u8; 8])| number_less(a, b),
            ),
    {
        let mut entries: Vec<(u64, [u8; 8])> = Vec::new();
        let ghost views = strand_views(strands@);
        let mut n: usize = 0;
        while n < strands.len()
            invariant
                0 <= n <= strands@.len(),
                views == strand_views(strands@),
                entries@ == numbers_of(views, field@, n as nat),
            decreases strands@.len() - n,
        {
            let s = &strands[n];
            let ghost base = entries@;
            let mut i: usize = 0;
            proof {
                assert(base + intron_numbers(s@, field@, 0) =~= base);
            }
            while i < s.introns.len()
                invariant
                    0 <= i <= s.introns@.len(),
                    entries@ == base + intron_numbers(s@, field@, i as nat),
                decreases s.introns@.len() - i,
            {
                let intron = &s.introns[i];
                let ghost more = intron_numbers(s@, field@, i as nat);
                if string_is(&intron.field_name, field) {
                    if let Some(b) = intron_payload_bytes(s, intron) {
                        if let Some(x) = as_numeric_u64(b.as_slice()) {
                            entries.push((x, s.signature));
                            proof {
                                assert(entries@ =~= base + more.push((x, s.signature)));
                            }
                        }
                    }
                }
                i += 1;
            }
            proof {
                assert(views[n as int] == s@);
            }
            n += 1;
        }
        let ghost lt = |a: (u64, [u8; 8]), b: (u64, [u8; 8])| number_less(a, b);
        proof {
            assert(strict_weak_order(lt));
        }
        let sorted = stable_sort(entries, entry_less, Ghost(lt));
        GlobalRangeIndex { field: owned(field), entries: sorted }
    }

    /// The signatures whose number stands in the relation `op` to `needle`, in ascending
    /// order of the numbers.
    pub fn lookup(&self, op: RangeOp, needle: u64) -> (r: Vec<[u8; 8]>)
        ensures
            r@ == picked(self.entries@, |v: u64| number_in_range(v, op, needle)),
    {
        let ghost keep = |v: u64| number_in_range(v, op, needle);
        let mut out: Vec<[u8; 8]> = Vec::new();
        let mut i: usize = 0;
        while i < self.entries.len()
            invariant
                0 <= i <= self.entries@.len(),
                keep == (|v: u64| number_in_range(v, op, needle)),
                out@ == picked(self.entries@.take(i as int), keep),
            decreases self.entries@.len() - i,
        {
            let e = self.entries[i];
            let ok = match op {
                RangeOp::GreaterThan => e.0 > needle,
                RangeOp::GreaterOrEqual => e.0 >= needle,
                RangeOp::LessThan => e.0 < needle,
                RangeOp::LessOrEqual => e.0 <= needle,
                RangeOp::NotEqual => e.0 != needle,
            };
            proof {
                assert(self.entries@.take(i + 1).drop_last() =~= self.entries@.take(i as int));
            }
            if ok {
                out.push(e.1);
            }
            i += 1;
        }
        proof {
            assert(self.entries@.take(self.entries@.len() as int) =~= self.entries@);
        }
        out
    }

    /// The signatures whose number lies between `lo` and `hi`, both included, in ascending
    /// order of the numbers.
    pub fn lookup_between_inclusive(&self, lo: u64, hi: u64) -> (r: Vec<[u8; 8]>)
        ensures
            r@ == picked(self.entries@, |v: u64| lo <= v <= hi),
    {
        let ghost keep = |v: u64| lo <= v <= hi;
        let mut out: Vec<[u8; 8]> = Vec::new();
        let mut i: usize = 0;
        while i < self.entries.len()
            invariant
                0 <= i <= self.entries@.len(),
                keep == (|v: u64| lo <= v <= hi),
                out@ == picked(self.entries@.take(i as int), keep),
            decreases self.entries@.len() - i,
        {
            let e = self.entries[i];
            proof {
                assert(self.entries@.take(i + 1).drop_last() =~= self.entries@.take(i as int));
            }
            if lo <= e.0 && e.0 <= hi {
                out.push(e.1);
            }
            i += 1;
        }
        proof {
            assert(self.entries@.take(self.entries@.len() as int) =~= self.entries@);
        }
        out
    }

    /// The stored form of the index.
    pub fn to_bytes(&self) -> (r: Result<Vec<u8>, GlobalHashIndexError>)
        ensures
            r matches Ok(b) && b@ == bincode_range_index(self.field@, self.entries@),
    {
        let mut list: Vec<(u64, [u8; 8])> = Vec::new();
        let mut i: usize = 0;
        while i < self.entries.len()
            invariant
                0 <= i <= self.entries@.len(),
                list@ == self.entries@.take(i as int),
            decreases self.entries@.len() - i,
        {
            list.push(self.entries[i]);
            proof {
                assert(self.entries@.take(i + 1) =~= self.entries@.take(i as int).push(
                    self.entries@[i as int],
                ));
            }
            i += 1;
        }
        proof {
            assert(self.entries@.take(self.entries@.len() as int) =~= self.entries@);
        }
        let plain = (self.field.clone(), list);
        match write_range_index(&plain) {
            Ok(b) => Ok(b),
            Err(e) => Err(GlobalHashIndexError::Serialize(e)),
        }
    }

    /// Reads a stored index. Bytes past it are ignored, and what [`Self::to_bytes`] wrote is
    /// read back.
    pub fn from_bytes(b: &[u8]) -> (r: Result<Self, GlobalHashIndexError>)
        ensures
            r matches Ok(x) ==> bincode_range_index(x.field@, x.entries@).is_prefix_of(b@),
            forall|f: Seq<char>, q: Seq<(u64, [u8; 8])>|
                (#[trigger] bincode_range_index(f, q)).is_prefix_of(b@) ==> (r matches Ok(x) && x.field@ == f
                    && x.entries@ == q),
    {
        match read_range_index(b) {
            Ok(p) => Ok(GlobalRangeIndex { field: p.0, entries: p.1 }),
            Err(e) => Err(GlobalHashIndexError::Serialize(e)),
        }
    }
}

} // verus!
