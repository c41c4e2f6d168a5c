//! Value codebooks: the most frequent value hashes of a field, with short codes.
use crate::support::sort::{stable_order, stable_sort, strict_weak_order};
use vstd::prelude::*;

verus! {

/// How many values of a field get a code.
pub const MAX_VALUE_CODES_PER_FIELD: usize = 254;

/// One coded value.
#[derive(Debug, Clone, Copy, PartialEq, Eq, Structural)]
pub struct ValueCodebookEntry {
    pub code: u8,
    pub value_hash: u64,
    pub frequency: u32,
}

/// The coded values of a field.
#[derive(Debug, PartialEq, Eq)]
pub struct FieldCompressionDictionary {
    pub total_values: u32,
    pub covered_values: u32,
    pub entries: Vec<ValueCodebookEntry>,
}

/// How often `h` occurs.
pub open spec fn count_of(hashes: Seq<u64>, h: u64) -> nat
    decreases hashes.len(),
{
    if hashes.len() == 0 {
        0
    } else {
        count_of(hashes.drop_last(), h) + (if hashes.last() == h {
            1nat
        } else {
            0
        })
    }
}

/// How often the given hashes occur, together.
pub open spec fn sum_counts(hashes: Seq<u64>, keys: Seq<u64>) -> nat
    decreases keys.len(),
{
    if keys.len() == 0 {
        0
    } else {
        sum_counts(hashes, keys.drop_last()) + count_of(hashes, keys.last())
    }
}

/// The hashes of a list of coded values.
pub open spec fn coded(entries: Seq<ValueCodebookEntry>) -> Seq<u64> {
    Seq::new(entries.len(), |i: int| entries[i].value_hash)
}

/// Whether a hash that occurs `n` times is listed before `h2`, which occurs `n2` times: more
/// frequent first, then the smaller hash.
pub open spec fn before(h: u64, n: nat, h2: u64, n2: nat) -> bool {
    n > n2 || (n == n2 && h < h2)
}

/// Whether `d` is the codebook of the hashes: the up to 254 that come first by frequency and
/// hash, numbered from one, each with its frequency.
pub open spec fn is_codebook(d: FieldCompressionDictionary, hashes: Seq<u64>) -> bool {
    let e = d.entries@;
    &&& d.total_values == hashes.len()
    &&& d.covered_values == sum_counts(hashes, coded(e))
    &&& e.len() <= MAX_VALUE_CODES_PER_FIELD
    &&& forall|i: int|
        0 <= i < e.len() ==> (#[trigger] e[i]).code == i + 1 && e[i].frequency == count_of(
            hashes,
            e[i].value_hash,
        ) && e[i].frequency > 0
    &&& forall|i: int, j: int|
        #![trigger e[i], e[j]]
        0 <= i < j < e.len() ==> before(
            e[i].value_hash,
            e[i].frequency as nat,
            e[j].value_hash,
            e[j].frequency as nat,
        )
    &&& forall|h: u64|
        #![trigger count_of(hashes, h)]
        count_of(hashes, h) > 0 && !coded(e).contains(h) ==> e.len() == MAX_VALUE_CODES_PER_FIELD
            && forall|i: int|
            0 <= i < e.len() ==> before(
                (#[trigger] e[i]).value_hash,
                e[i].frequency as nat,
                h,
                count_of(hashes, h),
            )
}

impl FieldCompressionDictionary {
    /// Whether the coded values are all there are.
    pub open spec fn complete(&self) -> bool {
        self.total_values > 0 && self.covered_values == self.total_values
    }

    /// Whether the coded values are all there are, and there is one.
    pub fn is_complete(&self) -> (r: bool)
        ensures
            r == self.complete(),
    {
        self.total_values > 0 && self.covered_values == self.total_values
    }

    /// Whether a value with this hash is coded.
    pub fn contains_hash(&self, hash: u64) -> (r: bool)
        ensures
            r == coded(self.entries@).contains(hash),
    {
        let mut i: usize = 0;
        while i < self.entries.len()
            invariant
                0 <= i <= self.entries@.len(),
                forall|j: int| 0 <= j < i ==> coded(self.entries@)[j] != hash,
            decreases self.entries@.len() - i,
        {
            if self.entries[i].value_hash == hash {
                proof {
                    assert(coded(self.entries@)[i as int] == hash);
                }
                return true;
            }
            i += 1;
        }
        false
    }
}

proof fn lemma_count_is_multiset_count(s: Seq<u64>, h: u64)
    ensures
        count_of(s, h) == s.to_multiset().count(h),
    decreases s.len(),
{
    broadcast use vstd::seq_lib::group_to_multiset_ensures;
    broadcast use vstd::multiset::group_multiset_axioms;

    if s.len() > 0 {
        lemma_count_is_multiset_count(s.drop_last(), h);
        assert(s =~= s.drop_last().push(s.last()));
        vstd::seq_lib::to_multiset_build(s.drop_last(), s.last());
    } else {
        assert(s.to_multiset().len() == 0);
    }
}

proof fn lemma_sum_step(hashes: Seq<u64>, keys: Seq<u64>)
    requires
        hashes.len() > 0,
        keys.no_duplicates(),
    ensures
        sum_counts(hashes, keys) == sum_counts(hashes.drop_last(), keys) + (if keys.contains(
            hashes.last(),
        ) {
            1nat
        } else {
            0
        }),
    decreases keys.len(),
{
    if keys.len() > 0 {
        let front = keys.drop_last();
        assert(front.no_duplicates());
        lemma_sum_step(hashes, front);
        let x = hashes.last();
        if keys.last() == x {
            if front.contains(x) {
                let i = choose|i: int| 0 <= i < front.len() && front[i] == x;
                assert(keys[i] == keys[keys.len() - 1]);
            }
            assert(keys.contains(x));
        } else {
            if front.contains(x) {
                let i = choose|i: int| 0 <= i < front.len() && front[i] == x;
                assert(keys[i] == x);
            }
            if keys.contains(x) {
                let i = choose|i: int| 0 <= i < keys.len() && keys[i] == x;
                assert(front[i] == x);
            }
        }
    }
}

/// Different hashes together occur no more often than there are values.
pub proof fn lemma_sum_bounded(hashes: Seq<u64>, keys: Seq<u64>)
    requires
        keys.no_duplicates(),
    ensures
        sum_counts(hashes, keys) <= hashes.len(),
    decreases hashes.len(),
{
    if hashes.len() > 0 {
        lemma_sum_step(hashes, keys);
        lemma_sum_bounded(hashes.drop_last(), keys);
    } else {
        lemma_sum_of_nothing(hashes, keys);
    }
}

proof fn lemma_sum_of_nothing(hashes: Seq<u64>, keys: Seq<u64>)
    requires
        hashes.len() == 0,
    ensures
        sum_counts(hashes, keys) == 0,
    decreases keys.len(),
{
    if keys.len() > 0 {
        lemma_sum_of_nothing(hashes, keys.drop_last());
    }
}

/// A complete codebook holds exactly the hashes that occur.
pub proof fn law_complete_codebook_holds_every_hash(d: FieldCompressionDictionary, hashes: Seq<u64>, h: u64)
    requires
        is_codebook(d, hashes),
        d.complete(),
    ensures
        coded(d.entries@).contains(h) <==> count_of(hashes, h) > 0,
{
    let e = d.entries@;
    let keys = coded(e);
    if keys.contains(h) {
        let i = choose|i: int| 0 <= i < keys.len() && keys[i] == h;
        assert(e[i].frequency > 0);
    }
    if !keys.contains(h) {
        let more = keys.push(h);
        assert forall|i: int, j: int| 0 <= i < more.len() && 0 <= j < more.len() && i != j implies more[i]
            != more[j] by {
            if i < keys.len() && j < keys.len() {
                if i < j {
                    assert(before(e[i].value_hash, e[i].frequency as nat, e[j].value_hash, e[j].frequency as nat));
                } else {
                    assert(before(e[j].value_hash, e[j].frequency as nat, e[i].value_hash, e[i].frequency as nat));
                }
                if more[i] == more[j] {
                    assert(e[i].value_hash == e[j].value_hash);
                    assert(e[i].frequency == e[j].frequency);
                }
            } else if i < keys.len() {
                assert(keys[i] != h);
            } else {
                assert(keys[j] != h);
            }
        }
        lemma_sum_bounded(hashes, more);
        assert(more.drop_last() =~= keys);
    }
}

/// A value hash that occurs is counted.
pub proof fn lemma_member_is_counted(hashes: Seq<u64>, i: int)
    requires
        0 <= i < hashes.len(),
    ensures
        count_of(hashes, hashes[i]) > 0,
    decreases hashes.len(),
{
    if i < hashes.len() - 1 {
        lemma_member_is_counted(hashes.drop_last(), i);
    }
}

/// A value hash that is counted occurs.
pub proof fn lemma_counted_is_member(hashes: Seq<u64>, h: u64)
    requires
        count_of(hashes, h) > 0,
    ensures
        hashes.contains(h),
    decreases hashes.len(),
{
    if hashes.last() == h {
        assert(hashes[hashes.len() - 1] == h);
    } else {
        lemma_counted_is_member(hashes.drop_last(), h);
        let i = choose|i: int| 0 <= i < hashes.drop_last().len() && hashes.drop_last()[i] == h;
        assert(hashes[i] == h);
    }
}

fn ascending(a: &u64, b: &u64) -> (r: bool)
    ensures
        r == (*a < *b),
{
    *a < *b
}

fn pair_before(a: &(u64, u32), b: &(u64, u32)) -> (r: bool)
    ensures
        r == before(a.0, a.1 as nat, b.0, b.1 as nat),
{
    a.1 > b.1 || (a.1 == b.1 && a.0 < b.0)
}

/// Whether `pairs` lists the hashes that occur among `seen`, ascending, with their counts.
spec fn tallied(pairs: Seq<(u64, u32)>, seen: Seq<u64>) -> bool {
    &&& forall|i: int, j: int|
        #![trigger pairs[i], pairs[j]]
        0 <= i < j < pairs.len() ==> pairs[i].0 < pairs[j].0
    &&& forall|i: int| 0 <= i < pairs.len() ==> (#[trigger] pairs[i]).1 == count_of(seen, pairs[i].0)
        && pairs[i].1 > 0
    &&& forall|h: u64|
        #![trigger count_of(seen, h)]
        count_of(seen, h) > 0 ==> exists|i: int| 0 <= i < pairs.len() && (#[trigger] pairs[i]).0 == h
}

proof fn lemma_count_push(seen: Seq<u64>, x: u64, h: u64)
    ensures
        count_of(seen.push(x), h) == count_of(seen, h) + (if x == h {
            1nat
        } else {
            0
        }),
{
    assert(seen.push(x).drop_last() =~= seen);
}

proof fn lemma_count_bounded(seen: Seq<u64>, h: u64)
    ensures
        count_of(seen, h) <= seen.len(),
    decreases seen.len(),
{
    if seen.len() > 0 {
        lemma_count_bounded(seen.drop_last(), h);
    }
}

/// Counts the hashes of an ascending list.
fn tally(sorted: &Vec<u64>) -> (r: Vec<(u64, u32)>)
    requires
        sorted@.len() <= u32::MAX,
        forall|i: int, j: int|
            #![trigger sorted@[i], sorted@[j]]
            0 <= i < j < sorted@.len() ==> sorted@[i] <= sorted@[j],
    ensures
        tallied(r@, sorted@),
{
    let mut pairs: Vec<(u64, u32)> = Vec::new();
    let mut i: usize = 0;
    while i < sorted.len()
        invariant
            0 <= i <= sorted@.len(),
            sorted@.len() <= u32::MAX,
            forall|a: int, b: int|
                #![trigger sorted@[a], sorted@[b]]
                0 <= a < b < sorted@.len() ==> sorted@[a] <= sorted@[b],
            tallied(pairs@, sorted@.take(i as int)),
            i > 0 ==> pairs@.len() > 0 && pairs@.last().0 == sorted@[i - 1],
            i == 0 ==> pairs@.len() == 0,
        decreases sorted@.len() - i,
    {
        let x: u64 = sorted[i];
        let ghost seen = sorted@.take(i as int);
        let ghost old_pairs = pairs@;
        proof {
            assert(sorted@.take(i + 1) =~= seen.push(x));
            assert forall|h: u64| #[trigger] count_of(seen.push(x), h) == count_of(seen, h) + (if x == h {
                1nat
            } else {
                0
            }) by {
                lemma_count_push(seen, x, h);
            }
            if i > 0 {
                assert(sorted@[i - 1] <= sorted@[i as int]);
            }
        }
        let n: usize = pairs.len();
        if n > 0 && pairs[n - 1].0 == x {
            let c: u32 = pairs[n - 1].1;
            proof {
                lemma_count_bounded(seen, x);
                assert(pairs@[n - 1].1 == count_of(seen, x));
            }
            pairs.set(n - 1, (x, c + 1));
            proof {
                assert(tallied(pairs@, seen.push(x))) by {
                    assert forall|a: int, b: int|
                        #![trigger pairs@[a], pairs@[b]]
                        0 <= a < b < pairs@.len() implies pairs@[a].0 < pairs@[b].0 by {
                        assert(old_pairs[a].0 < old_pairs[b].0);
                    }
                    assert forall|k: int| 0 <= k < pairs@.len() implies (#[trigger] pairs@[k]).1 == count_of(
                        seen.push(x),
                        pairs@[k].0,
                    ) && pairs@[k].1 > 0 by {
                        assert(old_pairs[k].1 == count_of(seen, old_pairs[k].0));
                        if k < n - 1 {
                            assert(old_pairs[k].0 < old_pairs[n - 1].0);
                        }
                    }
                    assert forall|h: u64|
                        #![trigger count_of(seen.push(x), h)]
                        count_of(seen.push(x), h) > 0 implies exists|k: int|
                        0 <= k < pairs@.len() && (#[trigger] pairs@[k]).0 == h by {
                        if h == x {
                            assert(pairs@[n - 1].0 == h);
                        } else {
                            assert(count_of(seen, h) > 0);
                            let k = choose|k: int| 0 <= k < old_pairs.len() && (#[trigger] old_pairs[k]).0 == h;
                            assert(pairs@[k].0 == h);
                        }
                    }
                }
            }
        } else {
            proof {
                assert forall|k: int| 0 <= k < old_pairs.len() implies (#[trigger] old_pairs[k]).0 < x by {
                    if k < n - 1 {
                        assert(old_pairs[k].0 < old_pairs[n - 1].0);
                    }
                }
                if count_of(seen, x) > 0 {
                    let k = choose|k: int| 0 <= k < old_pairs.len() && (#[trigger] old_pairs[k]).0 == x;
                    assert(old_pairs[k].0 < x);
                }
            }
            pairs.push((x, 1));
            proof {
                assert(tallied(pairs@, seen.push(x))) by {
                    assert forall|k: int| 0 <= k < pairs@.len() implies (#[trigger] pairs@[k]).1 == count_of(
                        seen.push(x),
                        pairs@[k].0,
                    ) && pairs@[k].1 > 0 by {
                        if k < n {
                            assert(old_pairs[k].1 == count_of(seen, old_pairs[k].0));
                        }
                    }
                    assert forall|h: u64|
                        #![trigger count_of(seen.push(x), h)]
                        count_of(seen.push(x), h) > 0 implies exists|k: int|
                        0 <= k < pairs@.len() && (#[trigger] pairs@[k]).0 == h by {
                        if h == x {
                            assert(pairs@[n as int].0 == h);
                        } else {
                            assert(count_of(seen, h) > 0);
                            let k = choose|k: int| 0 <= k < old_pairs.len() && (#[trigger] old_pairs[k]).0 == h;
                            assert(pairs@[k].0 == h);
                        }
                    }
                }
            }
        }
        i += 1;
    }
    proof {
        assert(sorted@.take(sorted@.len() as int) =~= sorted@);
    }
    pairs
}

/// The codebook of a list of value hashes.
pub fn build_codebook(hashes: Vec<u64>) -> (r: FieldCompressionDictionary)
    requires
        hashes@.len() <= u32::MAX,
    ensures
        is_codebook(r, hashes@),
{
    let ghost all = hashes@;
    let total: u32 = hashes.len() as u32;
    let ghost lt = |a: u64, b: u64| a < b;
    proof {
        assert(strict_weak_order(lt));
    }
    let sorted = stable_sort(hashes, ascending, Ghost(lt));
    proof {
        let p = choose|p: Seq<int>| stable_order(all, sorted@, p, lt);
        assert forall|i: int, j: int|
            #![trigger sorted@[i], sorted@[j]]
            0 <= i < j < sorted@.len() implies sorted@[i] <= sorted@[j] by {
            assert(!lt(sorted@[j], sorted@[i]));
        }
        assert forall|h: u64| #[trigger] count_of(sorted@, h) == count_of(all, h) by {
            lemma_count_is_multiset_count(sorted@, h);
            lemma_count_is_multiset_count(all, h);
        }
    }
    let pairs = tally(&sorted);
    let ghost flat = pairs@;
    let ghost rank = |a: (u64, u32), b: (u64, u32)| before(a.0, a.1 as nat, b.0, b.1 as nat);
    proof {
        assert(strict_weak_order(rank));
    }
    let ranked = stable_sort(pairs, pair_before, Ghost(rank));
    let ghost order = choose|p: Seq<int>| stable_order(flat, ranked@, p, rank);
    proof {
        assert forall|i: int, j: int|
            #![trigger ranked@[i], ranked@[j]]
            0 <= i < j < ranked@.len() implies rank(ranked@[i], ranked@[j]) by {
            assert(ranked@[i] == flat[order[i]]);
            assert(ranked@[j] == flat[order[j]]);
            assert(order[i] != order[j]);
            if order[i] < order[j] {
                assert(flat[order[i]].0 < flat[order[j]].0);
            } else {
                assert(flat[order[j]].0 < flat[order[i]].0);
            }
            assert(!rank(ranked@[j], ranked@[i]));
        }
        assert forall|i: int| 0 <= i < ranked@.len() implies (#[trigger] ranked@[i]).1 == count_of(
            all,
            ranked@[i].0,
        ) && ranked@[i].1 > 0 by {
            assert(ranked@[i] == flat[order[i]]);
            assert(flat[order[i]].1 == count_of(sorted@, flat[order[i]].0));
        }
        assert forall|h: u64| #![trigger count_of(all, h)] count_of(all, h) > 0 implies exists|i: int|
            0 <= i < ranked@.len() && (#[trigger] ranked@[i]).0 == h by {
            assert(count_of(sorted@, h) > 0);
            let k = choose|k: int| 0 <= k < flat.len() && (#[trigger] flat[k]).0 == h;
            assert(order.contains(k));
            let i = choose|i: int| 0 <= i < order.len() && order[i] == k;
            assert(ranked@[i].0 == h);
        }
    }
    let mut entries: Vec<ValueCodebookEntry> = Vec::new();
    let mut covered: u32 = 0;
    let mut i: usize = 0;
    while i < ranked.len() && i < MAX_VALUE_CODES_PER_FIELD
        invariant
            0 <= i <= ranked@.len(),
            i <= MAX_VALUE_CODES_PER_FIELD,
            all.len() <= u32::MAX,
            entries@.len() == i,
            covered == sum_counts(all, coded(entries@)),
            rank == (|a: (u64, u32), b: (u64, u32)| before(a.0, a.1 as nat, b.0, b.1 as nat)),
            forall|a: int, b: int|
                #![trigger ranked@[a], ranked@[b]]
                0 <= a < b < ranked@.len() ==> rank(ranked@[a], ranked@[b]),
            forall|a: int|
                0 <= a < ranked@.len() ==> (#[trigger] ranked@[a]).1 == count_of(all, ranked@[a].0)
                    && ranked@[a].1 > 0,
            forall|a: int|
                0 <= a < i ==> (#[trigger] entries@[a]).code == a + 1 && entries@[a].value_hash == ranked@[a].0
                    && entries@[a].frequency == ranked@[a].1,
        decreases ranked@.len() - i,
    {
        let (value_hash, frequency) = ranked[i];
        let ghost before_keys = coded(entries@);
        let code: u8 = (i + 1) as u8;
        entries.push(ValueCodebookEntry { code, value_hash, frequency });
        proof {
            let keys = coded(entries@);
            assert(keys.drop_last() =~= before_keys);
            assert forall|a: int, b: int| 0 <= a < keys.len() && 0 <= b < keys.len() && a != b implies keys[a]
                != keys[b] by {
                assert(keys[a] == ranked@[a].0);
                assert(keys[b] == ranked@[b].0);
                if a < b {
                    assert(rank(ranked@[a], ranked@[b]));
                } else {
                    assert(rank(ranked@[b], ranked@[a]));
                }
                assert(ranked@[a].1 == count_of(all, ranked@[a].0));
                assert(ranked@[b].1 == count_of(all, ranked@[b].0));
            }
            lemma_sum_bounded(all, keys);
        }
        covered = covered + frequency;
        i += 1;
    }
    let r = FieldCompressionDictionary { total_values: total, covered_values: covered, entries };
    proof {
        let e = r.entries@;
        assert forall|a: int, b: int|
            #![trigger e[a], e[b]]
            0 <= a < b < e.len() implies before(
            e[a].value_hash,
            e[a].frequency as nat,
            e[b].value_hash,
            e[b].frequency as nat,
        ) by {
            assert(rank(ranked@[a], ranked@[b]));
        }
        assert forall|h: u64|
            #![trigger count_of(all, h)]
            count_of(all, h) > 0 && !coded(e).contains(h) implies e.len() == MAX_VALUE_CODES_PER_FIELD
            && forall|a: int|
            0 <= a < e.len() ==> before(
                (#[trigger] e[a]).value_hash,
                e[a].frequency as nat,
                h,
                count_of(all, h),
            ) by {
            let k = choose|k: int| 0 <= k < ranked@.len() && (#[trigger] ranked@[k]).0 == h;
            if k < e.len() {
                assert(coded(e)[k] == h);
            }
            assert forall|a: int| 0 <= a < e.len() implies before(
                (#[trigger] e[a]).value_hash,
                e[a].frequency as nat,
                h,
                count_of(all, h),
            ) by {
                assert(rank(ranked@[a], ranked@[k]));
            }
        }
    }
    r
}

} // verus!
