//! Bloom filter over byte strings: it may say "perhaps" of a value never added, and never
//! says "no" of one that was.
use crate::digest::{blake3_bytes, blake3_digest};
use crate::support::bytes::{from_le, le_bytes, push_bytes, u64_from_le_at, u64_le};
use vstd::prelude::*;

verus! {

/// The hash of a value under a seed: the first eight bytes of the digest of seed and value.
pub open spec fn seeded_hash(value: Seq<u8>, seed: nat) -> nat {
    from_le(blake3_digest(le_bytes(seed, 8) + value).take(8))
}

/// The place in a filter of `len` places that a value marks under a seed.
pub open spec fn place(value: Seq<u8>, seed: nat, len: nat) -> int {
    (seeded_hash(value, seed) % len) as int
}

/// Whether a value marks place `i` under one of the first `hashes` seeds.
pub open spec fn marks(value: Seq<u8>, hashes: nat, len: nat, i: int) -> bool {
    exists|seed: nat| seed < hashes && #[trigger] place(value, seed, len) == i
}

/// The filter after a value has been added.
pub open spec fn added(bits: Seq<u8>, hashes: nat, value: Seq<u8>) -> Seq<u8> {
    Seq::new(
        bits.len(),
        |i: int|
            if marks(value, hashes, bits.len(), i) {
                1u8
            } else {
                bits[i]
            },
    )
}

/// Whether every place that a value marks is set.
pub open spec fn maybe_in(bits: Seq<u8>, hashes: nat, value: Seq<u8>) -> bool {
    forall|seed: nat| seed < hashes ==> bits[#[trigger] place(value, seed, bits.len())] == 1
}

/// The filter of `len` places that holds `values`.
pub open spec fn filter_of(values: Seq<Seq<u8>>, hashes: nat, len: nat) -> Seq<u8>
    decreases values.len(),
{
    if values.len() == 0 {
        Seq::new(len, |i: int| 0u8)
    } else {
        added(filter_of(values.drop_last(), hashes, len), hashes, values.last())
    }
}

/// The hash of `value` under `seed`.
fn hash_with_seed(value: &[u8], seed: u64) -> (r: u64)
    ensures
        r as nat == seeded_hash(value@, seed as nat),
{
    let mut b: Vec<u8> = Vec::new();
    let s = u64_le(seed);
    push_bytes(&mut b, s.as_slice());
    push_bytes(&mut b, value);
    proof {
        assert(b@ =~= le_bytes(seed as nat, 8) + value@);
    }
    let d = blake3_bytes(b.as_slice());
    proof {
        assert(d@.subrange(0, 8) =~= d@.take(8));
    }
    u64_from_le_at(d.as_slice(), 0)
}

/// Bloom filter with one byte per place.
#[derive(Debug, PartialEq, Eq)]
pub struct BloomFilter {
    bits: Vec<u8>,
    hash_count: u8,
}

impl BloomFilter {
    #[verifier::type_invariant]
    spec fn inv(self) -> bool {
        self.bits@.len() >= 8 && self.hash_count >= 1
    }

    /// The places of the filter.
    pub closed spec fn bits(&self) -> Seq<u8> {
        self.bits@
    }

    /// The number of hashes per value.
    pub closed spec fn hashes(&self) -> nat {
        self.hash_count as nat
    }

    /// An empty filter with at least eight places and at least one hash.
    pub fn new(bits_len: usize, hash_count: u8) -> (r: Self)
        ensures
            r.bits() == filter_of(
                Seq::empty(),
                r.hashes(),
                (if bits_len < 8 {
                    8
                } else {
                    bits_len
                }) as nat,
            ),
            r.hashes() == (if hash_count < 1 {
                1
            } else {
                hash_count
            }) as nat,
    {
        let n: usize = if bits_len < 8 {
            8
        } else {
            bits_len
        };
        let mut bits: Vec<u8> = Vec::new();
        let mut i: usize = 0;
        while i < n
            invariant
                0 <= i <= n,
                bits@.len() == i,
                forall|k: int| 0 <= k < i ==> #[trigger] bits@[k] == 0,
            decreases n - i,
        {
            bits.push(0);
            i += 1;
        }
        let h: u8 = if hash_count < 1 {
            1
        } else {
            hash_count
        };
        proof {
            assert(bits@ =~= Seq::new(n as nat, |k: int| 0u8));
        }
        BloomFilter { bits, hash_count: h }
    }

    /// The number of hashes per value.
    pub fn hash_count(&self) -> (r: u8)
        ensures
            r as nat == self.hashes(),
    {
        self.hash_count
    }

    /// Adds a value.
    pub fn add(&mut self, value: &[u8])
        ensures
            final(self).bits() == added(old(self).bits(), old(self).hashes(), value@),
            final(self).hashes() == old(self).hashes(),
    {
        proof {
            use_type_invariant(&*self);
        }
        let count: u8 = self.hash_count;
        let mut bits = copy_places(&self.bits);
        let ghost before = bits@;
        let len: usize = bits.len();
        let n: u64 = len as u64;
        let mut seed: u8 = 0;
        while seed < count
            invariant
                0 <= seed <= count,
                bits@.len() == before.len(),
                n == len,
                len == before.len(),
                n > 0,
                forall|i: int|
                    0 <= i < before.len() ==> #[trigger] bits@[i] == (if marks(
                        value@,
                        seed as nat,
                        before.len(),
                        i,
                    ) {
                        1u8
                    } else {
                        before[i]
                    }),
            decreases count - seed,
        {
            let h: u64 = hash_with_seed(value, seed as u64);
            let at: usize = (h % n) as usize;
            proof {
                assert(at as int == place(value@, seed as nat, before.len()));
                assert forall|i: int| 0 <= i < before.len() implies (marks(
                    value@,
                    (seed + 1) as nat,
                    before.len(),
                    i,
                ) <==> (marks(value@, seed as nat, before.len(), i) || i == at)) by {
                    if marks(value@, (seed + 1) as nat, before.len(), i) {
                        let s = choose|s: nat|
                            s < seed + 1 && #[trigger] place(value@, s, before.len()) == i;
                        if s < seed {
                            assert(place(value@, s, before.len()) == i);
                        }
                    }
                    if marks(value@, seed as nat, before.len(), i) {
                        let s = choose|s: nat| s < seed && #[trigger] place(value@, s, before.len()) == i;
                        assert(s < seed + 1);
                    }
                }
            }
            bits.set(at, 1);
            seed += 1;
        }
        proof {
            assert(bits@ =~= added(before, count as nat, value@));
        }
        self.bits = bits;
    }

    /// Whether the filter may hold `value`; a `false` is certain.
    pub fn might_contain(&self, value: &[u8]) -> (r: bool)
        ensures
            r == maybe_in(self.bits(), self.hashes(), value@),
    {
        proof {
            use_type_invariant(self);
        }
        let len: usize = self.bits.len();
        let n: u64 = len as u64;
        let mut seed: u8 = 0;
        while seed < self.hash_count
            invariant
                0 <= seed <= self.hash_count,
                n == len,
                len == self.bits@.len(),
                n > 0,
                forall|s: nat| s < seed ==> self.bits@[#[trigger] place(value@, s, self.bits@.len())] == 1,
            decreases self.hash_count - seed,
        {
            let h: u64 = hash_with_seed(value, seed as u64);
            let at: usize = (h % n) as usize;
            proof {
                assert(at as int == place(value@, seed as nat, self.bits@.len()));
            }
            if self.bits[at] != 1 {
                return false;
            }
            seed += 1;
        }
        true
    }
}

fn copy_places(v: &Vec<u8>) -> (r: Vec<u8>)
    ensures
        r@ == v@,
{
    crate::support::bytes::copy_bytes(v.as_slice())
}

/// A value is found after it was added, and stays found whatever is added later.
pub proof fn law_added_value_is_found(bits: Seq<u8>, hashes: nat, value: Seq<u8>, other: Seq<u8>)
    requires
        bits.len() > 0,
    ensures
        maybe_in(added(bits, hashes, value), hashes, value),
        maybe_in(bits, hashes, value) ==> maybe_in(added(bits, hashes, other), hashes, value),
{
    let len = bits.len();
    assert forall|seed: nat| seed < hashes implies added(bits, hashes, value)[#[trigger] place(
        value,
        seed,
        len,
    )] == 1 by {
        assert(marks(value, hashes, len, place(value, seed, len)));
    }
    if maybe_in(bits, hashes, value) {
        assert forall|seed: nat| seed < hashes implies added(bits, hashes, other)[#[trigger] place(
            value,
            seed,
            len,
        )] == 1 by {
            assert(bits[place(value, seed, len)] == 1);
        }
    }
}

/// No false negatives: every value that a filter was built from is found in it.
pub proof fn law_no_false_negatives(values: Seq<Seq<u8>>, hashes: nat, len: nat, i: int)
    requires
        len > 0,
        0 <= i < values.len(),
    ensures
        filter_of(values, hashes, len).len() == len,
        maybe_in(filter_of(values, hashes, len), hashes, values[i]),
    decreases values.len(),
{
    let before = filter_of(values.drop_last(), hashes, len);
    lemma_filter_len(values.drop_last(), hashes, len);
    law_added_value_is_found(before, hashes, values[i], values.last());
    law_added_value_is_found(before, hashes, values.last(), values.last());
    if i < values.len() - 1 {
        law_no_false_negatives(values.drop_last(), hashes, len, i);
    }
}

proof fn lemma_filter_len(values: Seq<Seq<u8>>, hashes: nat, len: nat)
    ensures
        filter_of(values, hashes, len).len() == len,
    decreases values.len(),
{
    if values.len() > 0 {
        lemma_filter_len(values.drop_last(), hashes, len);
    }
}

} // verus!
