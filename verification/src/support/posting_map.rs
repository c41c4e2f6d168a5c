//! A map from byte strings to lists of signatures, kept in dictionary order of the keys.
use super::bytes::{bytes_eq, bytes_less, lex_less};
use super::sort::lemma_lex_is_order;
use vstd::prelude::*;

verus! {

spec fn key_at(entries: Seq<(Vec<u8>, Vec<[u8; 8]>)>, k: Seq<u8>, i: int) -> bool {
    0 <= i < entries.len() && entries[i].0@ == k
}

spec fn has_key(entries: Seq<(Vec<u8>, Vec<[u8; 8]>)>, k: Seq<u8>) -> bool {
    exists|i: int| key_at(entries, k, i)
}

spec fn as_map(entries: Seq<(Vec<u8>, Vec<[u8; 8]>)>) -> Map<Seq<u8>, Seq<[u8; 8]>> {
    Map::new(
        |k: Seq<u8>| has_key(entries, k),
        |k: Seq<u8>| entries[choose|i: int| key_at(entries, k, i)].1@,
    )
}

spec fn ascending(entries: Seq<(Vec<u8>, Vec<[u8; 8]>)>) -> bool {
    forall|i: int, j: int|
        #![trigger entries[i], entries[j]]
        0 <= i < j < entries.len() ==> lex_less(entries[i].0@, entries[j].0@)
}

proof fn lemma_lookup(entries: Seq<(Vec<u8>, Vec<[u8; 8]>)>, k: Seq<u8>, i: int)
    requires
        ascending(entries),
        key_at(entries, k, i),
    ensures
        as_map(entries).dom().contains(k),
        as_map(entries)[k] == entries[i].1@,
        forall|j: int| key_at(entries, k, j) ==> j == i,
{
    lemma_lex_is_order();
    assert forall|j: int| key_at(entries, k, j) implies j == i by {
        if j < i {
            assert(lex_less(entries[j].0@, entries[i].0@));
        }
        if i < j {
            assert(lex_less(entries[i].0@, entries[j].0@));
        }
    }
    let w = choose|w: int| key_at(entries, k, w);
    assert(key_at(entries, k, w));
}

proof fn lemma_replace(entries: Seq<(Vec<u8>, Vec<[u8; 8]>)>, i: int, e: (Vec<u8>, Vec<[u8; 8]>))
    requires
        ascending(entries),
        key_at(entries, e.0@, i),
    ensures
        ascending(entries.update(i, e)),
        as_map(entries.update(i, e)) =~= as_map(entries).insert(e.0@, e.1@),
{
    let k = e.0@;
    let after = entries.update(i, e);
    let want = as_map(entries).insert(k, e.1@);
    assert forall|a: int, b: int|
        #![trigger after[a], after[b]]
        0 <= a < b < after.len() implies lex_less(after[a].0@, after[b].0@) by {
        assert(lex_less(entries[a].0@, entries[b].0@));
    }
    assert forall|q: Seq<u8>| as_map(after).dom().contains(q) == want.dom().contains(q) by {
        if has_key(after, q) {
            let j = choose|j: int| key_at(after, q, j);
            assert(key_at(entries, q, j));
        }
        if has_key(entries, q) {
            let j = choose|j: int| key_at(entries, q, j);
            assert(key_at(after, q, j));
        }
    }
    assert forall|q: Seq<u8>| as_map(after).dom().contains(q) implies as_map(after)[q] == want[q] by {
        let j = choose|j: int| key_at(after, q, j);
        assert(key_at(after, q, j));
        lemma_lookup(after, q, j);
        assert(key_at(entries, q, j));
        lemma_lookup(entries, q, j);
    }
}

proof fn lemma_insert(entries: Seq<(Vec<u8>, Vec<[u8; 8]>)>, at: int, e: (Vec<u8>, Vec<[u8; 8]>))
    requires
        ascending(entries),
        0 <= at <= entries.len(),
        forall|i: int| 0 <= i < at ==> lex_less((#[trigger] entries[i]).0@, e.0@),
        forall|i: int| at <= i < entries.len() ==> lex_less(e.0@, (#[trigger] entries[i]).0@),
    ensures
        !has_key(entries, e.0@),
        ascending(entries.insert(at, e)),
        as_map(entries.insert(at, e)) =~= as_map(entries).insert(e.0@, e.1@),
{
    lemma_lex_is_order();
    let k = e.0@;
    let after = entries.insert(at, e);
    let want = as_map(entries).insert(k, e.1@);
    assert forall|i: int| !key_at(entries, k, i) by {
        if key_at(entries, k, i) {
            assert(lex_less(entries[i].0@, k) || lex_less(k, entries[i].0@));
        }
    }
    assert forall|a: int, b: int|
        #![trigger after[a], after[b]]
        0 <= a < b < after.len() implies lex_less(after[a].0@, after[b].0@) by {
        let a2 = if a < at { a } else { a - 1 };
        let b2 = if b < at { b } else { b - 1 };
        if a != at && b != at {
            assert(after[a] == entries[a2] && after[b] == entries[b2]);
            assert(lex_less(entries[a2].0@, entries[b2].0@));
        } else if a == at {
            assert(after[b] == entries[b2]);
            assert(lex_less(k, entries[b2].0@));
        } else {
            assert(after[a] == entries[a2]);
            assert(lex_less(entries[a2].0@, k));
        }
    }
    assert forall|q: Seq<u8>| as_map(after).dom().contains(q) == want.dom().contains(q) by {
        if has_key(after, q) {
            let j = choose|j: int| key_at(after, q, j);
            if j < at {
                assert(key_at(entries, q, j));
            } else if j > at {
                assert(key_at(entries, q, j - 1));
            }
        }
        if has_key(entries, q) {
            let j = choose|j: int| key_at(entries, q, j);
            if j < at {
                assert(key_at(after, q, j));
            } else {
                assert(key_at(after, q, j + 1));
            }
        }
        if q == k {
            assert(key_at(after, q, at));
        }
    }
    assert forall|q: Seq<u8>| as_map(after).dom().contains(q) implies as_map(after)[q] == want[q] by {
        let j = choose|j: int| key_at(after, q, j);
        assert(key_at(after, q, j));
        lemma_lookup(after, q, j);
        if j < at {
            assert(key_at(entries, q, j));
            lemma_lookup(entries, q, j);
        } else if j > at {
            assert(key_at(entries, q, j - 1));
            lemma_lookup(entries, q, j - 1);
        }
    }
}

/// Map from byte strings to signature lists.
#[derive(Debug)]
pub struct PostingMap {
    entries: Vec<(Vec<u8>, Vec<[u8; 8]>)>,
}

impl View for PostingMap {
    type V = Map<Seq<u8>, Seq<[u8; 8]>>;

    closed spec fn view(&self) -> Map<Seq<u8>, Seq<[u8; 8]>> {
        as_map(self.entries@)
    }
}

/// The signatures listed under `k`; none where `k` is no key.
pub open spec fn listed(m: Map<Seq<u8>, Seq<[u8; 8]>>, k: Seq<u8>) -> Seq<[u8; 8]> {
    if m.dom().contains(k) {
        m[k]
    } else {
        Seq::empty()
    }
}

/// Copies a list of signatures.
pub fn copy_signatures(v: &Vec<[u8; 8]>) -> (r: Vec<[u8; 8]>)
    ensures
        r@ == v@,
{
    let mut out: Vec<[u8; 8]> = Vec::new();
    let mut i: usize = 0;
    while i < v.len()
        invariant
            0 <= i <= v@.len(),
            out@ == v@.take(i as int),
        decreases v@.len() - i,
    {
        out.push(v[i]);
        proof {
            assert(v@.take(i + 1) =~= v@.take(i as int).push(v@[i as int]));
        }
        i += 1;
    }
    proof {
        assert(v@.take(v@.len() as int) =~= v@);
    }
    out
}

impl PostingMap {
    #[verifier::type_invariant]
    spec fn inv(self) -> bool {
        ascending(self.entries@)
    }

    /// The keys, in dictionary order.
    pub closed spec fn keys(&self) -> Seq<Seq<u8>> {
        Seq::new(self.entries@.len(), |i: int| self.entries@[i].0@)
    }

    /// The empty map.
    pub fn new() -> (r: Self)
        ensures
            r@ == Map::<Seq<u8>, Seq<[u8; 8]>>::empty(),
            r.keys() == Seq::<Seq<u8>>::empty(),
    {
        let r = PostingMap { entries: Vec::new() };
        proof {
            assert(r.keys() =~= Seq::<Seq<u8>>::empty());
            assert(as_map(r.entries@) =~= Map::<Seq<u8>, Seq<[u8; 8]>>::empty());
        }
        r
    }

    /// Where `k` is or belongs: everything before stands before `k`, nothing after does.
    fn position(&self, k: &[u8]) -> (r: usize)
        ensures
            r <= self.entries@.len(),
            forall|i: int| 0 <= i < r ==> lex_less((#[trigger] self.entries@[i]).0@, k@),
            forall|i: int| r <= i < self.entries@.len() ==> !lex_less((#[trigger] self.entries@[i]).0@, k@),
    {
        proof {
            use_type_invariant(self);
            lemma_lex_is_order();
        }
        let mut lo: usize = 0;
        let mut hi: usize = self.entries.len();
        while lo < hi
            invariant
                0 <= lo <= hi <= self.entries@.len(),
                ascending(self.entries@),
                forall|i: int| 0 <= i < lo ==> lex_less((#[trigger] self.entries@[i]).0@, k@),
                forall|i: int| hi <= i < self.entries@.len() ==> !lex_less((#[trigger] self.entries@[i]).0@, k@),
            decreases hi - lo,
        {
            let mid: usize = lo + (hi - lo) / 2;
            proof {
                lemma_lex_is_order();
            }
            if bytes_less(self.entries[mid].0.as_slice(), k) {
                proof {
                    assert forall|i: int| 0 <= i < mid + 1 implies lex_less((#[trigger] self.entries@[i]).0@, k@) by {
                        if i < mid {
                            assert(lex_less(self.entries@[i].0@, self.entries@[mid as int].0@));
                        }
                    }
                }
                lo = mid + 1;
            } else {
                proof {
                    assert forall|i: int| mid <= i < self.entries@.len() implies !lex_less(
                        (#[trigger] self.entries@[i]).0@,
                        k@,
                    ) by {
                        if i > mid {
                            assert(lex_less(self.entries@[mid as int].0@, self.entries@[i].0@));
                        }
                    }
                }
                hi = mid;
            }
        }
        lo
    }

    fn find(&self, k: &[u8]) -> (r: (bool, usize))
        ensures
            r.0 ==> key_at(self.entries@, k@, r.1 as int),
            !r.0 ==> !has_key(self.entries@, k@),
            r.1 <= self.entries@.len(),
            forall|i: int| 0 <= i < r.1 ==> lex_less((#[trigger] self.entries@[i]).0@, k@),
            !r.0 ==> forall|i: int|
                r.1 <= i < self.entries@.len() ==> lex_less(k@, (#[trigger] self.entries@[i]).0@),
    {
        let at = self.position(k);
        proof {
            use_type_invariant(self);
            lemma_lex_is_order();
        }
        if at < self.entries.len() && bytes_eq(self.entries[at].0.as_slice(), k) {
            return (true, at);
        }
        proof {
            assert forall|i: int| at <= i < self.entries@.len() implies lex_less(
                k@,
                (#[trigger] self.entries@[i]).0@,
            ) by {
                crate::support::bytes::lemma_lex_total(k@, self.entries@[at as int].0@);
                if i > at {
                    assert(lex_less(self.entries@[at as int].0@, self.entries@[i].0@));
                }
            }
            assert forall|i: int| !key_at(self.entries@, k@, i) by {
                if key_at(self.entries@, k@, i) {
                    assert(lex_less(self.entries@[i].0@, k@) || lex_less(k@, self.entries@[i].0@));
                }
            }
        }
        (false, at)
    }

    /// The signatures listed under `k`.
    pub fn get(&self, k: &[u8]) -> (r: Option<&Vec<[u8; 8]>>)
        ensures
            match r {
                Some(v) => self@.dom().contains(k@) && v@ == self@[k@],
                None => !self@.dom().contains(k@),
            },
    {
        let (found, at) = self.find(k);
        proof {
            use_type_invariant(self);
        }
        if found {
            proof {
                lemma_lookup(self.entries@, k@, at as int);
            }
            Some(&self.entries[at].1)
        } else {
            None
        }
    }

    /// Puts a list under `k`, in place of what was there.
    pub fn set(&mut self, k: Vec<u8>, v: Vec<[u8; 8]>)
        ensures
            final(self)@ == old(self)@.insert(k@, v@),
    {
        let (found, at) = self.find(k.as_slice());
        proof {
            use_type_invariant(&*self);
        }
        let mut entries: Vec<(Vec<u8>, Vec<[u8; 8]>)> = Vec::new();
        std::mem::swap(&mut entries, &mut self.entries);
        proof {
            if found {
                lemma_replace(entries@, at as int, (k, v));
            } else {
                lemma_insert(entries@, at as int, (k, v));
            }
        }
        if found {
            let ghost before = entries@;
            entries.push((k, v));
            let gone = entries.swap_remove(at);
            proof {
                assert(entries@ =~= before.update(at as int, (k, v)));
            }
        } else {
            entries.insert(at, (k, v));
        }
        self.entries = entries;
    }

    /// Appends `sig` to the list under `k`.
    pub fn append(&mut self, k: Vec<u8>, sig: [u8; 8])
        ensures
            final(self)@ == old(self)@.insert(k@, listed(old(self)@, k@).push(sig)),
    {
        let (found, at) = self.find(k.as_slice());
        if !found {
            let mut v: Vec<[u8; 8]> = Vec::new();
            v.push(sig);
            self.set(k, v);
            return ;
        }
        proof {
            use_type_invariant(&*self);
            lemma_lookup(self.entries@, k@, at as int);
        }
        let mut entries: Vec<(Vec<u8>, Vec<[u8; 8]>)> = Vec::new();
        std::mem::swap(&mut entries, &mut self.entries);
        let ghost before = entries@;
        entries[at].1.push(sig);
        proof {
            assert(entries@ =~= before.update(at as int, entries@[at as int]));
            lemma_replace(before, at as int, entries@[at as int]);
        }
        self.entries = entries;
    }

    /// Number of keys. Its contract also says how the keys and the map hang together.
    pub fn len(&self) -> (r: usize)
        ensures
            r == self.keys().len(),
            self.keys().no_duplicates(),
            forall|k: Seq<u8>| #[trigger] self.keys().contains(k) <==> self@.dom().contains(k),
    {
        proof {
            use_type_invariant(self);
            assert forall|k: Seq<u8>| #[trigger] self.keys().contains(k) <==> self@.dom().contains(k) by {
                if self.keys().contains(k) {
                    let i = choose|i: int| 0 <= i < self.keys().len() && self.keys()[i] == k;
                    assert(key_at(self.entries@, k, i));
                }
                if self@.dom().contains(k) {
                    let i = choose|i: int| key_at(self.entries@, k, i);
                    assert(key_at(self.entries@, k, i));
                    assert(self.keys()[i] == k);
                }
            }
            assert forall|i: int, j: int|
                0 <= i < self.keys().len() && 0 <= j < self.keys().len() && i != j implies self.keys()[i]
                != self.keys()[j] by {
                assert(key_at(self.entries@, self.keys()[i], i));
                assert(key_at(self.entries@, self.keys()[j], j));
                if self.keys()[i] == self.keys()[j] {
                    lemma_lookup(self.entries@, self.keys()[i], i);
                }
            }
        }
        self.entries.len()
    }

    /// The `i`-th key.
    pub fn key(&self, i: usize) -> (r: &Vec<u8>)
        requires
            i < self.keys().len(),
        ensures
            r@ == self.keys()[i as int],
    {
        &self.entries[i].0
    }

    /// The list under the `i`-th key.
    pub fn list(&self, i: usize) -> (r: &Vec<[u8; 8]>)
        requires
            i < self.keys().len(),
        ensures
            self@.dom().contains(self.keys()[i as int]),
            r@ == self@[self.keys()[i as int]],
    {
        proof {
            use_type_invariant(self);
            lemma_lookup(self.entries@, self.keys()[i as int], i as int);
        }
        &self.entries[i].1
    }
}

} // verus!
