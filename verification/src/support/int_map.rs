//! A map keyed by numbers whose keys can be walked one by one.
use std::collections::HashMap;
use vstd::prelude::*;

verus! {

broadcast use vstd::std_specs::hash::group_hash_axioms;

/// Where `k` stands among the keys of `entries`, if it does.
spec fn key_at<V>(entries: Seq<(u64, V)>, k: u64, i: int) -> bool {
    0 <= i < entries.len() && entries[i].0 == k
}

spec fn has_key<V>(entries: Seq<(u64, V)>, k: u64) -> bool {
    exists|i: int| key_at(entries, k, i)
}

spec fn as_map<V>(entries: Seq<(u64, V)>) -> Map<u64, V> {
    Map::new(
        |k: u64| has_key(entries, k),
        |k: u64| entries[choose|i: int| key_at(entries, k, i)].1,
    )
}

spec fn unique<V>(entries: Seq<(u64, V)>) -> bool {
    forall|i: int, j: int|
        0 <= i < entries.len() && 0 <= j < entries.len() && #[trigger] entries[i].0
            == #[trigger] entries[j].0 ==> i == j
}

proof fn lemma_lookup<V>(entries: Seq<(u64, V)>, k: u64, i: int)
    requires
        unique(entries),
        key_at(entries, k, i),
    ensures
        as_map(entries).dom().contains(k),
        as_map(entries)[k] == entries[i].1,
{
    let w = choose|w: int| key_at(entries, k, w);
    assert(key_at(entries, k, w));
    assert(entries[w].0 == entries[i].0);
}

proof fn lemma_push<V>(entries: Seq<(u64, V)>, k: u64, v: V)
    requires
        unique(entries),
        !has_key(entries, k),
    ensures
        unique(entries.push((k, v))),
        as_map(entries.push((k, v))) =~= as_map(entries).insert(k, v),
{
    let after = entries.push((k, v));
    assert forall|i: int, j: int|
        0 <= i < after.len() && 0 <= j < after.len() && #[trigger] after[i].0
            == #[trigger] after[j].0 implies i == j by {
        if i < entries.len() && j == entries.len() {
            assert(key_at(entries, k, i));
        }
        if j < entries.len() && i == entries.len() {
            assert(key_at(entries, k, j));
        }
        if i < entries.len() && j < entries.len() {
            assert(entries[i].0 == entries[j].0);
        }
    }
    let want = as_map(entries).insert(k, v);
    assert forall|q: u64| as_map(after).dom().contains(q) == want.dom().contains(q) by {
        if has_key(after, q) {
            let i = choose|i: int| key_at(after, q, i);
            if i < entries.len() {
                assert(key_at(entries, q, i));
            }
        }
        if has_key(entries, q) {
            let i = choose|i: int| key_at(entries, q, i);
            assert(key_at(after, q, i));
        }
        if q == k {
            assert(key_at(after, q, entries.len() as int));
        }
    }
    assert forall|q: u64| as_map(after).dom().contains(q) implies as_map(after)[q] == want[q] by {
        let i = choose|i: int| key_at(after, q, i);
        assert(key_at(after, q, i));
        lemma_lookup(after, q, i);
        if i < entries.len() {
            assert(key_at(entries, q, i));
            lemma_lookup(entries, q, i);
        }
    }
}

proof fn lemma_replace<V>(entries: Seq<(u64, V)>, i: int, k: u64, v: V)
    requires
        unique(entries),
        key_at(entries, k, i),
    ensures
        unique(entries.update(i, (k, v))),
        as_map(entries.update(i, (k, v))) =~= as_map(entries).insert(k, v),
{
    let after = entries.update(i, (k, v));
    assert forall|a: int, b: int|
        0 <= a < after.len() && 0 <= b < after.len() && #[trigger] after[a].0
            == #[trigger] after[b].0 implies a == b by {
        assert(entries[a].0 == entries[b].0);
    }
    let want = as_map(entries).insert(k, v);
    assert forall|q: u64| as_map(after).dom().contains(q) == want.dom().contains(q) by {
        if has_key(after, q) {
            let j = choose|j: int| key_at(after, q, j);
            assert(key_at(entries, q, j));
        }
        if has_key(entries, q) {
            let j = choose|j: int| key_at(entries, q, j);
            assert(key_at(after, q, j));
        }
    }
    assert forall|q: u64| as_map(after).dom().contains(q) implies as_map(after)[q] == want[q] by {
        let j = choose|j: int| key_at(after, q, j);
        assert(key_at(after, q, j));
        lemma_lookup(after, q, j);
        assert(key_at(entries, q, j));
        lemma_lookup(entries, q, j);
        if q == k {
            assert(entries[i].0 == entries[j].0);
        }
    }
}

/// What is left once the `i`-th entry has made way for the last one.
spec fn without<V>(entries: Seq<(u64, V)>, i: int) -> Seq<(u64, V)> {
    entries.update(i, entries.last()).drop_last()
}

proof fn lemma_remove<V>(entries: Seq<(u64, V)>, i: int, k: u64)
    requires
        unique(entries),
        key_at(entries, k, i),
    ensures
        unique(without(entries, i)),
        as_map(without(entries, i)) =~= as_map(entries).remove(k),
{
    let after = without(entries, i);
    let n = after.len() as int;
    assert forall|a: int, b: int|
        0 <= a < after.len() && 0 <= b < after.len() && #[trigger] after[a].0
            == #[trigger] after[b].0 implies a == b by {
        let a2 = if a == i { n } else { a };
        let b2 = if b == i { n } else { b };
        assert(entries[a2].0 == entries[b2].0);
    }
    let want = as_map(entries).remove(k);
    assert forall|q: u64| as_map(after).dom().contains(q) == want.dom().contains(q) by {
        if has_key(after, q) {
            let j = choose|j: int| key_at(after, q, j);
            let j2 = if j == i { n } else { j };
            assert(key_at(entries, q, j2));
            if q == k {
                assert(entries[i].0 == entries[j2].0);
            }
        }
        if has_key(entries, q) && q != k {
            let j = choose|j: int| key_at(entries, q, j);
            assert(key_at(entries, q, j));
            let j2 = if j == n { i } else { j };
            assert(key_at(after, q, j2));
        }
    }
    assert forall|q: u64| as_map(after).dom().contains(q) implies as_map(after)[q] == want[q] by {
        let j = choose|j: int| key_at(after, q, j);
        assert(key_at(after, q, j));
        lemma_lookup(after, q, j);
        let j2 = if j == i { n } else { j };
        assert(key_at(entries, q, j2));
        lemma_lookup(entries, q, j2);
    }
}

/// Whether the places say where every key stands.
spec fn placed<V>(places: Map<u64, usize>, entries: Seq<(u64, V)>) -> bool {
    &&& forall|i: int|
        0 <= i < entries.len() ==> places.dom().contains(#[trigger] entries[i].0) && places[entries[i].0] == i
    &&& forall|k: u64| #[trigger] places.dom().contains(k) ==> key_at(entries, k, places[k] as int)
}

proof fn lemma_placed_again<V>(places: Map<u64, usize>, entries: Seq<(u64, V)>, i: int, k: u64, v: V)
    requires
        placed(places, entries),
        key_at(entries, k, i),
    ensures
        placed(places, entries.update(i, (k, v))),
{
    let after = entries.update(i, (k, v));
    assert forall|j: int| 0 <= j < after.len() implies places.dom().contains(#[trigger] after[j].0)
        && places[after[j].0] == j by {
        assert(after[j].0 == entries[j].0);
    }
    assert forall|q: u64| #[trigger] places.dom().contains(q) implies key_at(after, q, places[q] as int) by {
        assert(key_at(entries, q, places[q] as int));
    }
}

proof fn lemma_placed_last<V>(places: Map<u64, usize>, entries: Seq<(u64, V)>, k: u64, v: V)
    requires
        placed(places, entries),
        !has_key(entries, k),
        entries.len() <= usize::MAX,
    ensures
        placed(places.insert(k, entries.len() as usize), entries.push((k, v))),
{
    let after = entries.push((k, v));
    let now = places.insert(k, entries.len() as usize);
    assert forall|j: int| 0 <= j < after.len() implies now.dom().contains(#[trigger] after[j].0) && now[after[j].0]
        == j by {
        if j < entries.len() {
            assert(after[j] == entries[j]);
            assert(places.dom().contains(entries[j].0));
            if entries[j].0 == k {
                assert(key_at(entries, k, j));
            }
        }
    }
    assert forall|q: u64| #[trigger] now.dom().contains(q) implies key_at(after, q, now[q] as int) by {
        if q != k {
            assert(places.dom().contains(q));
            assert(key_at(entries, q, places[q] as int));
        }
    }
}

proof fn lemma_placed_without<V>(
    places: Map<u64, usize>,
    now: Map<u64, usize>,
    entries: Seq<(u64, V)>,
    i: int,
    k: u64,
)
    requires
        unique(entries),
        placed(places, entries),
        key_at(entries, k, i),
        now == (if i < entries.len() - 1 {
            places.remove(k).insert(entries.last().0, i as usize)
        } else {
            places.remove(k)
        }),
        i <= usize::MAX,
    ensures
        placed(now, without(entries, i)),
{
    let after = without(entries, i);
    let n = after.len() as int;
    assert forall|j: int| 0 <= j < after.len() implies now.dom().contains(#[trigger] after[j].0) && now[after[j].0]
        == j by {
        let j2 = if j == i { n } else { j };
        assert(after[j] == entries[j2]);
        assert(places.dom().contains(entries[j2].0));
        if entries[j2].0 == k {
            assert(entries[j2].0 == entries[i].0);
        }
        if entries[j2].0 == entries[n].0 {
            assert(j2 == n);
        }
    }
    assert forall|q: u64| #[trigger] now.dom().contains(q) implies key_at(after, q, now[q] as int) by {
        if i < n && q == entries.last().0 {
            assert(after[i] == entries[n]);
        } else {
            assert(places.dom().contains(q));
            assert(key_at(entries, q, places[q] as int));
            let j = places[q] as int;
            assert(j != i) by {
                if j == i {
                    assert(q == k);
                }
            }
            if j == n {
                assert(entries[n].0 == q);
            }
        }
    }
}

/// Map from numbers to values.
#[derive(Debug)]
pub struct IntMap<V> {
    entries: Vec<(u64, V)>,
    places: HashMap<u64, usize>,
}

impl<V> View for IntMap<V> {
    type V = Map<u64, V>;

    closed spec fn view(&self) -> Map<u64, V> {
        as_map(self.entries@)
    }
}

impl<V> IntMap<V> {
    #[verifier::type_invariant]
    spec fn inv(self) -> bool {
        unique(self.entries@) && placed(self.places@, self.entries@)
    }

    /// The keys, as they are walked; a new key comes last.
    pub closed spec fn keys(&self) -> Seq<u64> {
        Seq::new(self.entries@.len(), |i: int| self.entries@[i].0)
    }

    /// The empty map.
    pub fn new() -> (r: Self)
        ensures
            r@ == Map::<u64, V>::empty(),
            r.keys() == Seq::<u64>::empty(),
    {
        let r = IntMap { entries: Vec::new(), places: HashMap::new() };
        proof {
            assert(as_map(r.entries@) =~= Map::<u64, V>::empty());
        }
        r
    }

    fn find(&self, k: u64) -> (r: Option<usize>)
        ensures
            match r {
                Some(i) => key_at(self.entries@, k, i as int),
                None => !has_key(self.entries@, k),
            },
    {
        proof {
            use_type_invariant(self);
        }
        match self.places.get(&k) {
            Some(i) => Some(*i),
            None => {
                proof {
                    assert forall|i: int| !key_at(self.entries@, k, i) by {
                        if key_at(self.entries@, k, i) {
                            assert(self.places@.dom().contains(self.entries@[i].0));
                        }
                    }
                }
                None
            },
        }
    }

    /// The value under `k`.
    pub fn get(&self, k: u64) -> (r: Option<&V>)
        ensures
            match r {
                Some(v) => self@.dom().contains(k) && *v == self@[k],
                None => !self@.dom().contains(k),
            },
    {
        proof {
            use_type_invariant(self);
        }
        match self.find(k) {
            Some(i) => {
                proof {
                    lemma_lookup(self.entries@, k, i as int);
                }
                Some(&self.entries[i].1)
            },
            None => None,
        }
    }

    /// Whether `k` is a key.
    pub fn contains_key(&self, k: u64) -> (r: bool)
        ensures
            r == self@.dom().contains(k),
    {
        match self.get(k) {
            Some(_) => true,
            None => false,
        }
    }

    /// Puts `v` under `k`; a value already there is replaced and handed back.
    pub fn insert(&mut self, k: u64, v: V) -> (r: Option<V>)
        ensures
            final(self)@ == old(self)@.insert(k, v),
            match r {
                Some(w) => old(self)@.dom().contains(k) && w == old(self)@[k],
                None => !old(self)@.dom().contains(k),
            },
            final(self).keys() == (if old(self)@.dom().contains(k) {
                old(self).keys()
            } else {
                old(self).keys().push(k)
            }),
    {
        proof {
            use_type_invariant(&*self);
        }
        let at = self.find(k);
        let mut whole: IntMap<V> = IntMap::new();
        std::mem::swap(&mut whole, self);
        let IntMap { mut entries, mut places } = whole;
        let ghost before = entries@;
        match at {
            Some(i) => {
                proof {
                    lemma_lookup(entries@, k, i as int);
                    lemma_replace(entries@, i as int, k, v);
                }
                entries.push((k, v));
                let old_entry = entries.swap_remove(i);
                proof {
                    assert(entries@ =~= before.update(i as int, (k, v)));
                    lemma_placed_again(places@, before, i as int, k, v);
                }
                *self = IntMap { entries, places };
                proof {
                    assert(self.keys() =~= old(self).keys());
                }
                Some(old_entry.1)
            },
            None => {
                proof {
                    lemma_push(entries@, k, v);
                }
                let n: usize = entries.len();
                entries.push((k, v));
                let ghost places_before = places@;
                let _ = places.insert(k, n);
                proof {
                    lemma_placed_last(places_before, before, k, v);
                }
                *self = IntMap { entries, places };
                proof {
                    assert(self.keys() =~= old(self).keys().push(k));
                }
                None
            },
        }
    }

    /// Takes the value under `k` out of the map.
    pub fn remove(&mut self, k: u64) -> (r: Option<V>)
        ensures
            final(self)@ == old(self)@.remove(k),
            match r {
                Some(w) => old(self)@.dom().contains(k) && w == old(self)@[k],
                None => !old(self)@.dom().contains(k),
            },
    {
        proof {
            use_type_invariant(&*self);
        }
        let at = self.find(k);
        match at {
            Some(i) => {
                let mut whole: IntMap<V> = IntMap::new();
                std::mem::swap(&mut whole, self);
                let IntMap { mut entries, mut places } = whole;
                let ghost before = entries@;
                let ghost places_before = places@;
                proof {
                    lemma_lookup(entries@, k, i as int);
                    lemma_remove(entries@, i as int, k);
                }
                let gone = entries.swap_remove(i);
                proof {
                    assert(entries@ =~= without(before, i as int));
                }
                let _ = places.remove(&k);
                if i < entries.len() {
                    let moved: u64 = entries[i].0;
                    let _ = places.insert(moved, i);
                }
                proof {
                    lemma_placed_without(places_before, places@, before, i as int, k);
                }
                *self = IntMap { entries, places };
                Some(gone.1)
            },
            None => {
                proof {
                    assert(self@.remove(k) =~= self@);
                }
                None
            },
        }
    }

    /// Number of keys. Its contract also says how the keys and the map hang together.
    pub fn len(&self) -> (r: usize)
        ensures
            r == self.keys().len(),
            self.keys().no_duplicates(),
            self@.dom() =~= self.keys().to_set(),
            forall|k: u64| #[trigger] self.keys().contains(k) <==> self@.dom().contains(k),
    {
        proof {
            use_type_invariant(self);
            assert forall|k: u64| #[trigger] self.keys().contains(k) <==> self@.dom().contains(k) by {
                if self.keys().contains(k) {
                    let i = choose|i: int| 0 <= i < self.keys().len() && self.keys()[i] == k;
                    assert(key_at(self.entries@, k, i));
                }
                if self@.dom().contains(k) {
                    let i = choose|i: int| key_at(self.entries@, k, i);
                    assert(key_at(self.entries@, k, i));
                    assert(self.keys()[i] == k);
                }
            }
            assert forall|i: int, j: int|
                0 <= i < self.keys().len() && 0 <= j < self.keys().len() && i != j implies self.keys()[i]
                != self.keys()[j] by {
                assert(self.entries@[i].0 == self.keys()[i]);
                assert(self.entries@[j].0 == self.keys()[j]);
            }
        }
        self.entries.len()
    }

    /// Whether the map has no key.
    pub fn is_empty(&self) -> (r: bool)
        ensures
            r == (self@.dom() =~= Set::<u64>::empty()),
            r == (self.keys().len() == 0),
    {
        let n = self.len();
        proof {
            if n > 0 {
                assert(self.keys().contains(self.keys()[0]));
                assert(self@.dom().contains(self.keys()[0]));
            } else {
                assert forall|k: u64| !self@.dom().contains(k) by {
                    if self@.dom().contains(k) {
                        assert(self.keys().contains(k));
                    }
                }
                assert(self@.dom() =~= Set::<u64>::empty());
            }
        }
        n == 0
    }

    /// The `i`-th key.
    pub fn key(&self, i: usize) -> (r: u64)
        requires
            i < self.keys().len(),
        ensures
            r == self.keys()[i as int],
            self@.dom().contains(r),
    {
        proof {
            assert(key_at(self.entries@, self.entries@[i as int].0, i as int));
        }
        self.entries[i].0
    }

    /// The value under the `i`-th key.
    pub fn value(&self, i: usize) -> (r: &V)
        requires
            i < self.keys().len(),
        ensures
            self@.dom().contains(self.keys()[i as int]),
            *r == self@[self.keys()[i as int]],
    {
        proof {
            use_type_invariant(self);
            lemma_lookup(self.entries@, self.keys()[i as int], i as int);
        }
        &self.entries[i].1
    }
}

impl<V> Default for IntMap<V> {
    fn default() -> (r: Self)
        ensures
            r@ == Map::<u64, V>::empty(),
            r.keys() == Seq::<u64>::empty(),
    {
        IntMap::new()
    }
}

} // verus!
