//! A map keyed by text that keeps its keys in the order of first insertion.
use super::text::string_is;
use vstd::prelude::*;

verus! {

/// Where `k` stands among the keys of `entries`, if it does.
spec fn key_at<V>(entries: Seq<(String, V)>, k: Seq<char>, i: int) -> bool {
    0 <= i < entries.len() && entries[i].0@ == k
}

spec fn has_key<V>(entries: Seq<(String, V)>, k: Seq<char>) -> bool {
    exists|i: int| key_at(entries, k, i)
}

spec fn as_map<V>(entries: Seq<(String, V)>) -> Map<Seq<char>, V> {
    Map::new(
        |k: Seq<char>| has_key(entries, k),
        |k: Seq<char>| entries[choose|i: int| key_at(entries, k, i)].1,
    )
}

spec fn unique<V>(entries: Seq<(String, V)>) -> bool {
    forall|i: int, j: int|
        0 <= i < entries.len() && 0 <= j < entries.len() && #[trigger] entries[i].0@
            == #[trigger] entries[j].0@ ==> i == j
}

proof fn lemma_lookup<V>(entries: Seq<(String, V)>, k: Seq<char>, i: int)
    requires
        unique(entries),
        key_at(entries, k, i),
    ensures
        as_map(entries).dom().contains(k),
        as_map(entries)[k] == entries[i].1,
{
    let w = choose|w: int| key_at(entries, k, w);
    assert(key_at(entries, k, w));
    assert(entries[w].0@ == entries[i].0@);
}

proof fn lemma_push<V>(entries: Seq<(String, V)>, k: String, v: V)
    requires
        unique(entries),
        !has_key(entries, k@),
    ensures
        unique(entries.push((k, v))),
        as_map(entries.push((k, v))) =~= as_map(entries).insert(k@, v),
{
    let after = entries.push((k, v));
    assert forall|i: int, j: int|
        0 <= i < after.len() && 0 <= j < after.len() && #[trigger] after[i].0@
            == #[trigger] after[j].0@ implies i == j by {
        if i < entries.len() && j == entries.len() {
            assert(key_at(entries, k@, i));
        }
        if j < entries.len() && i == entries.len() {
            assert(key_at(entries, k@, j));
        }
        if i < entries.len() && j < entries.len() {
            assert(entries[i].0@ == entries[j].0@);
        }
    }
    let want = as_map(entries).insert(k@, v);
    assert forall|q: Seq<char>| as_map(after).dom().contains(q) == want.dom().contains(q) by {
        if has_key(after, q) {
            let i = choose|i: int| key_at(after, q, i);
            if i < entries.len() {
                assert(key_at(entries, q, i));
            }
        }
        if has_key(entries, q) {
            let i = choose|i: int| key_at(entries, q, i);
            assert(key_at(after, q, i));
        }
        if q == k@ {
            assert(key_at(after, q, entries.len() as int));
        }
    }
    assert forall|q: Seq<char>| as_map(after).dom().contains(q) implies as_map(after)[q] == want[q] by {
        let i = choose|i: int| key_at(after, q, i);
        assert(key_at(after, q, i));
        lemma_lookup(after, q, i);
        if i < entries.len() {
            assert(key_at(entries, q, i));
            lemma_lookup(entries, q, i);
        }
    }
}

proof fn lemma_replace<V>(entries: Seq<(String, V)>, i: int, k: String, v: V)
    requires
        unique(entries),
        key_at(entries, k@, i),
    ensures
        unique(entries.update(i, (k, v))),
        as_map(entries.update(i, (k, v))) =~= as_map(entries).insert(k@, v),
{
    let after = entries.update(i, (k, v));
    assert forall|a: int, b: int|
        0 <= a < after.len() && 0 <= b < after.len() && #[trigger] after[a].0@
            == #[trigger] after[b].0@ implies a == b by {
        assert(entries[a].0@ == entries[b].0@);
    }
    let want = as_map(entries).insert(k@, v);
    assert forall|q: Seq<char>| as_map(after).dom().contains(q) == want.dom().contains(q) by {
        if has_key(after, q) {
            let j = choose|j: int| key_at(after, q, j);
            assert(key_at(entries, q, j));
        }
        if has_key(entries, q) {
            let j = choose|j: int| key_at(entries, q, j);
            assert(key_at(after, q, j));
        }
    }
    assert forall|q: Seq<char>| as_map(after).dom().contains(q) implies as_map(after)[q] == want[q] by {
        let j = choose|j: int| key_at(after, q, j);
        assert(key_at(after, q, j));
        lemma_lookup(after, q, j);
        assert(key_at(entries, q, j));
        lemma_lookup(entries, q, j);
        if q == k@ {
            assert(entries[i].0@ == entries[j].0@);
        }
    }
}

proof fn lemma_remove<V>(entries: Seq<(String, V)>, i: int, k: Seq<char>)
    requires
        unique(entries),
        key_at(entries, k, i),
    ensures
        unique(entries.remove(i)),
        as_map(entries.remove(i)) =~= as_map(entries).remove(k),
{
    let after = entries.remove(i);
    assert forall|a: int, b: int|
        0 <= a < after.len() && 0 <= b < after.len() && #[trigger] after[a].0@
            == #[trigger] after[b].0@ implies a == b by {
        let a2 = if a < i { a } else { a + 1 };
        let b2 = if b < i { b } else { b + 1 };
        assert(entries[a2].0@ == entries[b2].0@);
    }
    let want = as_map(entries).remove(k);
    assert forall|q: Seq<char>| as_map(after).dom().contains(q) == want.dom().contains(q) by {
        if has_key(after, q) {
            let j = choose|j: int| key_at(after, q, j);
            let j2 = if j < i { j } else { j + 1 };
            assert(key_at(entries, q, j2));
            if q == k {
                assert(entries[i].0@ == entries[j2].0@);
            }
        }
        if has_key(entries, q) && q != k {
            let j = choose|j: int| key_at(entries, q, j);
            assert(key_at(entries, q, j));
            assert(j != i);
            let j2 = if j < i { j } else { j - 1 };
            assert(key_at(after, q, j2));
        }
    }
    assert forall|q: Seq<char>| as_map(after).dom().contains(q) implies as_map(after)[q] == want[q] by {
        let j = choose|j: int| key_at(after, q, j);
        assert(key_at(after, q, j));
        lemma_lookup(after, q, j);
        let j2 = if j < i { j } else { j + 1 };
        assert(key_at(entries, q, j2));
        lemma_lookup(entries, q, j2);
    }
}

/// Map from text to values.
#[derive(Debug)]
pub struct StrMap<V> {
    entries: Vec<(String, V)>,
}

impl<V> View for StrMap<V> {
    type V = Map<Seq<char>, V>;

    closed spec fn view(&self) -> Map<Seq<char>, V> {
        as_map(self.entries@)
    }
}

impl<V> StrMap<V> {
    #[verifier::type_invariant]
    spec fn inv(self) -> bool {
        unique(self.entries@)
    }

    /// The keys, in the order of first insertion.
    pub closed spec fn keys(&self) -> Seq<Seq<char>> {
        Seq::new(self.entries@.len(), |i: int| self.entries@[i].0@)
    }

    /// The empty map.
    pub fn new() -> (r: Self)
        ensures
            r@ == Map::<Seq<char>, V>::empty(),
            r.keys() == Seq::<Seq<char>>::empty(),
    {
        let r = StrMap { entries: Vec::new() };
        proof {
            assert(as_map(r.entries@) =~= Map::<Seq<char>, V>::empty());
        }
        r
    }

    fn find(&self, k: &str) -> (r: Option<usize>)
        ensures
            match r {
                Some(i) => key_at(self.entries@, k@, i as int),
                None => !has_key(self.entries@, k@),
            },
    {
        let mut i: usize = 0;
        while i < self.entries.len()
            invariant
                0 <= i <= self.entries@.len(),
                forall|j: int| 0 <= j < i ==> !key_at(self.entries@, k@, j),
            decreases self.entries@.len() - i,
        {
            if string_is(&self.entries[i].0, k) {
                return Some(i);
            }
            i += 1;
        }
        None
    }

    /// The value under `k`.
    pub fn get(&self, k: &str) -> (r: Option<&V>)
        ensures
            match r {
                Some(v) => self@.dom().contains(k@) && *v == self@[k@],
                None => !self@.dom().contains(k@),
            },
    {
        proof {
            use_type_invariant(self);
        }
        match self.find(k) {
            Some(i) => {
                proof {
                    lemma_lookup(self.entries@, k@, i as int);
                }
                Some(&self.entries[i].1)
            },
            None => None,
        }
    }

    /// Whether `k` is a key.
    pub fn contains_key(&self, k: &str) -> (r: bool)
        ensures
            r == self@.dom().contains(k@),
    {
        match self.get(k) {
            Some(_) => true,
            None => false,
        }
    }

    /// Puts `v` under `k`; a value already there is replaced and handed back.
    pub fn insert(&mut self, k: String, v: V) -> (r: Option<V>)
        ensures
            final(self)@ == old(self)@.insert(k@, v),
            match r {
                Some(w) => old(self)@.dom().contains(k@) && w == old(self)@[k@],
                None => !old(self)@.dom().contains(k@),
            },
            final(self).keys() == (if old(self)@.dom().contains(k@) {
                old(self).keys()
            } else {
                old(self).keys().push(k@)
            }),
    {
        proof {
            use_type_invariant(&*self);
        }
        let at = self.find(k.as_str());
        let mut entries: Vec<(String, V)> = Vec::new();
        std::mem::swap(&mut entries, &mut self.entries);
        match at {
            Some(i) => {
                proof {
                    lemma_lookup(entries@, k@, i as int);
                    lemma_replace(entries@, i as int, k, v);
                }
                let before = Ghost(entries@);
                entries.push((k, v));
                let old_entry = entries.swap_remove(i);
                proof {
                    assert(entries@ =~= before@.update(i as int, (k, v)));
                }
                self.entries = entries;
                proof {
                    assert(self.keys() =~= old(self).keys());
                }
                Some(old_entry.1)
            },
            None => {
                proof {
                    lemma_push(entries@, k, v);
                }
                entries.push((k, v));
                self.entries = entries;
                proof {
                    assert(self.keys() =~= old(self).keys().push(k@));
                }
                None
            },
        }
    }

    /// Takes the value under `k` out of the map.
    pub fn remove(&mut self, k: &str) -> (r: Option<V>)
        ensures
            final(self)@ == old(self)@.remove(k@),
            match r {
                Some(w) => old(self)@.dom().contains(k@) && w == old(self)@[k@],
                None => !old(self)@.dom().contains(k@),
            },
    {
        proof {
            use_type_invariant(&*self);
        }
        let at = self.find(k);
        match at {
            Some(i) => {
                let mut entries: Vec<(String, V)> = Vec::new();
                std::mem::swap(&mut entries, &mut self.entries);
                proof {
                    lemma_lookup(entries@, k@, i as int);
                    lemma_remove(entries@, i as int, k@);
                }
                let gone = entries.remove(i);
                self.entries = entries;
                Some(gone.1)
            },
            None => {
                proof {
                    assert(self@.remove(k@) =~= self@);
                }
                None
            },
        }
    }

    /// Number of keys. Its contract also says how the keys and the map hang together.
    pub fn len(&self) -> (r: usize)
        ensures
            r == self.keys().len(),
            self.keys().no_duplicates(),
            self@.dom() =~= self.keys().to_set(),
            forall|k: Seq<char>| #[trigger] self.keys().contains(k) <==> self@.dom().contains(k),
    {
        proof {
            use_type_invariant(self);
            assert forall|k: Seq<char>| #[trigger] self.keys().contains(k) <==> self@.dom().contains(k) by {
                if self.keys().contains(k) {
                    let i = choose|i: int| 0 <= i < self.keys().len() && self.keys()[i] == k;
                    assert(key_at(self.entries@, k, i));
                }
                if self@.dom().contains(k) {
                    let i = choose|i: int| key_at(self.entries@, k, i);
                    assert(key_at(self.entries@, k, i));
                    assert(self.keys()[i] == k);
                }
            }
            assert forall|i: int, j: int|
                0 <= i < self.keys().len() && 0 <= j < self.keys().len() && i != j implies self.keys()[i]
                != self.keys()[j] by {
                assert(self.entries@[i].0@ == self.keys()[i]);
                assert(self.entries@[j].0@ == self.keys()[j]);
            }
        }
        self.entries.len()
    }

    /// Whether the map has no key.
    pub fn is_empty(&self) -> (r: bool)
        ensures
            r == (self@.dom() =~= Set::<Seq<char>>::empty()),
            r == (self.keys().len() == 0),
    {
        let n = self.len();
        proof {
            if n > 0 {
                assert(self.keys().contains(self.keys()[0]));
                assert(self@.dom().contains(self.keys()[0]));
            } else {
                assert forall|k: Seq<char>| !self@.dom().contains(k) by {
                    if self@.dom().contains(k) {
                        assert(self.keys().contains(k));
                    }
                }
                assert(self@.dom() =~= Set::<Seq<char>>::empty());
            }
        }
        n == 0
    }

    /// The `i`-th key.
    pub fn key(&self, i: usize) -> (r: &String)
        requires
            i < self.keys().len(),
        ensures
            r@ == self.keys()[i as int],
            self@.dom().contains(r@),
    {
        proof {
            assert(key_at(self.entries@, self.entries@[i as int].0@, i as int));
        }
        &self.entries[i].0
    }

    /// The value under the `i`-th key.
    pub fn value(&self, i: usize) -> (r: &V)
        requires
            i < self.keys().len(),
        ensures
            self@.dom().contains(self.keys()[i as int]),
            *r == self@[self.keys()[i as int]],
    {
        proof {
            use_type_invariant(self);
            lemma_lookup(self.entries@, self.keys()[i as int], i as int);
        }
        &self.entries[i].1
    }
}

impl<V> Default for StrMap<V> {
    fn default() -> (r: Self)
        ensures
            r@ == Map::<Seq<char>, V>::empty(),
            r.keys() == Seq::<Seq<char>>::empty(),
    {
        StrMap::new()
    }
}

} // verus!
