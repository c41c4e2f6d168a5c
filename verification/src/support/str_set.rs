//! A set of texts that keeps its members in the order of insertion.
use super::text::string_is;
use vstd::prelude::*;

verus! {

/// Set of texts.
#[derive(Debug)]
pub struct StrSet {
    items: Vec<String>,
}

spec fn holds(items: Seq<String>, k: Seq<char>) -> bool {
    exists|i: int| 0 <= i < items.len() && #[trigger] items[i]@ == k
}

impl View for StrSet {
    type V = Set<Seq<char>>;

    closed spec fn view(&self) -> Set<Seq<char>> {
        Set::new(|k: Seq<char>| holds(self.items@, k))
    }
}

impl StrSet {
    #[verifier::type_invariant]
    spec fn inv(self) -> bool {
        forall|i: int, j: int|
            0 <= i < self.items@.len() && 0 <= j < self.items@.len() && #[trigger] self.items@[i]@
                == #[trigger] self.items@[j]@ ==> i == j
    }

    /// The members, in the order of insertion.
    pub closed spec fn members(&self) -> Seq<Seq<char>> {
        Seq::new(self.items@.len(), |i: int| self.items@[i]@)
    }

    /// The empty set.
    pub fn new() -> (r: Self)
        ensures
            r@ == Set::<Seq<char>>::empty(),
            r.members() == Seq::<Seq<char>>::empty(),
    {
        let r = StrSet { items: Vec::new() };
        proof {
            assert(r@ =~= Set::<Seq<char>>::empty());
        }
        r
    }

    /// Whether `k` is a member.
    pub fn contains(&self, k: &str) -> (r: bool)
        ensures
            r == self@.contains(k@),
    {
        let mut i: usize = 0;
        while i < self.items.len()
            invariant
                0 <= i <= self.items@.len(),
                forall|j: int| 0 <= j < i ==> #[trigger] self.items@[j]@ != k@,
            decreases self.items@.len() - i,
        {
            if string_is(&self.items[i], k) {
                return true;
            }
            i += 1;
        }
        false
    }

    /// Adds `k`; says whether it was new.
    pub fn insert(&mut self, k: String) -> (r: bool)
        ensures
            final(self)@ == old(self)@.insert(k@),
            r == !old(self)@.contains(k@),
            final(self).members() == (if r {
                old(self).members().push(k@)
            } else {
                old(self).members()
            }),
    {
        if self.contains(k.as_str()) {
            proof {
                assert(self@.insert(k@) =~= self@);
            }
            return false;
        }
        proof {
            use_type_invariant(&*self);
        }
        let mut items: Vec<String> = Vec::new();
        std::mem::swap(&mut items, &mut self.items);
        let before = Ghost(items@);
        items.push(k);
        proof {
            assert forall|q: Seq<char>| holds(items@, q) == (holds(before@, q) || q == k@) by {
                if holds(before@, q) {
                    let i = choose|i: int| 0 <= i < before@.len() && #[trigger] before@[i]@ == q;
                    assert(items@[i]@ == q);
                }
                if q == k@ {
                    assert(items@[before@.len() as int]@ == q);
                }
                if holds(items@, q) {
                    let i = choose|i: int| 0 <= i < items@.len() && #[trigger] items@[i]@ == q;
                    if i < before@.len() {
                        assert(before@[i]@ == q);
                    }
                }
            }
        }
        self.items = items;
        proof {
            assert(self@ =~= old(self)@.insert(k@));
            assert(self.members() =~= old(self).members().push(k@));
        }
        true
    }

    /// Number of members. Its contract also says how the members and the set hang together.
    pub fn len(&self) -> (r: usize)
        ensures
            r == self.members().len(),
            self.members().no_duplicates(),
            self@ =~= self.members().to_set(),
            forall|k: Seq<char>| #[trigger] self.members().contains(k) <==> self@.contains(k),
    {
        proof {
            use_type_invariant(self);
            assert forall|k: Seq<char>| #[trigger] self.members().contains(k) <==> self@.contains(k) by {
                if self.members().contains(k) {
                    let i = choose|i: int| 0 <= i < self.members().len() && self.members()[i] == k;
                    assert(self.items@[i]@ == k);
                }
                if self@.contains(k) {
                    let i = choose|i: int| 0 <= i < self.items@.len() && #[trigger] self.items@[i]@ == k;
                    assert(self.members()[i] == k);
                }
            }
            assert forall|i: int, j: int|
                0 <= i < self.members().len() && 0 <= j < self.members().len() && i
                    != j implies self.members()[i] != self.members()[j] by {
                assert(self.items@[i]@ == self.members()[i]);
                assert(self.items@[j]@ == self.members()[j]);
            }
        }
        self.items.len()
    }

    /// Whether the set has no member.
    pub fn is_empty(&self) -> (r: bool)
        ensures
            r == (self@ =~= Set::<Seq<char>>::empty()),
            r == (self.members().len() == 0),
    {
        let n = self.len();
        proof {
            if n > 0 {
                assert(self.members().contains(self.members()[0]));
                assert(self@.contains(self.members()[0]));
            } else {
                assert forall|k: Seq<char>| !self@.contains(k) by {
                    if self@.contains(k) {
                        assert(self.members().contains(k));
                    }
                }
                assert(self@ =~= Set::<Seq<char>>::empty());
            }
        }
        n == 0
    }

    /// The `i`-th member.
    pub fn item(&self, i: usize) -> (r: &String)
        requires
            i < self.members().len(),
        ensures
            r@ == self.members()[i as int],
            self@.contains(r@),
    {
        proof {
            assert(self.items@[i as int]@ == self.members()[i as int]);
        }
        &self.items[i]
    }
}

impl Default for StrSet {
    fn default() -> (r: Self)
        ensures
            r@ == Set::<Seq<char>>::empty(),
            r.members() == Seq::<Seq<char>>::empty(),
    {
        StrSet::new()
    }
}

impl Clone for StrSet {
    fn clone(&self) -> (r: Self)
        ensures
            r@ == self@,
            r.members() == self.members(),
    {
        let mut out = StrSet::new();
        let n = self.len();
        let mut i: usize = 0;
        while i < n
            invariant
                0 <= i <= n,
                n == self.members().len(),
                self.members().no_duplicates(),
                out.members() == self.members().take(i as int),
                forall|k: Seq<char>| #[trigger] out@.contains(k) <==> self.members().take(i as int).contains(k),
            decreases n - i,
        {
            let item = self.item(i).clone();
            proof {
                if out@.contains(item@) {
                    assert(self.members().take(i as int).contains(item@));
                    let j = choose|j: int| 0 <= j < i && self.members().take(i as int)[j] == item@;
                    assert(self.members()[j] == self.members()[i as int]);
                }
                assert(self.members().take(i + 1) =~= self.members().take(i as int).push(item@));
                assert forall|k: Seq<char>| #[trigger]
                    self.members().take(i + 1).contains(k) <==> (self.members().take(i as int).contains(k)
                    || k == item@) by {
                    if self.members().take(i as int).contains(k) {
                        let j = choose|j: int| 0 <= j < i && self.members().take(i as int)[j] == k;
                        assert(self.members().take(i + 1)[j] == k);
                    }
                    if k == item@ {
                        assert(self.members().take(i + 1)[i as int] == k);
                    }
                }
            }
            out.insert(item);
            i += 1;
        }
        let m = self.len();
        proof {
            assert(self.members().take(n as int) =~= self.members());
            assert(out@ =~= self@);
        }
        out
    }
}

} // verus!
