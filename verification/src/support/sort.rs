//! A stable sort for any strict weak order.
use super::bytes::{
    bytes_less, lemma_lex_irreflexive, lemma_lex_total, lemma_lex_transitive, lex_less,
};
use super::text::texts;
use vstd::prelude::*;
use vstd::utf8::encode_utf8;

verus! {

/// Whether `lt` is a strict weak order: irreflexive, transitive, and with transitive
/// incomparability.
pub open spec fn strict_weak_order<T>(lt: spec_fn(T, T) -> bool) -> bool {
    &&& forall|a: T| !#[trigger] lt(a, a)
    &&& forall|a: T, b: T, c: T| #[trigger] lt(a, b) && #[trigger] lt(b, c) ==> lt(a, c)
    &&& forall|a: T, b: T, c: T|
        !#[trigger] lt(a, b) && !#[trigger] lt(b, c) ==> !lt(a, c)
}

/// Whether `r` is `s` rearranged by `p` into ascending order, with equals left in the order
/// in which they stood: `r[i]` is `s[p[i]]`, and `p` takes every position once.
pub open spec fn stable_order<T>(s: Seq<T>, r: Seq<T>, p: Seq<int>, lt: spec_fn(T, T) -> bool) -> bool {
    &&& p.len() == s.len()
    &&& r.len() == s.len()
    &&& p.no_duplicates()
    &&& forall|i: int| 0 <= i < p.len() ==> 0 <= #[trigger] p[i] < s.len()
    &&& forall|m: int| 0 <= m < s.len() ==> #[trigger] p.contains(m)
    &&& forall|i: int| 0 <= i < r.len() ==> #[trigger] r[i] == s[p[i]]
    &&& forall|i: int, j: int|
        #![trigger r[i], r[j]]
        0 <= i < j < r.len() ==> !lt(r[j], r[i]) && (lt(r[i], r[j]) || p[i] < p[j])
}

/// Whether `r` is `s` sorted stably by `lt`.
pub open spec fn stably_sorted<T>(s: Seq<T>, r: Seq<T>, lt: spec_fn(T, T) -> bool) -> bool {
    exists|p: Seq<int>| stable_order(s, r, p, lt)
}

/// `s` sorted stably by `lt`.
pub open spec fn arranged<T>(s: Seq<T>, lt: spec_fn(T, T) -> bool) -> Seq<T> {
    choose|r: Seq<T>| stably_sorted(s, r, lt)
}

/// There is one stable arrangement.
pub proof fn lemma_arranged<T>(s: Seq<T>, r: Seq<T>, lt: spec_fn(T, T) -> bool)
    requires
        strict_weak_order(lt),
        stably_sorted(s, r, lt),
    ensures
        arranged(s, lt) == r,
{
    let c = arranged(s, lt);
    assert(stably_sorted(s, c, lt));
    let p = choose|p: Seq<int>| stable_order(s, r, p, lt);
    let q = choose|q: Seq<int>| stable_order(s, c, q, lt);
    let leq = |x: int, y: int| !lt(s[y], s[x]) && (lt(s[x], s[y]) || x <= y);
    assert(vstd::relations::total_ordering(leq)) by {
        assert forall|x: int| #[trigger] leq(x, x) by {}
        assert forall|x: int, y: int| #[trigger] leq(x, y) && #[trigger] leq(y, x) implies x == y by {}
        assert forall|x: int, y: int, z: int| #[trigger] leq(x, y) && #[trigger] leq(y, z) implies leq(x, z) by {
            if lt(s[z], s[x]) {
                if lt(s[x], s[y]) {
                    assert(lt(s[z], s[y]));
                } else {
                    assert(!lt(s[z], s[y]) && !lt(s[y], s[x]));
                }
            }
            if !lt(s[x], s[z]) && x > z {
                if lt(s[x], s[y]) {
                    assert(!lt(s[x], s[z]) && !lt(s[z], s[y]));
                } else {
                    assert(lt(s[y], s[z]));
                    assert(!lt(s[y], s[x]) && !lt(s[x], s[z]));
                }
            }
        }
        assert forall|x: int, y: int| #[trigger] leq(x, y) || #[trigger] leq(y, x) by {
            assert(!(lt(s[x], s[y]) && lt(s[y], s[x])));
        }
    }
    assert(vstd::relations::sorted_by(p, leq)) by {
        assert forall|i: int, j: int| 0 <= i < j < p.len() implies #[trigger] leq(p[i], p[j]) by {
            assert(r[i] == s[p[i]] && r[j] == s[p[j]]);
        }
    }
    assert(vstd::relations::sorted_by(q, leq)) by {
        assert forall|i: int, j: int| 0 <= i < j < q.len() implies #[trigger] leq(q[i], q[j]) by {
            assert(c[i] == s[q[i]] && c[j] == s[q[j]]);
        }
    }
    lemma_same_positions(p, q, s.len());
    vstd::seq_lib::lemma_sorted_unique(p, q, leq);
    assert(r =~= c) by {
        assert forall|i: int| 0 <= i < r.len() implies r[i] == c[i] by {
            assert(r[i] == s[p[i]] && c[i] == s[q[i]]);
        }
    }
}

proof fn lemma_same_positions(p: Seq<int>, q: Seq<int>, n: nat)
    requires
        p.no_duplicates(),
        q.no_duplicates(),
        forall|i: int| 0 <= i < p.len() ==> 0 <= #[trigger] p[i] < n,
        forall|i: int| 0 <= i < q.len() ==> 0 <= #[trigger] q[i] < n,
        forall|m: int| 0 <= m < n ==> #[trigger] p.contains(m),
        forall|m: int| 0 <= m < n ==> #[trigger] q.contains(m),
    ensures
        p.to_multiset() == q.to_multiset(),
{
    broadcast use vstd::seq_lib::group_to_multiset_ensures;
    p.lemma_multiset_has_no_duplicates();
    q.lemma_multiset_has_no_duplicates();
    assert forall|m: int| p.to_multiset().count(m) == q.to_multiset().count(m) by {
        if 0 <= m < n {
            assert(p.contains(m) && q.contains(m));
            assert(p.to_multiset().contains(m) && q.to_multiset().contains(m));
        } else {
            assert(!p.contains(m) && !q.contains(m));
        }
    }
    assert(p.to_multiset() =~= q.to_multiset());
}

proof fn lemma_picked_rearranged<T>(s: Seq<T>, x: Seq<int>, y: Seq<int>)
    requires
        x.to_multiset() == y.to_multiset(),
    ensures
        x.map_values(|m: int| s[m]).to_multiset() == y.map_values(|m: int| s[m]).to_multiset(),
    decreases x.len(),
{
    broadcast use vstd::seq_lib::group_to_multiset_ensures;
    broadcast use vstd::multiset::group_multiset_axioms;

    let f = |m: int| s[m];
    assert(x.to_multiset().len() == x.len() && y.to_multiset().len() == y.len());
    assert(x.len() == y.len());
    let a = x.map_values(f);
    let b = y.map_values(f);
    if x.len() > 0 {
        let v = x.last();
        let k = x.len() - 1;
        assert(x.contains(v));
        assert(y.to_multiset().count(v) > 0);
        assert(y.contains(v));
        let j = y.index_of(v);
        vstd::seq_lib::to_multiset_remove(x, k);
        vstd::seq_lib::to_multiset_remove(y, j);
        lemma_picked_rearranged(s, x.remove(k), y.remove(j));
        assert(a.remove(k) =~= x.remove(k).map_values(f));
        assert(b.remove(j) =~= y.remove(j).map_values(f));
        vstd::seq_lib::to_multiset_remove(a, k);
        vstd::seq_lib::to_multiset_remove(b, j);
        assert(a.contains(a[k]));
        assert(b.contains(b[j]));
        assert(a[k] == b[j]);
        assert(a.to_multiset() =~= a.to_multiset().remove(a[k]).insert(a[k]));
        assert(b.to_multiset() =~= b.to_multiset().remove(b[j]).insert(b[j]));
    } else {
        assert(a =~= b);
    }
}

/// A sorted sequence holds everything as often as the unsorted one.
pub proof fn lemma_sorted_same_multiset<T>(s: Seq<T>, r: Seq<T>, lt: spec_fn(T, T) -> bool)
    requires
        stably_sorted(s, r, lt),
    ensures
        r.to_multiset() == s.to_multiset(),
{
    let p = choose|p: Seq<int>| stable_order(s, r, p, lt);
    let q = Seq::new(s.len(), |i: int| i);
    assert forall|m: int| 0 <= m < s.len() implies #[trigger] q.contains(m) by {
        assert(q[m] == m);
    }
    lemma_same_positions(p, q, s.len());
    lemma_picked_rearranged(s, p, q);
    assert(r =~= p.map_values(|m: int| s[m]));
    assert(s =~= q.map_values(|m: int| s[m]));
}

/// A sorted sequence holds what the unsorted one held.
pub proof fn lemma_sorted_same_members<T>(s: Seq<T>, r: Seq<T>, lt: spec_fn(T, T) -> bool)
    requires
        stably_sorted(s, r, lt),
    ensures
        r.len() == s.len(),
        forall|x: T| #[trigger] r.contains(x) <==> s.contains(x),
        forall|i: int| 0 <= i < r.len() ==> s.contains(#[trigger] r[i]),
        forall|i: int| 0 <= i < s.len() ==> r.contains(#[trigger] s[i]),
{
    let p = choose|p: Seq<int>| stable_order(s, r, p, lt);
    assert forall|x: T| #[trigger] r.contains(x) <==> s.contains(x) by {
        if r.contains(x) {
            let i = choose|i: int| 0 <= i < r.len() && r[i] == x;
            assert(s[p[i]] == x);
        }
        if s.contains(x) {
            let m = choose|m: int| 0 <= m < s.len() && s[m] == x;
            assert(p.contains(m));
            let i = choose|i: int| 0 <= i < p.len() && p[i] == m;
            assert(r[i] == x);
        }
    }
    assert forall|i: int| 0 <= i < r.len() implies s.contains(#[trigger] r[i]) by {
        assert(r.contains(r[i]));
    }
    assert forall|i: int| 0 <= i < s.len() implies r.contains(#[trigger] s[i]) by {
        assert(s.contains(s[i]));
    }
}

/// The state while the tail of `s` from `k` on is sorted into `r`.
spec fn tail_sorted<T>(s: Seq<T>, k: int, r: Seq<T>, p: Seq<int>, lt: spec_fn(T, T) -> bool) -> bool {
    &&& 0 <= k <= s.len()
    &&& p.len() == s.len() - k
    &&& r.len() == p.len()
    &&& p.no_duplicates()
    &&& forall|i: int| 0 <= i < p.len() ==> k <= #[trigger] p[i] < s.len()
    &&& forall|m: int| k <= m < s.len() ==> #[trigger] p.contains(m)
    &&& forall|i: int| 0 <= i < r.len() ==> #[trigger] r[i] == s[p[i]]
    &&& forall|i: int, j: int|
        #![trigger r[i], r[j]]
        0 <= i < j < r.len() ==> !lt(r[j], r[i]) && (lt(r[i], r[j]) || p[i] < p[j])
}

proof fn lemma_insert<T>(
    s: Seq<T>,
    k: int,
    r: Seq<T>,
    p: Seq<int>,
    at: int,
    lt: spec_fn(T, T) -> bool,
)
    requires
        strict_weak_order(lt),
        tail_sorted(s, k + 1, r, p, lt),
        0 <= k,
        0 <= at <= r.len(),
        forall|i: int| 0 <= i < at ==> lt(#[trigger] r[i], s[k]),
        forall|i: int| at <= i < r.len() ==> !lt(#[trigger] r[i], s[k]),
    ensures
        tail_sorted(s, k, r.insert(at, s[k]), p.insert(at, k), lt),
{
    let r2 = r.insert(at, s[k]);
    let p2 = p.insert(at, k);
    assert forall|i: int, j: int| 0 <= i < p2.len() && 0 <= j < p2.len() && i != j implies p2[i] != p2[j] by {
        let i2 = if i < at { i } else { i - 1 };
        let j2 = if j < at { j } else { j - 1 };
        if i != at && j != at {
            assert(p[i2] != p[j2]);
        } else if i == at {
            assert(p[j2] >= k + 1);
        } else {
            assert(p[i2] >= k + 1);
        }
    }
    assert forall|i: int| 0 <= i < p2.len() implies k <= #[trigger] p2[i] < s.len() by {
        if i < at {
            assert(p2[i] == p[i]);
        } else if i > at {
            assert(p2[i] == p[i - 1]);
        }
    }
    assert forall|m: int| k <= m < s.len() implies #[trigger] p2.contains(m) by {
        if m == k {
            assert(p2[at] == m);
        } else {
            assert(p.contains(m));
            let i = choose|i: int| 0 <= i < p.len() && p[i] == m;
            if i < at {
                assert(p2[i] == m);
            } else {
                assert(p2[i + 1] == m);
            }
        }
    }
    assert forall|i: int| 0 <= i < r2.len() implies #[trigger] r2[i] == s[p2[i]] by {
        if i < at {
            assert(r2[i] == r[i]);
        } else if i > at {
            assert(r2[i] == r[i - 1]);
        }
    }
    assert forall|i: int, j: int|
        #![trigger r2[i], r2[j]]
        0 <= i < j < r2.len() implies !lt(r2[j], r2[i]) && (lt(r2[i], r2[j]) || p2[i] < p2[j]) by {
        let i2 = if i < at { i } else { i - 1 };
        let j2 = if j < at { j } else { j - 1 };
        if i != at && j != at {
            assert(r2[i] == r[i2] && r2[j] == r[j2]);
        } else if j == at {
            assert(r2[i] == r[i]);
            assert(lt(r[i], s[k]));
            if lt(s[k], r[i]) {
                assert(lt(r[i], r[i]));
            }
        } else {
            assert(r2[j] == r[j - 1]);
            assert(!lt(r[j - 1], s[k]));
            assert(p2[j] == p[j - 1]);
        }
    }
}

/// How many elements at the front of a sorted sequence stand before `x`.
spec fn rank<T>(r: Seq<T>, x: T, lt: spec_fn(T, T) -> bool, n: int) -> int
    decreases n,
{
    if n <= 0 {
        0
    } else if lt(r[n - 1], x) {
        n
    } else {
        rank(r, x, lt, n - 1)
    }
}

proof fn lemma_rank<T>(r: Seq<T>, x: T, lt: spec_fn(T, T) -> bool, n: int)
    requires
        strict_weak_order(lt),
        0 <= n <= r.len(),
        forall|i: int, j: int|
            #![trigger r[i], r[j]]
            0 <= i < j < r.len() ==> !lt(r[j], r[i]),
    ensures
        0 <= rank(r, x, lt, n) <= n,
        forall|i: int| 0 <= i < rank(r, x, lt, n) ==> lt(#[trigger] r[i], x),
        forall|i: int| rank(r, x, lt, n) <= i < n ==> !lt(#[trigger] r[i], x),
    decreases n,
{
    if n > 0 {
        if lt(r[n - 1], x) {
            assert forall|i: int| 0 <= i < n implies lt(#[trigger] r[i], x) by {
                if !lt(r[i], x) {
                    if i < n - 1 {
                        assert(!lt(r[n - 1], r[i]));
                        assert(!lt(r[n - 1], x));
                    }
                }
            }
        } else {
            lemma_rank(r, x, lt, n - 1);
        }
    }
}

proof fn lemma_tail_sortable<T>(s: Seq<T>, k: int, lt: spec_fn(T, T) -> bool) -> (w: (Seq<T>, Seq<int>))
    requires
        strict_weak_order(lt),
        0 <= k <= s.len(),
    ensures
        tail_sorted(s, k, w.0, w.1, lt),
    decreases s.len() - k,
{
    if k == s.len() {
        (Seq::empty(), Seq::empty())
    } else {
        let (r, p) = lemma_tail_sortable(s, k + 1, lt);
        lemma_rank(r, s[k], lt, r.len() as int);
        let at = rank(r, s[k], lt, r.len() as int);
        lemma_insert(s, k, r, p, at, lt);
        (r.insert(at, s[k]), p.insert(at, k))
    }
}

/// Every sequence can be arranged.
pub proof fn lemma_arrangement_exists<T>(s: Seq<T>, lt: spec_fn(T, T) -> bool)
    requires
        strict_weak_order(lt),
    ensures
        stably_sorted(s, arranged(s, lt), lt),
{
    let (r, p) = lemma_tail_sortable(s, 0, lt);
    assert(stable_order(s, r, p, lt));
    assert(stably_sorted(s, r, lt));
}

/// Sorts `v` stably. `less` decides the strict weak order `lt`.
pub(crate) fn stable_sort<T, F: Fn(&T, &T) -> bool>(
    v: Vec<T>,
    less: F,
    Ghost(lt): Ghost<spec_fn(T, T) -> bool>,
) -> (r: Vec<T>)
    requires
        strict_weak_order(lt),
        forall|a: &T, b: &T| call_requires(less, (a, b)),
        forall|a: &T, b: &T, o: bool| call_ensures(less, (a, b), o) ==> o == lt(*a, *b),
    ensures
        stably_sorted(v@, r@, lt),
        r@.to_multiset() == v@.to_multiset(),
{
    broadcast use vstd::seq_lib::group_to_multiset_ensures;
    broadcast use vstd::multiset::group_multiset_axioms;

    let mut rest = v;
    let mut out: Vec<T> = Vec::new();
    let ghost s = v@;
    let ghost mut p: Seq<int> = Seq::empty();
    proof {
        assert(rest@ =~= s.take(rest@.len() as int));
        assert(out@.to_multiset().add(rest@.to_multiset()) =~= s.to_multiset());
    }
    while rest.len() > 0
        invariant
            out@.to_multiset().add(rest@.to_multiset()) == s.to_multiset(),
            strict_weak_order(lt),
            forall|a: &T, b: &T| call_requires(less, (a, b)),
            forall|a: &T, b: &T, o: bool| call_ensures(less, (a, b), o) ==> o == lt(*a, *b),
            rest@ == s.take(rest@.len() as int),
            rest@.len() <= s.len(),
            tail_sorted(s, rest@.len() as int, out@, p, lt),
        decreases rest@.len(),
    {
        let ghost k = rest@.len() - 1;
        let ghost before = rest@;
        let x = match rest.pop() {
            Some(x) => x,
            None => {
                return out;
            },
        };
        proof {
            assert(x == s[k]);
            assert(before =~= rest@.push(x));
            vstd::seq_lib::to_multiset_build(rest@, x);
            assert(rest@ =~= s.take(k));
            assert(out@.to_multiset().add(rest@.to_multiset()).insert(x) =~= s.to_multiset());
        }
        let mut lo: usize = 0;
        let mut hi: usize = out.len();
        while lo < hi
            invariant
                strict_weak_order(lt),
                forall|a: &T, b: &T| call_requires(less, (a, b)),
                forall|a: &T, b: &T, o: bool| call_ensures(less, (a, b), o) ==> o == lt(*a, *b),
                0 <= lo <= hi <= out@.len(),
                tail_sorted(s, k + 1, out@, p, lt),
                forall|i: int| 0 <= i < lo ==> lt(#[trigger] out@[i], x),
                forall|i: int| hi <= i < out@.len() ==> !lt(#[trigger] out@[i], x),
            decreases hi - lo,
        {
            let mid: usize = lo + (hi - lo) / 2;
            if less(&out[mid], &x) {
                proof {
                    assert forall|i: int| 0 <= i < mid + 1 implies lt(#[trigger] out@[i], x) by {
                        if i < mid {
                            assert(!lt(out@[mid as int], out@[i]));
                            if !lt(out@[i], x) {
                                assert(!lt(out@[mid as int], x));
                            }
                        }
                    }
                }
                lo = mid + 1;
            } else {
                proof {
                    assert forall|i: int| mid <= i < out@.len() implies !lt(#[trigger] out@[i], x) by {
                        if i > mid {
                            assert(!lt(out@[i], out@[mid as int]));
                        }
                    }
                }
                hi = mid;
            }
        }
        proof {
            lemma_insert(s, k, out@, p, lo as int, lt);
            p = p.insert(lo as int, k);
            vstd::seq_lib::to_multiset_insert(out@, lo as int, x);
            assert(out@.insert(lo as int, x).to_multiset().add(rest@.to_multiset()) =~= s.to_multiset());
        }
        out.insert(lo, x);
    }
    proof {
        assert(stable_order(s, out@, p, lt));
        assert(out@.to_multiset().add(rest@.to_multiset()) =~= out@.to_multiset());
    }
    out
}

/// Alphabetical order of texts: dictionary order of their UTF-8 bytes.
pub open spec fn text_less(a: Seq<char>, b: Seq<char>) -> bool {
    lex_less(encode_utf8(a), encode_utf8(b))
}

/// Whether `a` stands before `b` alphabetically.
pub fn str_less(a: &str, b: &str) -> (r: bool)
    ensures
        r == text_less(a@, b@),
{
    bytes_less(a.as_bytes(), b.as_bytes())
}

/// Of two texts one stands before the other unless they are equal.
pub proof fn lemma_text_total(a: Seq<char>, b: Seq<char>)
    ensures
        text_less(a, b) || a == b || text_less(b, a),
        !(text_less(a, b) && text_less(b, a)),
{
    lemma_lex_total(encode_utf8(a), encode_utf8(b));
    vstd::utf8::encode_utf8_decode_utf8(a);
    vstd::utf8::encode_utf8_decode_utf8(b);
}

/// Whether texts stand in alphabetical order.
pub open spec fn in_order(s: Seq<Seq<char>>) -> bool {
    forall|i: int, j: int| 0 <= i < j < s.len() ==> !text_less(#[trigger] s[j], #[trigger] s[i])
}

/// The texts of `s` in alphabetical order.
pub open spec fn alphabetical(s: Seq<Seq<char>>) -> Seq<Seq<char>> {
    choose|r: Seq<Seq<char>>| in_order(r) && r.to_multiset() == s.to_multiset()
}

/// There is one alphabetical order.
pub proof fn lemma_alphabetical(s: Seq<Seq<char>>, r: Seq<Seq<char>>)
    requires
        in_order(r),
        r.to_multiset() == s.to_multiset(),
    ensures
        alphabetical(s) == r,
{
    let leq = |a: Seq<char>, b: Seq<char>| !text_less(b, a);
    let c = alphabetical(s);
    assert(in_order(c) && c.to_multiset() == s.to_multiset());
    assert(vstd::relations::total_ordering(leq)) by {
        assert forall|a: Seq<char>| #[trigger] leq(a, a) by {
            lemma_text_total(a, a);
        }
        assert forall|a: Seq<char>, b: Seq<char>| #[trigger] leq(a, b) && #[trigger] leq(b, a) implies a == b by {
            lemma_text_total(a, b);
        }
        lemma_lex_is_order();
        assert forall|a: Seq<char>, b: Seq<char>, d: Seq<char>|
            #[trigger] leq(a, b) && #[trigger] leq(b, d) implies leq(a, d) by {}
        assert forall|a: Seq<char>, b: Seq<char>| #[trigger] leq(a, b) || #[trigger] leq(b, a) by {
            lemma_text_total(a, b);
        }
    }
    assert(vstd::relations::sorted_by(r, leq));
    assert(vstd::relations::sorted_by(c, leq));
    vstd::seq_lib::lemma_sorted_unique(c, r, leq);
}

/// Sorts strings; the result is determined by the texts.
pub fn sort_texts(v: Vec<String>) -> (r: Vec<String>)
    ensures
        texts(r@) == alphabetical(texts(v@)),
        texts(r@).to_multiset() == texts(v@).to_multiset(),
        in_order(texts(r@)),
        r@.len() == v@.len(),
{
    let ghost before = v@;
    let r = sort_strings(v);
    proof {
        let lt = |a: String, b: String| text_less(a@, b@);
        let p = choose|p: Seq<int>| stable_order(before, r@, p, lt);
        lemma_texts_multiset(before, r@);
        assert forall|i: int, j: int| 0 <= i < j < r@.len() implies !text_less(
            #[trigger] texts(r@)[j],
            #[trigger] texts(r@)[i],
        ) by {
            assert(!lt(r@[j], r@[i]));
        }
        lemma_alphabetical(texts(before), texts(r@));
    }
    r
}

proof fn lemma_texts_multiset(a: Seq<String>, b: Seq<String>)
    requires
        a.to_multiset() == b.to_multiset(),
    ensures
        texts(a).to_multiset() == texts(b).to_multiset(),
    decreases a.len(),
{
    broadcast use vstd::seq_lib::group_to_multiset_ensures;
    if a.len() == 0 {
        assert(b.len() == 0) by {
            if b.len() > 0 {
                assert(b.to_multiset().contains(b[0]));
            }
        }
        assert(texts(a) =~= texts(b));
    } else {
        let x = a.last();
        assert(a.to_multiset().contains(x));
        let k = b.index_of(x);
        assert(b.contains(x));
        let rest = b.remove(k);
        assert(a.drop_last().to_multiset() =~= rest.to_multiset()) by {
            assert(a =~= a.drop_last().push(x));
            vstd::seq_lib::to_multiset_build(a.drop_last(), x);
            vstd::seq_lib::to_multiset_remove(b, k);
            assert(a.to_multiset() == a.drop_last().to_multiset().insert(x));
            assert(rest.to_multiset() == b.to_multiset().remove(x));
            assert(a.to_multiset().remove(x) =~= a.drop_last().to_multiset());
        }
        lemma_texts_multiset(a.drop_last(), rest);
        assert(texts(a) =~= texts(a.drop_last()).push(x@));
        assert(texts(rest) =~= texts(b).remove(k));
        vstd::seq_lib::to_multiset_build(texts(a.drop_last()), x@);
        vstd::seq_lib::to_multiset_remove(texts(b), k);
        assert(texts(b)[k] == x@);
        assert(texts(b).to_multiset().contains(x@)) by {
            assert(texts(b).contains(x@));
        }
        assert(texts(b).to_multiset() =~= texts(rest).to_multiset().insert(x@));
    }
}

/// Dictionary order on byte strings is a strict weak order.
pub proof fn lemma_lex_is_order()
    ensures
        strict_weak_order(|a: Seq<u8>, b: Seq<u8>| lex_less(a, b)),
        forall|a: Seq<u8>| !#[trigger] lex_less(a, a),
        forall|a: Seq<u8>, b: Seq<u8>, c: Seq<u8>|
            #[trigger] lex_less(a, b) && #[trigger] lex_less(b, c) ==> lex_less(a, c),
        forall|a: Seq<u8>, b: Seq<u8>, c: Seq<u8>|
            !#[trigger] lex_less(a, b) && !#[trigger] lex_less(b, c) ==> !lex_less(a, c),
{
    assert forall|a: Seq<u8>| !#[trigger] lex_less(a, a) by {
        lemma_lex_irreflexive(a);
    }
    assert forall|a: Seq<u8>, b: Seq<u8>, c: Seq<u8>| #[trigger]
        lex_less(a, b) && #[trigger] lex_less(b, c) implies lex_less(a, c) by {
        lemma_lex_transitive(a, b, c);
    }
    assert forall|a: Seq<u8>, b: Seq<u8>, c: Seq<u8>|
        !#[trigger] lex_less(a, b) && !#[trigger] lex_less(b, c) implies !lex_less(a, c) by {
        if lex_less(a, c) {
            lemma_lex_total(a, b);
            lemma_lex_total(b, c);
            if lex_less(b, a) {
                lemma_lex_transitive(b, a, c);
            }
        }
    }
}

fn string_less(a: &String, b: &String) -> (r: bool)
    ensures
        r == text_less(a@, b@),
{
    str_less(a.as_str(), b.as_str())
}

fn signature_less(a: &[u8; 8], b: &[u8; 8]) -> (r: bool)
    ensures
        r == lex_less(a@, b@),
{
    bytes_less(a.as_slice(), b.as_slice())
}

/// Sorts texts alphabetically.
pub fn sort_strings(v: Vec<String>) -> (r: Vec<String>)
    ensures
        stably_sorted(v@, r@, |a: String, b: String| text_less(a@, b@)),
        r@.to_multiset() == v@.to_multiset(),
{
    let ghost lt = |a: String, b: String| text_less(a@, b@);
    proof {
        lemma_lex_is_order();
        assert(strict_weak_order(lt));
    }
    stable_sort(v, string_less, Ghost(lt))
}

/// Sorts signatures in dictionary order.
pub fn sort_signatures(v: Vec<[u8; 8]>) -> (r: Vec<[u8; 8]>)
    ensures
        stably_sorted(v@, r@, |a: [u8; 8], b: [u8; 8]| lex_less(a@, b@)),
{
    let ghost lt = |a: [u8; 8], b: [u8; 8]| lex_less(a@, b@);
    proof {
        lemma_lex_is_order();
        assert(strict_weak_order(lt));
    }
    stable_sort(v, signature_less, Ghost(lt))
}

} // verus!
