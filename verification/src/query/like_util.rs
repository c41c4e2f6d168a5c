//! SQL `LIKE`: matching, and patterns simple enough to be looked up.
use crate::support::text::{chars_of, has_char};
use vstd::prelude::*;
use vstd::string::StrSliceExecFns;

verus! {

/// Whether `value` matches `pattern`: `%` stands for any text, `_` for one character, any
/// other character for itself.
pub open spec fn like(value: Seq<char>, pattern: Seq<char>) -> bool
    decreases pattern.len(), value.len(),
{
    if pattern.len() == 0 {
        value.len() == 0
    } else if pattern.last() == '%' {
        like(value, pattern.drop_last()) || (value.len() > 0 && like(value.drop_last(), pattern))
    } else {
        value.len() > 0 && (pattern.last() == '_' || pattern.last() == value.last()) && like(
            value.drop_last(),
            pattern.drop_last(),
        )
    }
}

/// Whether `value` matches the `LIKE` pattern `pattern`.
pub fn like_matches(value: &str, pattern: &str) -> (r: bool)
    ensures
        r == like(value@, pattern@),
{
    let v = chars_of(value);
    let p = chars_of(pattern);
    let n: usize = v.len();
    let mut row: Vec<bool> = Vec::new();
    row.push(true);
    let mut k: usize = 0;
    while k < n
        invariant
            0 <= k <= n,
            n == v@.len(),
            row@.len() == k + 1,
            forall|j: int| 0 <= j <= k ==> #[trigger] row@[j] == like(v@.take(j), p@.take(0)),
        decreases n - k,
    {
        row.push(false);
        k += 1;
    }
    let mut i: usize = 0;
    while i < p.len()
        invariant
            0 <= i <= p@.len(),
            n == v@.len(),
            row@.len() == n + 1,
            forall|j: int| 0 <= j <= n ==> #[trigger] row@[j] == like(v@.take(j), p@.take(i as int)),
        decreases p@.len() - i,
    {
        let c = p[i];
        let mut next: Vec<bool> = Vec::new();
        next.push(c == '%' && row[0]);
        proof {
            assert(p@.take(i + 1).drop_last() =~= p@.take(i as int));
            assert(p@.take(i + 1).last() == c);
        }
        let mut j: usize = 0;
        while j < n
            invariant
                0 <= j <= n,
                n == v@.len(),
                i < p@.len(),
                c == p@[i as int],
                row@.len() == n + 1,
                forall|m: int| 0 <= m <= n ==> #[trigger] row@[m] == like(v@.take(m), p@.take(i as int)),
                next@.len() == j + 1,
                forall|m: int| 0 <= m <= j ==> #[trigger] next@[m] == like(v@.take(m), p@.take(i + 1)),
                p@.take(i + 1).drop_last() == p@.take(i as int),
                p@.take(i + 1).last() == c,
            decreases n - j,
        {
            proof {
                assert(v@.take(j + 1).drop_last() =~= v@.take(j as int));
                assert(row@[j as int] == like(v@.take(j as int), p@.take(i as int)));
                assert(row@[j + 1] == like(v@.take(j + 1), p@.take(i as int)));
                assert(next@[j as int] == like(v@.take(j as int), p@.take(i + 1)));
            }
            let cell = if c == '%' {
                row[j + 1] || next[j]
            } else if c == '_' {
                row[j]
            } else {
                row[j] && c == v[j]
            };
            next.push(cell);
            j += 1;
        }
        row = next;
        i += 1;
    }
    proof {
        assert(v@.take(n as int) =~= value@);
        assert(p@.take(p@.len() as int) =~= pattern@);
    }
    row[n]
}

/// A trailing `%` matches exactly what starts with a match of the rest.
pub proof fn law_percent_is_any_text(value: Seq<char>, pattern: Seq<char>)
    requires
        pattern.len() > 0,
        pattern.last() == '%',
    ensures
        like(value, pattern) <==> exists|k: int|
            0 <= k <= value.len() && #[trigger] like(value.take(k), pattern.drop_last()),
    decreases value.len(),
{
    if value.len() > 0 {
        law_percent_is_any_text(value.drop_last(), pattern);
        let shorter = value.drop_last();
        if like(shorter, pattern) {
            let k = choose|k: int|
                0 <= k <= shorter.len() && #[trigger] like(shorter.take(k), pattern.drop_last());
            assert(shorter.take(k) =~= value.take(k));
            assert(like(value.take(k), pattern.drop_last()));
        }
        if like(value, pattern.drop_last()) {
            assert(value.take(value.len() as int) =~= value);
            assert(like(value.take(value.len() as int), pattern.drop_last()));
        }
        if exists|k: int| 0 <= k <= value.len() && #[trigger] like(value.take(k), pattern.drop_last()) {
            let k = choose|k: int|
                0 <= k <= value.len() && #[trigger] like(value.take(k), pattern.drop_last());
            if k == value.len() {
                assert(value.take(k) =~= value);
            } else {
                assert(shorter.take(k) =~= value.take(k));
                assert(like(shorter.take(k), pattern.drop_last()));
            }
        }
    } else {
        assert(value.take(0) =~= value);
        if like(value, pattern.drop_last()) {
            assert(like(value.take(0), pattern.drop_last()));
        }
    }
}

/// A pattern without wildcards matches only itself.
pub proof fn law_plain_pattern_is_equality(value: Seq<char>, pattern: Seq<char>)
    requires
        !pattern.contains('%'),
        !pattern.contains('_'),
    ensures
        like(value, pattern) <==> value == pattern,
    decreases pattern.len(),
{
    if pattern.len() > 0 {
        let p = pattern.drop_last();
        assert(pattern.contains(pattern.last()));
        assert forall|c: char| p.contains(c) implies pattern.contains(c) by {
            let i = choose|i: int| 0 <= i < p.len() && p[i] == c;
            assert(pattern[i] == c);
        }
        if value.len() > 0 {
            law_plain_pattern_is_equality(value.drop_last(), p);
            if value.drop_last() == p && value.last() == pattern.last() {
                assert(value =~= p.push(pattern.last()));
                assert(pattern =~= p.push(pattern.last()));
            }
        }
    } else {
        if value.len() == 0 {
            assert(value =~= pattern);
        }
    }
}

/// The literal of a prefix pattern: one `%`, at the end, behind a non-empty text, no `_`.
pub open spec fn prefix_literal(pattern: Seq<char>) -> Option<Seq<char>> {
    if pattern.len() >= 2 && pattern.last() == '%' && !pattern.contains('_') && !pattern.drop_last().contains(
        '%',
    ) {
        Some(pattern.drop_last())
    } else {
        None
    }
}

/// The literal of a contains pattern: one `%` at each end of a non-empty text, no `_`.
pub open spec fn contains_literal(pattern: Seq<char>) -> Option<Seq<char>> {
    if pattern.len() >= 3 && pattern[0] == '%' && pattern.last() == '%' && !pattern.contains('_')
        && !pattern.subrange(1, pattern.len() - 1).contains('%') {
        Some(pattern.subrange(1, pattern.len() - 1))
    } else {
        None
    }
}

/// If `pattern` is a prefix-only pattern, its literal: `post-999%` gives `post-999`; `%foo`,
/// `foo_bar%` and `foo%bar%` give nothing.
pub fn sql_like_prefix_literal(pattern: &str) -> (r: Option<&str>)
    ensures
        match r {
            Some(s) => prefix_literal(pattern@) == Some(s@),
            None => prefix_literal(pattern@) is None,
        },
{
    let p = chars_of(pattern);
    let n: usize = p.len();
    if n < 2 || p[n - 1] != '%' || has_char(&p, '_') {
        return None;
    }
    let mut i: usize = 0;
    while i < n - 1
        invariant
            n == p@.len(),
            0 <= i <= n - 1,
            p@ == pattern@,
            forall|j: int| 0 <= j < i ==> p@[j] != '%',
        decreases n - i,
    {
        if p[i] == '%' {
            proof {
                assert(pattern@.drop_last()[i as int] == '%');
            }
            return None;
        }
        i += 1;
    }
    let body = pattern.substring_char(0, n - 1);
    proof {
        assert(body@ =~= pattern@.drop_last());
    }
    Some(body)
}

/// If `pattern` is a contains-only pattern, its literal: `%gmail.com%` gives `gmail.com`;
/// `%x`, `x%` and `%a_b%` give nothing.
pub fn sql_like_contains_literal(pattern: &str) -> (r: Option<&str>)
    ensures
        match r {
            Some(s) => contains_literal(pattern@) == Some(s@),
            None => contains_literal(pattern@) is None,
        },
{
    let p = chars_of(pattern);
    let n: usize = p.len();
    if n < 3 || p[0] != '%' || p[n - 1] != '%' || has_char(&p, '_') {
        return None;
    }
    let mut i: usize = 1;
    while i < n - 1
        invariant
            n == p@.len(),
            1 <= i <= n - 1,
            p@ == pattern@,
            forall|j: int| 1 <= j < i ==> p@[j] != '%',
        decreases n - i,
    {
        if p[i] == '%' {
            proof {
                assert(pattern@.subrange(1, pattern@.len() - 1)[i - 1] == '%');
            }
            return None;
        }
        i += 1;
    }
    let inner = pattern.substring_char(1, n - 1);
    proof {
        assert(inner@ =~= pattern@.subrange(1, pattern@.len() - 1));
    }
    Some(inner)
}

proof fn lemma_contains_front(p: Seq<char>, q: Seq<char>, c: char)
    requires
        q == p.drop_last(),
        p.len() > 0,
        q.contains(c),
    ensures
        p.contains(c),
{
    let i = choose|i: int| 0 <= i < q.len() && q[i] == c;
    assert(p[i] == c);
}

/// A prefix pattern matches exactly the texts that start with its literal.
pub proof fn law_prefix_pattern_matches_prefixes(value: Seq<char>, pattern: Seq<char>)
    requires
        prefix_literal(pattern) is Some,
    ensures
        like(value, pattern) <==> prefix_literal(pattern)->0.is_prefix_of(value),
{
    let lit = pattern.drop_last();
    law_percent_is_any_text(value, pattern);
    if lit.contains('_') {
        lemma_contains_front(pattern, lit, '_');
    }
    if like(value, pattern) {
        let k = choose|k: int| 0 <= k <= value.len() && #[trigger] like(value.take(k), pattern.drop_last());
        law_plain_pattern_is_equality(value.take(k), lit);
        assert(value.take(k) =~= value.subrange(0, lit.len() as int));
    }
    if lit.is_prefix_of(value) {
        let k = lit.len() as int;
        assert(value.take(k) =~= lit);
        law_plain_pattern_is_equality(value.take(k), lit);
        assert(like(value.take(k), pattern.drop_last()));
    }
}

proof fn lemma_leading_percent(value: Seq<char>, lit: Seq<char>)
    requires
        !lit.contains('%'),
        !lit.contains('_'),
    ensures
        like(value, seq!['%'] + lit) <==> lit.is_suffix_of(value),
    decreases lit.len(),
{
    let p = seq!['%'] + lit;
    if lit.len() == 0 {
        assert(p =~= seq!['%']);
        law_percent_is_any_text(value, p);
        assert(value.take(0).len() == 0);
        assert(like(value.take(0), p.drop_last()));
        assert(value.subrange(value.len() as int, value.len() as int) =~= lit);
    } else {
        let l = lit.drop_last();
        assert(p.drop_last() =~= seq!['%'] + l);
        assert(p.last() == lit.last());
        assert(lit.contains(lit.last()));
        if l.contains('%') {
            lemma_contains_front(lit, l, '%');
        }
        if l.contains('_') {
            lemma_contains_front(lit, l, '_');
        }
        if value.len() > 0 {
            let v = value.drop_last();
            lemma_leading_percent(v, l);
            if like(value, p) {
                assert(l =~= v.subrange(v.len() - l.len(), v.len() as int));
                assert forall|i: int| 0 <= i < lit.len() implies lit[i] == value[value.len() - lit.len()
                    + i] by {
                    if i < l.len() {
                        assert(l[i] == v[v.len() - l.len() + i]);
                    }
                }
                assert(lit =~= value.subrange(value.len() - lit.len(), value.len() as int));
            }
            if lit.is_suffix_of(value) {
                assert forall|i: int| 0 <= i < lit.len() implies lit[i] == value[value.len() - lit.len()
                    + i] by {
                    assert(lit[i] == value.subrange(value.len() - lit.len(), value.len() as int)[i]);
                }
                assert(l =~= v.subrange(v.len() - l.len(), v.len() as int));
                assert(lit.last() == value.last());
            }
        }
    }
}

/// Whether `inner` stands in `value` at position `k`.
pub open spec fn stands_at(value: Seq<char>, inner: Seq<char>, k: int) -> bool {
    0 <= k <= value.len() - inner.len() && value.subrange(k, k + inner.len()) == inner
}

/// A contains pattern matches exactly the texts in which its literal stands somewhere.
pub proof fn law_contains_pattern_matches_substrings(value: Seq<char>, pattern: Seq<char>)
    requires
        contains_literal(pattern) is Some,
    ensures
        like(value, pattern) <==> exists|k: int| stands_at(value, contains_literal(pattern)->0, k),
{
    let lit = contains_literal(pattern)->0;
    assert(pattern.drop_last() =~= seq!['%'] + lit);
    if lit.contains('_') {
        let i = choose|i: int| 0 <= i < lit.len() && lit[i] == '_';
        assert(pattern[i + 1] == '_');
    }
    law_percent_is_any_text(value, pattern);
    if like(value, pattern) {
        let k = choose|k: int| 0 <= k <= value.len() && #[trigger] like(value.take(k), pattern.drop_last());
        lemma_leading_percent(value.take(k), lit);
        let at = k - lit.len();
        assert(value.take(k).subrange(at, k) =~= value.subrange(at, at + lit.len()));
        assert(stands_at(value, lit, at));
    }
    if exists|k: int| stands_at(value, lit, k) {
        let at = choose|k: int| stands_at(value, lit, k);
        let k = at + lit.len();
        assert(value.take(k).subrange(at, k) =~= lit);
        lemma_leading_percent(value.take(k), lit);
        assert(like(value.take(k), pattern.drop_last()));
    }
}

/// Whether `cuts` lay a pattern along a text from end to end: the `i`-th character of the pattern
/// covers the text from the `i`-th cut to the next, `%` any stretch, `_` any one character and
/// any other character itself.
pub open spec fn lies_along(value: Seq<char>, pattern: Seq<char>, cuts: Seq<int>) -> bool {
    &&& cuts.len() == pattern.len() + 1
    &&& cuts[0] == 0
    &&& cuts[pattern.len() as int] == value.len()
    &&& forall|i: int, j: int| 0 <= i <= j < cuts.len() ==> #[trigger] cuts[i] <= #[trigger] cuts[j]
    &&& forall|i: int|
        #![trigger pattern[i]]
        0 <= i < pattern.len() && pattern[i] != '%' ==> cuts[i + 1] == cuts[i] + 1 && (pattern[i] == '_' || pattern[i]
            == value[cuts[i]])
}

/// A text matches a pattern exactly when the pattern can be laid along it.
pub proof fn law_like_is_laying_along(value: Seq<char>, pattern: Seq<char>)
    ensures
        like(value, pattern) <==> exists|cuts: Seq<int>| lies_along(value, pattern, cuts),
    decreases pattern.len(), value.len(),
{
    let n = pattern.len() as int;
    let len = value.len() as int;
    if n == 0 {
        if value.len() == 0 {
            assert(lies_along(value, pattern, seq![0int]));
        }
    } else {
        let p = pattern.drop_last();
        let shorter = value.drop_last();
        law_like_is_laying_along(value, p);
        if len > 0 {
            law_like_is_laying_along(shorter, pattern);
            law_like_is_laying_along(shorter, p);
        }
        if like(value, pattern) {
            if pattern.last() == '%' {
                if like(value, p) {
                    let c = choose|c: Seq<int>| lies_along(value, p, c);
                    assert(lies_along(value, pattern, c.push(len))) by {
                        assert forall|i: int|
                            #![trigger pattern[i]]
                            0 <= i < n && pattern[i] != '%' implies c.push(len)[i + 1] == c.push(len)[i] + 1 && (
                        pattern[i] == '_' || pattern[i] == value[c.push(len)[i]]) by {
                            assert(p[i] == pattern[i]);
                        }
                    }
                } else {
                    let c = choose|c: Seq<int>| lies_along(shorter, pattern, c);
                    let d = c.update(n, len);
                    assert(lies_along(value, pattern, d)) by {
                        assert forall|i: int, j: int| 0 <= i <= j < d.len() implies #[trigger] d[i] <= #[trigger] d[j] by {
                            assert(c[i] <= c[j]);
                        }
                        assert forall|i: int|
                            #![trigger pattern[i]]
                            0 <= i < n && pattern[i] != '%' implies d[i + 1] == d[i] + 1 && (pattern[i] == '_'
                            || pattern[i] == value[d[i]]) by {
                            assert(c[i + 1] == c[i] + 1);
                            assert(c[0] <= c[i]);
                            assert(c[i + 1] <= c[n]);
                            assert(shorter[c[i]] == value[c[i]]);
                        }
                    }
                }
            } else {
                let c = choose|c: Seq<int>| lies_along(shorter, p, c);
                let d = c.push(len);
                assert(lies_along(value, pattern, d)) by {
                    assert forall|i: int, j: int| 0 <= i <= j < d.len() implies #[trigger] d[i] <= #[trigger] d[j] by {
                        if j < n {
                            assert(c[i] <= c[j]);
                        } else if i < n {
                            assert(c[i] <= c[n - 1]);
                        }
                    }
                    assert forall|i: int|
                        #![trigger pattern[i]]
                        0 <= i < n && pattern[i] != '%' implies d[i + 1] == d[i] + 1 && (pattern[i] == '_'
                        || pattern[i] == value[d[i]]) by {
                        if i < n - 1 {
                            assert(p[i] == pattern[i]);
                            assert(c[0] <= c[i]);
                            assert(c[i + 1] <= c[n - 1]);
                            assert(shorter[c[i]] == value[c[i]]);
                        }
                    }
                }
            }
        }
        if exists|cuts: Seq<int>| lies_along(value, pattern, cuts) {
            let c = choose|c: Seq<int>| lies_along(value, pattern, c);
            assert(c[0] <= c[n - 1] && c[n - 1] <= c[n]);
            let d = c.drop_last();
            if pattern.last() == '%' {
                if c[n - 1] == len {
                    assert(lies_along(value, p, d)) by {
                        assert forall|i: int, j: int| 0 <= i <= j < d.len() implies #[trigger] d[i] <= #[trigger] d[j] by {
                            assert(c[i] <= c[j]);
                        }
                        assert forall|i: int|
                            #![trigger p[i]]
                            0 <= i < p.len() && p[i] != '%' implies d[i + 1] == d[i] + 1 && (p[i] == '_' || p[i]
                            == value[d[i]]) by {
                            assert(p[i] == pattern[i]);
                        }
                    }
                } else {
                    let e = c.update(n, len - 1);
                    assert(lies_along(shorter, pattern, e)) by {
                        assert forall|i: int, j: int| 0 <= i <= j < e.len() implies #[trigger] e[i] <= #[trigger] e[j] by {
                            assert(c[i] <= c[j]);
                            if i < n {
                                assert(c[i] <= c[n - 1]);
                            }
                        }
                        assert forall|i: int|
                            #![trigger pattern[i]]
                            0 <= i < n && pattern[i] != '%' implies e[i + 1] == e[i] + 1 && (pattern[i] == '_'
                            || pattern[i] == shorter[e[i]]) by {
                            assert(c[i + 1] == c[i] + 1);
                            assert(c[0] <= c[i]);
                            assert(c[i + 1] <= c[n - 1]);
                        }
                    }
                }
            } else {
                assert(pattern[n - 1] != '%');
                assert(c[n] == c[n - 1] + 1);
                assert(lies_along(shorter, p, d)) by {
                    assert forall|i: int, j: int| 0 <= i <= j < d.len() implies #[trigger] d[i] <= #[trigger] d[j] by {
                        assert(c[i] <= c[j]);
                    }
                    assert forall|i: int|
                        #![trigger p[i]]
                        0 <= i < p.len() && p[i] != '%' implies d[i + 1] == d[i] + 1 && (p[i] == '_' || p[i]
                        == shorter[d[i]]) by {
                        assert(p[i] == pattern[i]);
                        assert(c[0] <= c[i]);
                        assert(c[i + 1] <= c[n - 1]);
                    }
                }
            }
        }
    }
}

} // verus!
