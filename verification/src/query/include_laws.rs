//! What holds of include paths.
use super::signatures::{
    find, hop, last_with, lemma_last_with, parts, path_parts, path_target, reached, references,
};
use crate::model::StrandView;
use vstd::prelude::*;

verus! {

/// The strands at the end of a path from the first `n` of some strands, one after the other.
pub open spec fn targets(strands: Seq<StrandView>, from: Seq<StrandView>, path: Seq<char>, n: nat) -> Seq<StrandView>
    decreases n,
{
    if n == 0 {
        Seq::empty()
    } else {
        targets(strands, from, path, (n - 1) as nat) + path_target(strands, from[n - 1], path)
    }
}

/// The frontier after the first `n` parts of a path, from several strands at once.
spec fn reached_from(strands: Seq<StrandView>, from: Seq<StrandView>, path: Seq<Seq<char>>, n: nat) -> Seq<StrandView>
    decreases n,
{
    if n == 0 {
        from
    } else {
        let before = reached_from(strands, from, path, (n - 1) as nat);
        hop(strands, before, path[n - 1], before.len())
    }
}

proof fn lemma_reached_from_one(strands: Seq<StrandView>, root: StrandView, path: Seq<Seq<char>>, n: nat)
    ensures
        reached(strands, root, path, n) == reached_from(strands, seq![root], path, n),
    decreases n,
{
    if n > 0 {
        lemma_reached_from_one(strands, root, path, (n - 1) as nat);
    }
}

proof fn lemma_hop_prefix(strands: Seq<StrandView>, x: Seq<StrandView>, y: Seq<StrandView>, part: Seq<char>, n: nat)
    requires
        n <= x.len(),
        n <= y.len(),
        forall|i: int| 0 <= i < n ==> #[trigger] x[i] == y[i],
    ensures
        hop(strands, x, part, n) == hop(strands, y, part, n),
    decreases n,
{
    if n > 0 {
        lemma_hop_prefix(strands, x, y, part, (n - 1) as nat);
        assert(x[n - 1] == y[n - 1]);
    }
}

proof fn lemma_hop_append(strands: Seq<StrandView>, x: Seq<StrandView>, y: Seq<StrandView>, part: Seq<char>, n: nat)
    requires
        n <= y.len(),
    ensures
        hop(strands, x + y, part, x.len() + n) == hop(strands, x, part, x.len()) + hop(strands, y, part, n),
    decreases n,
{
    if n == 0 {
        lemma_hop_prefix(strands, x + y, x, part, x.len());
        assert(hop(strands, x, part, x.len()) + hop(strands, y, part, 0) =~= hop(strands, x, part, x.len()));
    } else {
        lemma_hop_append(strands, x, y, part, (n - 1) as nat);
        assert((x + y)[x.len() + n - 1] == y[n - 1]);
        let r = references(strands, y[n - 1], part, y[n - 1].introns.len());
        let a = hop(strands, x, part, x.len());
        let b = hop(strands, y, part, (n - 1) as nat);
        assert((a + b) + r =~= a + (b + r));
    }
}

proof fn lemma_reached_append(
    strands: Seq<StrandView>,
    x: Seq<StrandView>,
    y: Seq<StrandView>,
    path: Seq<Seq<char>>,
    n: nat,
)
    ensures
        reached_from(strands, x + y, path, n) == reached_from(strands, x, path, n) + reached_from(strands, y, path, n),
    decreases n,
{
    if n > 0 {
        lemma_reached_append(strands, x, y, path, (n - 1) as nat);
        let a = reached_from(strands, x, path, (n - 1) as nat);
        let b = reached_from(strands, y, path, (n - 1) as nat);
        lemma_hop_append(strands, a, b, path[n - 1], b.len());
        assert((a + b).len() == a.len() + b.len());
    }
}

proof fn lemma_reached_from_nothing(strands: Seq<StrandView>, path: Seq<Seq<char>>, n: nat)
    ensures
        reached_from(strands, Seq::empty(), path, n) == Seq::<StrandView>::empty(),
    decreases n,
{
    if n > 0 {
        lemma_reached_from_nothing(strands, path, (n - 1) as nat);
    }
}

/// From several strands at once a path leads where it leads from each.
proof fn lemma_each_on_its_own(strands: Seq<StrandView>, from: Seq<StrandView>, path: Seq<char>, n: nat)
    requires
        n <= from.len(),
        path_parts(path).len() > 0,
    ensures
        reached_from(strands, from.take(n as int), path_parts(path), path_parts(path).len()) == targets(
            strands,
            from,
            path,
            n,
        ),
    decreases n,
{
    let p = path_parts(path);
    if n == 0 {
        assert(from.take(0) =~= Seq::<StrandView>::empty());
        lemma_reached_from_nothing(strands, p, p.len());
    } else {
        lemma_each_on_its_own(strands, from, path, (n - 1) as nat);
        let one = seq![from[n - 1]];
        assert(from.take(n as int) =~= from.take(n - 1) + one);
        lemma_reached_append(strands, from.take(n - 1), one, p, p.len());
        lemma_reached_from_one(strands, from[n - 1], p, p.len());
    }
}

proof fn lemma_reached_in_two(
    strands: Seq<StrandView>,
    root: StrandView,
    a: Seq<Seq<char>>,
    b: Seq<Seq<char>>,
    n: nat,
)
    requires
        n <= b.len(),
    ensures
        reached(strands, root, a + b, a.len() + n) == reached_from(
            strands,
            reached(strands, root, a, a.len()),
            b,
            n,
        ),
    decreases n,
{
    if n == 0 {
        lemma_reached_prefix(strands, root, a + b, a, a.len());
    } else {
        lemma_reached_in_two(strands, root, a, b, (n - 1) as nat);
        assert((a + b)[a.len() + n - 1] == b[n - 1]);
    }
}

proof fn lemma_reached_prefix(
    strands: Seq<StrandView>,
    root: StrandView,
    x: Seq<Seq<char>>,
    y: Seq<Seq<char>>,
    n: nat,
)
    requires
        n <= x.len(),
        n <= y.len(),
        forall|i: int| 0 <= i < n ==> #[trigger] x[i] == y[i],
    ensures
        reached(strands, root, x, n) == reached(strands, root, y, n),
    decreases n,
{
    if n > 0 {
        lemma_reached_prefix(strands, root, x, y, (n - 1) as nat);
        assert(x[n - 1] == y[n - 1]);
    }
}

proof fn lemma_parts_prefix(x: Seq<char>, y: Seq<char>, n: nat)
    requires
        n <= x.len(),
        n <= y.len(),
        forall|i: int| 0 <= i < n ==> #[trigger] x[i] == y[i],
    ensures
        parts(x, n) == parts(y, n),
    decreases n,
{
    if n > 0 {
        lemma_parts_prefix(x, y, (n - 1) as nat);
        assert(x[n - 1] == y[n - 1]);
    }
}

proof fn lemma_parts_after_dot(p: Seq<char>, q: Seq<char>, m: nat)
    requires
        m <= q.len(),
    ensures
        ({
            let (done, current) = parts(q, m);
            parts(p + seq!['.'] + q, p.len() + 1 + m) == (path_parts(p) + done, current)
        }),
    decreases m,
{
    let whole = p + seq!['.'] + q;
    if m == 0 {
        lemma_parts_prefix(whole, p, p.len());
        assert(whole[p.len() as int] == '.');
        assert(path_parts(p) + Seq::<Seq<char>>::empty() =~= path_parts(p));
    } else {
        lemma_parts_after_dot(p, q, (m - 1) as nat);
        let (done, current) = parts(q, (m - 1) as nat);
        assert(whole[p.len() as int + m] == q[m - 1]);
        assert((path_parts(p) + done).push(current) =~= path_parts(p) + done.push(current));
    }
}

/// The parts of two paths that are joined by a dot are those of the first and then those of the
/// second.
pub proof fn law_joined_path_has_both_parts(p: Seq<char>, q: Seq<char>)
    ensures
        path_parts(p + seq!['.'] + q) == path_parts(p) + path_parts(q),
{
    lemma_parts_after_dot(p, q, q.len());
    let (done, current) = parts(q, q.len());
    assert((p + seq!['.'] + q).len() == p.len() + 1 + q.len());
    assert((path_parts(p) + done).push(current) =~= path_parts(p) + done.push(current));
}

/// A joined path is the two paths one after the other: it leads to what the second leads to
/// from each strand that the first leads to, in order, duplicates kept.
pub proof fn law_joined_path_is_two_paths(strands: Seq<StrandView>, root: StrandView, p: Seq<char>, q: Seq<char>)
    requires
        path_parts(p).len() > 0,
        path_parts(q).len() > 0,
    ensures
        path_target(strands, root, p + seq!['.'] + q) == targets(
            strands,
            path_target(strands, root, p),
            q,
            path_target(strands, root, p).len(),
        ),
{
    law_joined_path_has_both_parts(p, q);
    let a = path_parts(p);
    let b = path_parts(q);
    let middle = path_target(strands, root, p);
    lemma_reached_in_two(strands, root, a, b, b.len());
    assert((a + b).len() == a.len() + b.len());
    lemma_each_on_its_own(strands, middle, q, middle.len());
    assert(middle.take(middle.len() as int) =~= middle);
}

proof fn lemma_references_known(strands: Seq<StrandView>, v: StrandView, part: Seq<char>, n: nat, i: int)
    requires
        n <= v.introns.len(),
        0 <= i < references(strands, v, part, n).len(),
    ensures
        strands.contains(references(strands, v, part, n)[i]),
    decreases n,
{
    let before = references(strands, v, part, (n - 1) as nat);
    if i < before.len() {
        lemma_references_known(strands, v, part, (n - 1) as nat, i);
    } else {
        let sig = v.introns[n - 1].references_strand->0;
        lemma_last_with(strands, sig, strands.len());
        let k = last_with(strands, sig, strands.len())->0;
        assert(find(strands, sig) == Some(strands[k]));
    }
}

proof fn lemma_hop_known(strands: Seq<StrandView>, from: Seq<StrandView>, part: Seq<char>, n: nat, i: int)
    requires
        n <= from.len(),
        0 <= i < hop(strands, from, part, n).len(),
    ensures
        strands.contains(hop(strands, from, part, n)[i]),
    decreases n,
{
    let before = hop(strands, from, part, (n - 1) as nat);
    let v = from[n - 1];
    if i < before.len() {
        lemma_hop_known(strands, from, part, (n - 1) as nat, i);
    } else {
        lemma_references_known(strands, v, part, v.introns.len(), i - before.len());
    }
}

/// A path leads only to strands that are there: references to others are left out. One without
/// a non-empty part leads nowhere.
pub proof fn law_path_leads_to_known_strands(strands: Seq<StrandView>, root: StrandView, path: Seq<char>, i: int)
    ensures
        0 <= i < path_target(strands, root, path).len() ==> strands.contains(path_target(strands, root, path)[i]),
        path_parts(path).len() == 0 ==> path_target(strands, root, path).len() == 0,
{
    let p = path_parts(path);
    if 0 <= i < path_target(strands, root, path).len() {
        let from = reached(strands, root, p, (p.len() - 1) as nat);
        lemma_hop_known(strands, from, p[p.len() - 1], from.len(), i);
    }
}

} // verus!
