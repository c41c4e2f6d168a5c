//! Sweeps over settings: where their steps keep their files, where a slope changes its sign,
//! and how clusters of steps become regimes.
use crate::support::num_text::{decimal, u64_text};
use crate::support::text::{join2, owned};
use vstd::prelude::*;

verus! {

/// The directory of a step that pauses for some milliseconds between batches.
pub fn step_dir_name(step: usize, pause_ms: u64) -> (r: String)
    ensures
        r@ == "equilibrium_step_"@ + decimal(step as nat) + "_"@ + decimal(pause_ms as nat) + "ms"@,
{
    let step_text = u64_text(step as u64);
    let pause_text = u64_text(pause_ms);
    let mut s = join2("equilibrium_step_", step_text.as_str());
    s.append("_");
    s.append(pause_text.as_str());
    s.append("ms");
    s
}

/// The directory of a tier that stops at some rows.
pub fn tier_dir_name(tier: usize, rows: u64) -> (r: String)
    ensures
        r@ == "matrix_tier_"@ + decimal(tier as nat) + "_"@ + decimal(rows as nat) + "raw"@,
{
    let tier_text = u64_text(tier as u64);
    let rows_text = u64_text(rows);
    let mut s = join2("matrix_tier_", tier_text.as_str());
    s.append("_");
    s.append(rows_text.as_str());
    s.append("raw");
    s
}

/// The sign of a slope.
#[derive(Debug, Clone, Copy, PartialEq, Eq, Structural)]
pub enum Sign {
    Negative,
    Zero,
    Positive,
}

/// Whether two slopes have opposite signs.
pub open spec fn opposite(a: Sign, b: Sign) -> bool {
    (a == Sign::Negative && b == Sign::Positive) || (a == Sign::Positive && b == Sign::Negative)
}

/// The first step whose slope and the next one's have opposite signs.
pub fn first_crossing(signs: &[Sign]) -> (r: Option<usize>)
    ensures
        match r {
            Some(i) => {
                &&& i + 1 < signs@.len()
                &&& opposite(signs@[i as int], signs@[i + 1])
                &&& forall|k: int| 0 <= k < i ==> !opposite(#[trigger] signs@[k], signs@[k + 1])
            },
            None => forall|k: int| 0 <= k < signs@.len() - 1 ==> !opposite(#[trigger] signs@[k], signs@[k + 1]),
        },
{
    let n: usize = signs.len();
    if n < 2 {
        return None;
    }
    let mut i: usize = 0;
    while i < n - 1
        invariant
            n == signs@.len(),
            n >= 2,
            0 <= i <= n - 1,
            forall|k: int| 0 <= k < i ==> !opposite(#[trigger] signs@[k], signs@[k + 1]),
        decreases n - i,
    {
        let a = signs[i];
        let b = signs[i + 1];
        if (a == Sign::Negative && b == Sign::Positive) || (a == Sign::Positive && b == Sign::Negative) {
            return Some(i);
        }
        i += 1;
    }
    None
}

/// How many clusters some steps are divided into: at least two, at most four.
pub fn cluster_count(steps: usize) -> (r: usize)
    ensures
        r == (if steps < 2 {
            2
        } else if steps > 4 {
            4
        } else {
            steps as int
        }),
{
    if steps < 2 {
        2
    } else if steps > 4 {
        4
    } else {
        steps
    }
}

/// The steps that `k` clusters of `n` steps start from, evenly spaced from the first to the
/// last.
pub fn seed_steps(n: usize, k: usize) -> (r: Vec<usize>)
    requires
        2 <= k <= n,
        k <= 4,
        n <= usize::MAX / 4,
    ensures
        r@.len() == k,
        forall|j: int| 0 <= j < k ==> #[trigger] r@[j] == j * (n - 1) / (k - 1),
        forall|j: int| 0 <= j < k ==> #[trigger] r@[j] < n,
        r@[0] == 0,
        r@[k - 1] == n - 1,
{
    let mut out: Vec<usize> = Vec::new();
    let mut j: usize = 0;
    while j < k
        invariant
            2 <= k <= n,
            k <= 4,
            n <= usize::MAX / 4,
            0 <= j <= k,
            out@.len() == j,
            forall|i: int| 0 <= i < j ==> #[trigger] out@[i] == i * (n - 1) / (k - 1),
            forall|i: int| 0 <= i < j ==> #[trigger] out@[i] < n,
        decreases k - j,
    {
        proof {
            assert(j * (n - 1) <= 3 * (n - 1)) by (nonlinear_arith)
                requires
                    j <= 3,
                    n >= 2,
            ;
            let q = j as int * (n - 1) / (k - 1);
            assert(0 <= q <= n - 1) by (nonlinear_arith)
                requires
                    0 <= j <= k - 1,
                    k >= 2,
                    n >= 2,
                    q == j as int * (n - 1) / (k - 1),
            ;
        }
        out.push(j * (n - 1) / (k - 1));
        j += 1;
    }
    proof {
        let d = k as int - 1;
        assert(0 * (n - 1) / d == 0) by (nonlinear_arith)
            requires
                d >= 1,
        ;
        assert(d * (n - 1) / d == n - 1) by (nonlinear_arith)
            requires
                d >= 1,
        ;
        assert(out@[0] == 0 * (n - 1) / (k - 1));
        assert(out@[k - 1] == (k - 1) * (n - 1) / (k - 1));
    }
    out
}

/// The regime of a cluster by its rank, the most severe first.
pub open spec fn regime_of_rank(rank: int) -> Seq<char> {
    if rank == 0 {
        "collapsing"@
    } else if rank == 1 {
        "saturated"@
    } else if rank == 2 {
        "backpressured"@
    } else {
        "stable"@
    }
}

/// The regimes of clusters that are ordered by their severity, the most severe first.
pub fn regimes_by_rank(order: &[usize]) -> (r: Vec<String>)
    requires
        forall|i: int| 0 <= i < order@.len() ==> #[trigger] order@[i] < order@.len(),
        order@.no_duplicates(),
    ensures
        r@.len() == order@.len(),
        forall|rank: int| 0 <= rank < order@.len() ==> (#[trigger] r@[order@[rank] as int])@ == regime_of_rank(rank),
{
    let n: usize = order.len();
    let mut out: Vec<String> = Vec::new();
    let mut i: usize = 0;
    while i < n
        invariant
            0 <= i <= n,
            out@.len() == i,
        decreases n - i,
    {
        out.push(owned("stable"));
        i += 1;
    }
    let mut rank: usize = 0;
    while rank < n
        invariant
            0 <= rank <= n,
            n == order@.len(),
            out@.len() == n,
            forall|i: int| 0 <= i < order@.len() ==> #[trigger] order@[i] < order@.len(),
            order@.no_duplicates(),
            forall|k: int| 0 <= k < rank ==> (#[trigger] out@[order@[k] as int])@ == regime_of_rank(k),
        decreases n - rank,
    {
        let cluster: usize = order[rank];
        let ghost before = out@;
        let name = if rank == 0 {
            owned("collapsing")
        } else if rank == 1 {
            owned("saturated")
        } else if rank == 2 {
            owned("backpressured")
        } else {
            owned("stable")
        };
        out.set(cluster, name);
        proof {
            assert forall|k: int| 0 <= k < rank + 1 implies (#[trigger] out@[order@[k] as int])@ == regime_of_rank(k) by {
                if k < rank {
                    assert(order@[k] != order@[rank as int]);
                    assert(out@[order@[k] as int] == before[order@[k] as int]);
                }
            }
        }
        rank += 1;
    }
    out
}

} // verus!
