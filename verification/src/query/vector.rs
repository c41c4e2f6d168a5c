//! Batch evaluation of clauses over candidate rows.
use super::guide::{Clause, GuidePattern};
use crate::model::Strand;
use vstd::prelude::*;

verus! {

/// Default number of rows in a batch.
pub const DEFAULT_VECTOR_BATCH_SIZE: usize = 1024;

/// The rows whose mark is set, in order.
pub open spec fn marked<T>(rows: Seq<T>, marks: Seq<bool>) -> Seq<T>
    decreases rows.len(),
{
    if rows.len() == 0 || marks.len() == 0 {
        Seq::empty()
    } else {
        let before = marked(rows.drop_last(), marks.drop_last());
        if marks.last() {
            before.push(rows.last())
        } else {
            before
        }
    }
}

/// Whether the matcher says that a row passes the first `n` clauses.
pub open spec fn passes_first<F: Fn(&Strand, &Clause) -> bool>(
    matcher: F,
    row: &Strand,
    clauses: Seq<Clause>,
    n: int,
) -> bool {
    forall|k: int| 0 <= k < n ==> call_ensures(matcher, (row, &#[trigger] clauses[k]), true)
}

/// Whether the matcher can be asked of each row about the first clause, and about each further
/// clause where the row passes the ones before.
pub open spec fn can_judge<F: Fn(&Strand, &Clause) -> bool>(matcher: F, rows: Seq<&Strand>, clauses: Seq<Clause>) -> bool {
    forall|i: int, j: int|
        #![trigger rows[i], clauses[j]]
        0 <= i < rows.len() && 0 <= j < clauses.len() && passes_first(matcher, rows[i], clauses, j) ==> call_requires(
            matcher,
            (rows[i], &clauses[j]),
        )
}

/// Whether a row passes the clauses before the one numbered `j` and fails that one.
pub open spec fn fails_at<F: Fn(&Strand, &Clause) -> bool>(
    matcher: F,
    row: &Strand,
    clauses: Seq<Clause>,
    j: int,
) -> bool {
    passes_first(matcher, row, clauses, j) && call_ensures(matcher, (row, &clauses[j]), false)
}

/// Whether a mark says what the matcher says of a row: that it passes the first `n` clauses, or
/// that it fails one of them.
pub open spec fn row_judged<F: Fn(&Strand, &Clause) -> bool>(
    matcher: F,
    row: &Strand,
    clauses: Seq<Clause>,
    n: int,
    mark: bool,
) -> bool {
    if mark {
        passes_first(matcher, row, clauses, n)
    } else {
        exists|j: int| 0 <= j < n && #[trigger] fails_at(matcher, row, clauses, j)
    }
}

/// Whether each mark says what the matcher says of its row and all clauses.
pub open spec fn judged<F: Fn(&Strand, &Clause) -> bool>(
    matcher: F,
    rows: Seq<&Strand>,
    clauses: Seq<Clause>,
    marks: Seq<bool>,
) -> bool {
    &&& marks.len() == rows.len()
    &&& forall|i: int|
        0 <= i < rows.len() ==> row_judged(matcher, rows[i], clauses, clauses.len() as int, #[trigger] marks[i])
}

/// The rows that pass every clause, evaluated in batches of `batch_size` rows (at least one).
/// The matcher is asked about these rows and clauses alone, and about a clause only where the
/// row passes the ones before; without clauses it is not asked at all. That it is asked no
/// such question twice holds of the loop but is no part of the contract.
pub fn filter_rows_vectorized<'a, F: Fn(&Strand, &Clause) -> bool>(
    rows: Vec<&'a Strand>,
    pattern: &GuidePattern,
    batch_size: usize,
    matcher: F,
) -> (r: Vec<&'a Strand>)
    requires
        can_judge(matcher, rows@, pattern.clauses@),
    ensures
        exists|marks: Seq<bool>| #[trigger]
            judged(matcher, rows@, pattern.clauses@, marks) && r@ == marked(rows@, marks),
{
    if pattern.clauses.len() == 0 {
        proof {
            let marks = Seq::new(rows@.len(), |i: int| true);
            assert(judged(matcher, rows@, pattern.clauses@, marks));
            lemma_all_marked(rows@, marks);
        }
        return rows;
    }
    let batch: usize = if batch_size == 0 {
        1
    } else {
        batch_size
    };
    let mut out: Vec<&'a Strand> = Vec::new();
    let ghost mut marks: Seq<bool> = Seq::empty();
    let mut start: usize = 0;
    proof {
        assert(rows@.take(0) =~= Seq::<&Strand>::empty());
    }
    while start < rows.len()
        invariant
            batch > 0,
            0 <= start <= rows@.len(),
            can_judge(matcher, rows@, pattern.clauses@),
            judged(matcher, rows@.take(start as int), pattern.clauses@, marks),
            out@ == marked(rows@.take(start as int), marks),
        decreases rows@.len() - start,
    {
        let end: usize = if batch < rows.len() - start {
            start + batch
        } else {
            rows.len()
        };
        let mask = batch_mask(&rows, start, end, &pattern.clauses, &matcher);
        let mut i: usize = start;
        while i < end
            invariant
                start <= i <= end <= rows@.len(),
                judged(matcher, rows@.subrange(start as int, end as int), pattern.clauses@, mask@),
                judged(matcher, rows@.take(i as int), pattern.clauses@, marks),
                out@ == marked(rows@.take(i as int), marks),
            decreases end - i,
        {
            let ghost before = marks;
            proof {
                marks = marks.push(mask@[i - start]);
                let now = rows@.take(i + 1);
                assert(now.drop_last() =~= rows@.take(i as int));
                assert(marks.drop_last() =~= before);
                assert forall|x: int| 0 <= x < now.len() implies row_judged(
                    matcher,
                    now[x],
                    pattern.clauses@,
                    pattern.clauses@.len() as int,
                    #[trigger] marks[x],
                ) by {
                    if x < i {
                        assert(marks[x] == before[x]);
                    } else {
                        assert(marks[x] == mask@[i - start]);
                    }
                }
            }
            if mask[i - start] {
                out.push(rows[i]);
            }
            i += 1;
        }
        start = end;
    }
    proof {
        assert(rows@.take(start as int) =~= rows@);
    }
    out
}

proof fn lemma_all_marked<T>(rows: Seq<T>, marks: Seq<bool>)
    requires
        marks.len() == rows.len(),
        forall|i: int| 0 <= i < marks.len() ==> marks[i],
    ensures
        marked(rows, marks) == rows,
    decreases rows.len(),
{
    if rows.len() > 0 {
        lemma_all_marked(rows.drop_last(), marks.drop_last());
        assert(rows.drop_last().push(rows.last()) =~= rows);
    } else {
        assert(marked(rows, marks) =~= rows);
    }
}

/// The marks of one batch, clause by clause.
fn batch_mask<'a, F: Fn(&Strand, &Clause) -> bool>(
    rows: &Vec<&'a Strand>,
    start: usize,
    end: usize,
    clauses: &Vec<Clause>,
    matcher: &F,
) -> (mask: Vec<bool>)
    requires
        start <= end <= rows@.len(),
        can_judge(*matcher, rows@, clauses@),
    ensures
        judged(*matcher, rows@.subrange(start as int, end as int), clauses@, mask@),
{
    let n: usize = end - start;
    let mut mask: Vec<bool> = Vec::new();
    let mut k: usize = 0;
    while k < n
        invariant
            0 <= k <= n,
            mask@.len() == k,
            forall|i: int| 0 <= i < k ==> #[trigger] mask@[i],
        decreases n - k,
    {
        mask.push(true);
        k += 1;
    }
    let mut j: usize = 0;
    while j < clauses.len()
        invariant
            0 <= j <= clauses@.len(),
            n == end - start,
            start <= end <= rows@.len(),
            can_judge(*matcher, rows@, clauses@),
            mask@.len() == n,
            forall|x: int|
                0 <= x < n ==> row_judged(*matcher, rows@[start + x], clauses@, j as int, #[trigger] mask@[x]),
        decreases clauses@.len() - j,
    {
        let clause = &clauses[j];
        let mut i: usize = 0;
        while i < n
            invariant
                0 <= i <= n,
                0 <= j < clauses@.len(),
                *clause == clauses@[j as int],
                n == end - start,
                start <= end <= rows@.len(),
                can_judge(*matcher, rows@, clauses@),
                mask@.len() == n,
                forall|x: int|
                    0 <= x < n ==> row_judged(
                        *matcher,
                        rows@[start + x],
                        clauses@,
                        (if x < i {
                            j + 1
                        } else {
                            j as int
                        }),
                        #[trigger] mask@[x],
                    ),
            decreases n - i,
        {
            let ghost before = mask@;
            let row = rows[start + i];
            if mask[i] {
                proof {
                    assert(row_judged(*matcher, row, clauses@, j as int, mask@[i as int]));
                    assert(rows@[start + i] == row && clauses@[j as int] == *clause);
                }
                if !matcher(row, clause) {
                    mask.set(i, false);
                    proof {
                        assert(fails_at(*matcher, row, clauses@, j as int));
                    }
                }
            } else {
                proof {
                    assert(row_judged(*matcher, row, clauses@, j as int, mask@[i as int]));
                }
            }
            proof {
                assert(row_judged(*matcher, row, clauses@, j + 1, mask@[i as int]));
                assert forall|x: int| 0 <= x < n implies row_judged(
                    *matcher,
                    rows@[start + x],
                    clauses@,
                    (if x < i + 1 {
                        j + 1
                    } else {
                        j as int
                    }),
                    #[trigger] mask@[x],
                ) by {
                    if x != i {
                        assert(mask@[x] == before[x]);
                    }
                }
            }
            i += 1;
        }
        j += 1;
    }
    mask
}

} // verus!
