//! The posting lists of the search stressor: row numbers by term, the newest last.
use std::collections::VecDeque;
use vstd::prelude::*;

verus! {

/// How many rows a posting list keeps.
pub const POSTING_CAP: usize = 500_000;

/// Which posting list a search scans.
#[derive(Debug, Clone, Copy, PartialEq, Eq, Structural)]
pub enum SearchSelectivity {
    Common,
    Rare,
    Mixed,
}

/// Whether a row is rare: one in every `rare_doc_mod` rows, none for the largest number.
pub open spec fn is_rare(id: u64, rare_doc_mod: u64) -> bool {
    rare_doc_mod < u64::MAX && rare_doc_mod >= 2 && id % rare_doc_mod == 0
}

/// Whether a row is rare.
pub fn is_rare_row(id: u64, rare_doc_mod: u64) -> (r: bool)
    ensures
        r == is_rare(id, rare_doc_mod),
{
    rare_doc_mod < u64::MAX && rare_doc_mod >= 2 && id % rare_doc_mod == 0
}

/// How rare rows are spread: none when only common rows are searched.
pub fn rare_doc_mod(selectivity: SearchSelectivity, asked: u64) -> (r: u64)
    ensures
        r == (match selectivity {
            SearchSelectivity::Common => u64::MAX,
            _ => if asked < 2 {
                2
            } else {
                asked
            },
        }),
{
    match selectivity {
        SearchSelectivity::Common => u64::MAX,
        SearchSelectivity::Rare | SearchSelectivity::Mixed => {
            if asked < 2 {
                2
            } else {
                asked
            }
        },
    }
}

/// A list with one more row, the oldest leaving when it is full.
pub open spec fn capped(q: Seq<u64>, id: u64, cap: nat) -> Seq<u64> {
    if q.len() >= cap && q.len() > 0 {
        q.skip(1).push(id)
    } else {
        q.push(id)
    }
}

/// Adds a row to a posting list.
pub fn push_posting_cap(q: &mut VecDeque<u64>, id: u64, cap: usize)
    ensures
        final(q)@ == capped(old(q)@, id, cap as nat),
{
    let ghost before = q@;
    if q.len() >= cap {
        let _ = q.pop_front();
        proof {
            if before.len() > 0 {
                assert(q@ =~= before.skip(1));
            }
        }
    }
    q.push_back(id);
    proof {
        assert(q@ =~= capped(before, id, cap as nat));
    }
}

/// The posting lists: of all rows, and of the rare ones.
#[derive(Debug)]
pub struct Postings {
    pub common: VecDeque<u64>,
    pub rare: VecDeque<u64>,
}

/// The list of all rows after `n` more from `start` on.
pub open spec fn with_rows(q: Seq<u64>, start: u64, n: nat) -> Seq<u64>
    decreases n,
{
    if n == 0 {
        q
    } else {
        capped(with_rows(q, start, (n - 1) as nat), (start + n - 1) as u64, POSTING_CAP as nat)
    }
}

/// The list of rare rows after `n` more rows from `start` on.
pub open spec fn with_rare_rows(q: Seq<u64>, start: u64, n: nat, rare_doc_mod: u64) -> Seq<u64>
    decreases n,
{
    if n == 0 {
        q
    } else {
        let before = with_rare_rows(q, start, (n - 1) as nat, rare_doc_mod);
        let id = (start + n - 1) as u64;
        if is_rare(id, rare_doc_mod) {
            capped(before, id, POSTING_CAP as nat)
        } else {
            before
        }
    }
}

impl Postings {
    /// Empty lists.
    pub fn new() -> (r: Self)
        ensures
            r.common@ == Seq::<u64>::empty(),
            r.rare@ == Seq::<u64>::empty(),
    {
        Postings { common: VecDeque::new(), rare: VecDeque::new() }
    }

    /// Adds `n` rows numbered from `start` on.
    pub fn register_row_range(&mut self, start: u64, n: usize, rare_doc_mod: u64)
        requires
            start + n <= u64::MAX,
        ensures
            final(self).common@ == with_rows(old(self).common@, start, n as nat),
            final(self).rare@ == with_rare_rows(old(self).rare@, start, n as nat, rare_doc_mod),
    {
        let ghost c = self.common@;
        let ghost r = self.rare@;
        let mut i: usize = 0;
        while i < n
            invariant
                0 <= i <= n,
                start + n <= u64::MAX,
                self.common@ == with_rows(c, start, i as nat),
                self.rare@ == with_rare_rows(r, start, i as nat, rare_doc_mod),
            decreases n - i,
        {
            let id: u64 = start + i as u64;
            push_posting_cap(&mut self.common, id, POSTING_CAP);
            if is_rare_row(id, rare_doc_mod) {
                push_posting_cap(&mut self.rare, id, POSTING_CAP);
            }
            i += 1;
        }
    }

    /// The newest `k` rows of a term's list, the newest first.
    pub fn recent(&self, rare: bool, k: usize) -> (r: Vec<u64>)
        ensures
            r@ == newest(if rare { self.rare@ } else { self.common@ }, k as nat),
    {
        if rare {
            newest_rows(&self.rare, k)
        } else {
            newest_rows(&self.common, k)
        }
    }
}

/// The last `k` elements, the last first.
pub open spec fn newest(q: Seq<u64>, k: nat) -> Seq<u64> {
    Seq::new(
        if q.len() < k {
            q.len()
        } else {
            k
        },
        |i: int| q[q.len() - 1 - i],
    )
}

fn newest_rows(q: &VecDeque<u64>, k: usize) -> (r: Vec<u64>)
    ensures
        r@ == newest(q@, k as nat),
{
    let len: usize = q.len();
    let n: usize = if len < k {
        len
    } else {
        k
    };
    let mut out: Vec<u64> = Vec::new();
    let mut i: usize = 0;
    while i < n
        invariant
            0 <= i <= n,
            n <= len,
            len == q@.len(),
            out@.len() == i,
            forall|j: int| 0 <= j < i ==> #[trigger] out@[j] == q@[len - 1 - j],
        decreases n - i,
    {
        out.push(q[len - 1 - i]);
        i += 1;
    }
    proof {
        assert(out@ =~= newest(q@, k as nat));
    }
    out
}

/// Whether the `op`-th search is for rare rows: never, always, or in the given share of cases,
/// spread by a multiplicative hash.
pub open spec fn searches_rare(op: u64, selectivity: SearchSelectivity, rare_pct: u8) -> bool {
    match selectivity {
        SearchSelectivity::Common => false,
        SearchSelectivity::Rare => true,
        SearchSelectivity::Mixed => ((op * 11_003_515_245) % 0x1_0000_0000_0000_0000) % 100 < (if rare_pct > 100 {
            100int
        } else {
            rare_pct as int
        }),
    }
}

/// Whether the `op`-th search is for rare rows.
pub fn search_is_rare(op_idx: u64, selectivity: SearchSelectivity, rare_pct: u8) -> (r: bool)
    ensures
        r == searches_rare(op_idx, selectivity, rare_pct),
{
    match selectivity {
        SearchSelectivity::Common => false,
        SearchSelectivity::Rare => true,
        SearchSelectivity::Mixed => {
            let p: u64 = if rare_pct > 100 {
                100
            } else {
                rare_pct as u64
            };
            let h: u64 = op_idx.wrapping_mul(11_003_515_245) % 100;
            h < p
        },
    }
}

/// The term that the `op`-th search scans.
pub fn pick_search_term(op_idx: u64, selectivity: SearchSelectivity, rare_pct: u8) -> (r: &'static str)
    ensures
        r@ == (if searches_rare(op_idx, selectivity, rare_pct) {
            "rare"@
        } else {
            "common"@
        }),
{
    if search_is_rare(op_idx, selectivity, rare_pct) {
        "rare"
    } else {
        "common"
    }
}

/// A posting list never holds more rows than its cap.
pub proof fn law_lists_stay_within_cap(q: Seq<u64>, start: u64, n: nat)
    requires
        q.len() <= POSTING_CAP,
    ensures
        with_rows(q, start, n).len() <= POSTING_CAP,
    decreases n,
{
    if n > 0 {
        law_lists_stay_within_cap(q, start, (n - 1) as nat);
    }
}

/// A row that was just added is the newest.
pub proof fn law_added_row_is_newest(q: Seq<u64>, id: u64, cap: nat, k: nat)
    requires
        k > 0,
    ensures
        newest(capped(q, id, cap), k).len() > 0,
        newest(capped(q, id, cap), k)[0] == id,
{
}

} // verus!
