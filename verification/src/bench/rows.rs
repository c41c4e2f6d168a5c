//! The rows that the pipeline benchmark writes.
use super::postings::{is_rare, is_rare_row};
use crate::support::num_text::{decimal, u64_text};
use crate::support::text::{join2, owned};
use vstd::prelude::*;

verus! {

/// A row of the pipeline benchmark.
#[derive(Debug, PartialEq, Eq)]
pub struct BenchRow {
    pub id: u64,
    pub slug: String,
    pub title: String,
    pub body: String,
    pub term: String,
}

/// Whether a row is the one with this number.
pub open spec fn is_row(r: BenchRow, id: u64, rare_doc_mod: u64) -> bool {
    &&& r.id == id
    &&& r.slug@ == "r"@ + decimal(id as nat)
    &&& r.title@ == "title "@ + decimal(id as nat)
    &&& r.body@ == "benchtok_"@ + decimal(id as nat) + " lorem ipsum dolor sit amet raw bench row"@
    &&& r.term@ == (if is_rare(id, rare_doc_mod) {
        "rare"@
    } else {
        "common"@
    })
}

/// The row with this number.
pub fn make_row(id: u64, rare_doc_mod: u64) -> (r: BenchRow)
    ensures
        is_row(r, id, rare_doc_mod),
{
    let number = u64_text(id);
    let mut body = join2("benchtok_", number.as_str());
    body.append(" lorem ipsum dolor sit amet raw bench row");
    let term = if is_rare_row(id, rare_doc_mod) {
        owned("rare")
    } else {
        owned("common")
    };
    BenchRow {
        id,
        slug: join2("r", number.as_str()),
        title: join2("title ", number.as_str()),
        body,
        term,
    }
}

/// `n` rows, numbered from `start` on.
pub fn make_batch(start: u64, n: usize, rare_doc_mod: u64) -> (r: Vec<BenchRow>)
    requires
        start + n <= u64::MAX,
    ensures
        r@.len() == n,
        forall|i: int| 0 <= i < n ==> is_row(#[trigger] r@[i], (start + i) as u64, rare_doc_mod),
{
    let mut out: Vec<BenchRow> = Vec::new();
    let mut i: usize = 0;
    while i < n
        invariant
            0 <= i <= n,
            start + n <= u64::MAX,
            out@.len() == i,
            forall|k: int| 0 <= k < i ==> is_row(#[trigger] out@[k], (start + k) as u64, rare_doc_mod),
        decreases n - i,
    {
        out.push(make_row(start + i as u64, rare_doc_mod));
        i += 1;
    }
    out
}

} // verus!
