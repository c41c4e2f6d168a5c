//! Intron hashes as a cheap filter in front of full value checks.
//!
//! For equality, an intron's `value_hash` is the FNV-1a hash of the bytes that an exact
//! clause holds as its operand.
use super::guide::{Clause, ClauseView, GuidePattern, GuideView};
use crate::model::{intron_views, Intron, IntronView};
use crate::processor::{fnv1a64, fnv1a64_spec};
use crate::support::text::string_is;
use vstd::prelude::*;

verus! {

/// Whether some intron is named `field`.
pub open spec fn has_field(introns: Seq<IntronView>, field: Seq<char>) -> bool {
    exists|i: int| 0 <= i < introns.len() && (#[trigger] introns[i]).field_name == field
}

/// Whether some intron is named `field` and has the hash `h`.
pub open spec fn has_hash(introns: Seq<IntronView>, field: Seq<char>, h: u64) -> bool {
    exists|i: int|
        0 <= i < introns.len() && (#[trigger] introns[i]).field_name == field && introns[i].value_hash == h
}

/// Whether a clause passes the filter: an exact clause needs its field and hash, any other its
/// field.
pub open spec fn fast_match(c: ClauseView, introns: Seq<IntronView>) -> bool {
    match c {
        ClauseView::Exact { field, wire, .. } => has_hash(introns, field, fnv1a64_spec(wire)),
        ClauseView::Range { field, .. } => has_field(introns, field),
        ClauseView::Like { field, .. } => has_field(introns, field),
    }
}

/// Whether every clause passes the filter.
pub open spec fn all_fast_match(g: GuideView, introns: Seq<IntronView>) -> bool {
    forall|i: int| 0 <= i < g.clauses.len() ==> fast_match(#[trigger] g.clauses[i], introns)
}

/// Whether some intron indexes `field` and hashes like `wire_for_hash`.
pub fn intron_hash_matches_field(field: &str, wire_for_hash: &[u8], introns: &[Intron]) -> (r: bool)
    ensures
        r == has_hash(intron_views(introns@), field@, fnv1a64_spec(wire_for_hash@)),
{
    let h: u64 = fnv1a64(wire_for_hash);
    let ghost views = intron_views(introns@);
    let mut i: usize = 0;
    while i < introns.len()
        invariant
            0 <= i <= introns@.len(),
            views == intron_views(introns@),
            h == fnv1a64_spec(wire_for_hash@),
            forall|j: int|
                0 <= j < i ==> !((#[trigger] views[j]).field_name == field@ && views[j].value_hash == h),
        decreases introns@.len() - i,
    {
        if introns[i].value_hash == h && string_is(&introns[i].field_name, field) {
            proof {
                assert(views[i as int].field_name == field@);
            }
            return true;
        }
        i += 1;
    }
    false
}

fn field_present(field: &str, introns: &[Intron]) -> (r: bool)
    ensures
        r == has_field(intron_views(introns@), field@),
{
    let ghost views = intron_views(introns@);
    let mut i: usize = 0;
    while i < introns.len()
        invariant
            0 <= i <= introns@.len(),
            views == intron_views(introns@),
            forall|j: int| 0 <= j < i ==> (#[trigger] views[j]).field_name != field@,
        decreases introns@.len() - i,
    {
        if string_is(&introns[i].field_name, field) {
            proof {
                assert(views[i as int].field_name == field@);
            }
            return true;
        }
        i += 1;
    }
    false
}

/// The filter for one clause.
pub fn clause_introns_fast_match(clause: &Clause, introns: &[Intron]) -> (r: bool)
    ensures
        r == fast_match(clause@, intron_views(introns@)),
{
    match clause {
        Clause::ExactMatch { field_intron, operand_wire, .. } => intron_hash_matches_field(
            field_intron.as_str(),
            operand_wire.as_slice(),
            introns,
        ),
        Clause::RangeMatch { field_intron, .. } => field_present(field_intron.as_str(), introns),
        Clause::LikePattern { field_intron, .. } => field_present(field_intron.as_str(), introns),
    }
}

/// The filter for all clauses together; without clauses everything passes.
pub fn guide_introns_fast_match(pattern: &GuidePattern, introns: &[Intron]) -> (r: bool)
    ensures
        r == all_fast_match(pattern@, intron_views(introns@)),
{
    let mut i: usize = 0;
    while i < pattern.clauses.len()
        invariant
            0 <= i <= pattern.clauses@.len(),
            forall|j: int| 0 <= j < i ==> fast_match(#[trigger] pattern@.clauses[j], intron_views(introns@)),
        decreases pattern.clauses@.len() - i,
    {
        if !clause_introns_fast_match(&pattern.clauses[i], introns) {
            proof {
                assert(!fast_match(pattern@.clauses[i as int], intron_views(introns@)));
            }
            return false;
        }
        i += 1;
    }
    true
}

} // verus!
