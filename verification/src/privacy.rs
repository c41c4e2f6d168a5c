//! Masking: a record as an overlay shows it.
use crate::json_value::{clone_value, RecordView};
use crate::overlay::{opens, shows, ResolvedOverlay, ResolvedView};
use crate::support::str_map::StrMap;
use crate::support::text::owned;
use vstd::prelude::*;

pub use crate::json_value::Record;

verus! {

/// Why a record is not shown at all.
#[derive(Debug, PartialEq, Eq)]
pub enum PrivacyError {
    CollectionDenied(String),
}

/// The fields of a record that an overlay shows.
pub open spec fn masked(record: RecordView, v: ResolvedView, collection: Seq<char>) -> RecordView {
    Map::new(
        |k: Seq<char>| record.dom().contains(k) && shows(v, collection, k),
        |k: Seq<char>| record[k],
    )
}

/// A copy of the record with only the fields that the overlay shows.
pub fn mask_record_for_overlay(collection: &str, record: &Record, overlay: &ResolvedOverlay) -> (r: Result<
    Record,
    PrivacyError,
>)
    ensures
        match r {
            Ok(m) => opens(overlay@, collection@) && m@ == masked(record@, overlay@, collection@),
            Err(PrivacyError::CollectionDenied(c)) => !opens(overlay@, collection@) && c@ == collection@,
        },
{
    if !overlay.can_access_collection(collection) {
        return Err(PrivacyError::CollectionDenied(owned(collection)));
    }
    let n = record.len();
    let ghost keys = record.keys();
    let mut out: Record = StrMap::new();
    let mut i: usize = 0;
    while i < n
        invariant
            0 <= i <= n,
            n == keys.len(),
            keys == record.keys(),
            forall|k: Seq<char>| #[trigger]
                out@.dom().contains(k) <==> keys.take(i as int).contains(k) && shows(overlay@, collection@, k),
            forall|k: Seq<char>| #[trigger] out@.dom().contains(k) ==> out@[k] == record@[k],
        decreases n - i,
    {
        let key = record.key(i);
        let ghost before = out@;
        if overlay.is_field_visible(collection, key.as_str()) {
            let _ = out.insert(key.clone(), clone_value(record.value(i)));
        }
        proof {
            let done = keys.take(i as int);
            let now = keys.take(i + 1);
            assert forall|k: Seq<char>| #[trigger] now.contains(k) <==> done.contains(k) || k == key@ by {
                if now.contains(k) {
                    let j = now.index_of(k);
                    if j < i {
                        assert(done[j] == k);
                    }
                }
                if done.contains(k) {
                    assert(now[done.index_of(k)] == k);
                }
                assert(now[i as int] == key@);
            }
            assert forall|k: Seq<char>| #[trigger]
                out@.dom().contains(k) <==> now.contains(k) && shows(overlay@, collection@, k) by {
                assert(before.dom().contains(k) <==> done.contains(k) && shows(overlay@, collection@, k));
            }
        }
        i += 1;
    }
    proof {
        assert(keys.take(n as int) =~= keys);
        assert(out@ =~= masked(record@, overlay@, collection@)) by {
            assert forall|k: Seq<char>| #[trigger] out@.dom().contains(k) <==> masked(
                record@,
                overlay@,
                collection@,
            ).dom().contains(k) by {
                assert(keys.contains(k) <==> record@.dom().contains(k));
            }
        }
    }
    Ok(out)
}

/// Masks every record, in order; a closed collection refuses any record at all.
pub fn mask_records_for_overlay(collection: &str, records: &[Record], overlay: &ResolvedOverlay) -> (r: Result<
    Vec<Record>,
    PrivacyError,
>)
    ensures
        match r {
            Ok(ms) => {
                &&& records@.len() == 0 || opens(overlay@, collection@)
                &&& ms@.len() == records@.len()
                &&& forall|i: int|
                    0 <= i < ms@.len() ==> (#[trigger] ms@[i])@ == masked(records@[i]@, overlay@, collection@)
            },
            Err(PrivacyError::CollectionDenied(c)) => records@.len() > 0 && !opens(overlay@, collection@) && c@
                == collection@,
        },
{
    let mut out: Vec<Record> = Vec::new();
    let mut i: usize = 0;
    while i < records.len()
        invariant
            0 <= i <= records@.len(),
            out@.len() == i,
            i == 0 || opens(overlay@, collection@),
            forall|k: int| 0 <= k < i ==> (#[trigger] out@[k])@ == masked(records@[k]@, overlay@, collection@),
        decreases records@.len() - i,
    {
        match mask_record_for_overlay(collection, &records[i], overlay) {
            Ok(m) => {
                out.push(m);
            },
            Err(e) => {
                return Err(e);
            },
        }
        i += 1;
    }
    Ok(out)
}

/// Masking never leaks: every field of a masked record is one that the overlay shows, with the
/// value that it had; and masking twice is masking once.
pub proof fn law_mask_never_leaks(record: RecordView, v: ResolvedView, collection: Seq<char>, field: Seq<char>)
    ensures
        masked(record, v, collection).dom().contains(field) ==> shows(v, collection, field) && record.dom().contains(
            field,
        ) && masked(record, v, collection)[field] == record[field],
        masked(masked(record, v, collection), v, collection) =~= masked(record, v, collection),
{
}

} // verus!
