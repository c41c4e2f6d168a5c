use dnadb_engine::processor::strand_from_wal_payload;
use dnadb_engine::query::RangeOp;

use dnadb_engine::query::index::{
    build_exact_hash_index, exact_lookup_signatures, GlobalHashIndex, GlobalRangeIndex,
};

#[test]
fn hash_index_returns_expected_signatures_for_payload() {
    let s1 = strand_from_wal_payload(1, 1, b"alice@example.com");
    let s2 = strand_from_wal_payload(1, 2, b"bob@example.com");
    let s3 = strand_from_wal_payload(1, 3, b"alice@example.com");
    let idx = build_exact_hash_index(&[s1.clone(), s2.clone(), s3.clone()], "_payload");
    let alice = exact_lookup_signatures(&idx, b"alice@example.com");
    assert_eq!(alice.len(), 2);
    assert!(alice.contains(&s1.signature));
    assert!(alice.contains(&s3.signature));
    let none = exact_lookup_signatures(&idx, b"none@example.com");
    assert!(none.is_empty());
}

#[test]
fn global_hash_index_persists_and_loads() {
    let s1 = strand_from_wal_payload(1, 1, b"alice@example.com");
    let s2 = strand_from_wal_payload(1, 2, b"bob@example.com");
    let idx = GlobalHashIndex::build("_payload", &[s1.clone(), s2.clone()]);
    let stored = idx.to_bytes().expect("save");
    let loaded = GlobalHashIndex::from_bytes(&stored).expect("load");
    assert_eq!(loaded.field, "_payload");
    let alice = loaded.lookup(b"alice@example.com");
    assert_eq!(alice.len(), 1);
    assert_eq!(alice[0], s1.signature);
}

#[test]
fn global_range_index_supports_range_lookups() {
    let s1 = strand_from_wal_payload(1, 1, b"10");
    let s2 = strand_from_wal_payload(1, 2, b"20");
    let s3 = strand_from_wal_payload(1, 3, b"30");
    let idx = GlobalRangeIndex::build("_payload", &[s1.clone(), s2.clone(), s3.clone()]);
    let gt_15 = idx.lookup(RangeOp::GreaterThan, 15);
    assert_eq!(gt_15.len(), 2);
    assert!(gt_15.contains(&s2.signature));
    assert!(gt_15.contains(&s3.signature));
    let lte_20 = idx.lookup(RangeOp::LessOrEqual, 20);
    assert_eq!(lte_20.len(), 2);
}

#[test]
fn stored_range_index_is_the_field_and_its_entries() {
    let idx = GlobalRangeIndex::build("_payload", &[strand_from_wal_payload(1, 7, b"10")]);
    let mut expected = 8u64.to_le_bytes().to_vec();
    expected.extend(b"_payload");
    expected.extend(1u64.to_le_bytes());
    expected.extend(10u64.to_le_bytes());
    expected.extend(7u64.to_le_bytes());
    assert_eq!(idx.to_bytes().expect("save"), expected);
    expected.push(9);
    let loaded = GlobalRangeIndex::from_bytes(&expected).expect("load");
    assert_eq!(loaded.entries, vec![(10, 7u64.to_le_bytes())]);
    assert!(GlobalRangeIndex::from_bytes(&expected[..30]).is_err());
}

#[test]
fn stored_hash_index_is_the_field_and_its_postings() {
    let s1 = strand_from_wal_payload(1, 1, b"ab");
    let s2 = strand_from_wal_payload(1, 2, b"ab");
    let idx = GlobalHashIndex::build("_payload", &[s1, s2]);
    let mut expected = 8u64.to_le_bytes().to_vec();
    expected.extend(b"_payload");
    expected.extend(1u64.to_le_bytes());
    expected.extend(2u64.to_le_bytes());
    expected.extend(b"ab");
    expected.extend(2u64.to_le_bytes());
    expected.extend(1u64.to_le_bytes());
    expected.extend(2u64.to_le_bytes());
    assert_eq!(idx.to_bytes().expect("save"), expected);
    assert!(GlobalHashIndex::from_bytes(&expected[..40]).is_err());
}
