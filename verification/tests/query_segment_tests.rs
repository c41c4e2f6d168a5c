use dnadb_engine::encoding::encode_bytes_to_codons;
use dnadb_engine::processor::strand_from_wal_payload;
use dnadb_engine::query::guide::{Clause, GuidePattern};

use dnadb_engine::query::segment::{should_skip_block, should_skip_segment, SegmentBlockMeta, SegmentMeta};

#[test]
fn bloom_skips_eq_when_absent() {
    let seg = vec![
        strand_from_wal_payload(1, 1, b"alice@example.com"),
        strand_from_wal_payload(1, 2, b"bob@example.com"),
    ];
    let meta = SegmentMeta::build(1, &seg, &["_payload"], 512, 3);
    let p = GuidePattern {
        collection: "c".into(),
        clauses: vec![Clause::ExactMatch {
            field_intron: "_payload".into(),
            operand_wire: b"charlie@example.com".to_vec(),
            operand_codons: encode_bytes_to_codons(b"charlie@example.com"),
        }],
        includes: vec![],
        overlay: None,
        order_by: None,
        limit: None,
    };
    assert!(should_skip_segment(&meta, &p));
}

#[test]
fn block_bloom_skips_eq_when_absent() {
    let seg = vec![
        strand_from_wal_payload(1, 1, b"alice@example.com"),
        strand_from_wal_payload(1, 2, b"bob@example.com"),
    ];
    let meta = SegmentBlockMeta::build(1, &seg, &["_payload"], 512, 3);
    let p = GuidePattern {
        collection: "c".into(),
        clauses: vec![Clause::ExactMatch {
            field_intron: "_payload".into(),
            operand_wire: b"charlie@example.com".to_vec(),
            operand_codons: encode_bytes_to_codons(b"charlie@example.com"),
        }],
        includes: vec![],
        overlay: None,
        order_by: None,
        limit: None,
    };
    assert!(should_skip_block(&meta, &p));
}

#[test]
fn dictionary_stats_capture_frequency_coverage() {
    let seg = vec![
        strand_from_wal_payload(1, 1, b"A"),
        strand_from_wal_payload(1, 2, b"A"),
        strand_from_wal_payload(1, 3, b"B"),
        strand_from_wal_payload(1, 4, b"C"),
    ];
    let meta = SegmentMeta::build(1, &seg, &["_payload"], 512, 3);
    let field = dnadb_engine::query::segment::field_hash("_payload");
    let dict = meta
        .field_dictionaries
        .get(field)
        .expect("dictionary for tracked field");
    assert!(dict.total_values >= 4);
    assert!(!dict.entries.is_empty());
    assert!(dict.covered_values > 0);
    assert!(meta.dictionary_entry_count() >= 1);
    let (covered, total) = meta.dictionary_coverage();
    assert!(total > 0);
    assert!(covered as f64 / total as f64 > 0.0);
}

#[test]
fn dictionary_complete_when_unique_values_fit_codebook() {
    let seg = vec![
        strand_from_wal_payload(1, 1, b"A"),
        strand_from_wal_payload(1, 2, b"A"),
        strand_from_wal_payload(1, 3, b"B"),
    ];
    let meta = SegmentMeta::build(1, &seg, &["_payload"], 512, 3);
    let field = dnadb_engine::query::segment::field_hash("_payload");
    let dict = meta
        .field_dictionaries
        .get(field)
        .expect("dictionary for tracked field");
    assert!(dict.is_complete());
    assert!(dict.contains_hash(dnadb_engine::processor::fnv1a64(b"A")));
    assert!(!dict.contains_hash(dnadb_engine::processor::fnv1a64(b"missing")));
}

#[test]
fn payload_in_a_segment_is_never_skipped() {
    let seg: Vec<_> = (0..300u64)
        .map(|i| strand_from_wal_payload(1, i + 1, format!("row{i}").as_bytes()))
        .collect();
    let meta = SegmentMeta::build(1, &seg, &["_payload"], 512, 3);
    assert_eq!(meta.record_count, 300);
    for i in 0..300u64 {
        let wire = format!("row{i}").into_bytes();
        let p = GuidePattern {
            collection: "c".into(),
            clauses: vec![Clause::ExactMatch {
                field_intron: "_payload".into(),
                operand_codons: encode_bytes_to_codons(&wire),
                operand_wire: wire,
            }],
            includes: vec![],
            overlay: None,
            order_by: None,
            limit: None,
        };
        assert!(!should_skip_segment(&meta, &p));
    }
}
