use dnadb_engine::query::scan::{
    adaptive_parallel_chunk_size, scan_strands, scan_strands_parallel, scan_strands_sequential,
    split_ranges_for_parallel, ScanConfig, PARALLEL_SCAN_CHUNK_MAX, PARALLEL_SCAN_CHUNK_MIN,
};
use dnadb_engine::encoding::encode_bytes_to_codons;
use dnadb_engine::processor::strand_from_wal_payload;
use dnadb_engine::query::guide::{Clause, GuidePattern, RangeOp};
use dnadb_engine::query::segment::{SegmentBlockMeta, SegmentMeta};

fn pattern_payload_exact(wire: &[u8]) -> GuidePattern {
    GuidePattern {
        collection: "c".into(),
        clauses: vec![Clause::ExactMatch {
            field_intron: "_payload".into(),
            operand_wire: wire.to_vec(),
            operand_codons: encode_bytes_to_codons(wire),
        }],
        includes: vec![],
        overlay: None,
        order_by: None,
        limit: None,
    }
}

#[test]
fn parallel_matches_sequential_sorted() {
    let mut strands: Vec<_> = (0u64..48)
        .map(|i| strand_from_wal_payload(7, i + 1, format!("s{i}").as_bytes()))
        .collect();
    // One strand uses a payload we will query for
    strands[12] = strand_from_wal_payload(7, 99, b"needle");

    let pat = pattern_payload_exact(b"needle");
    let cfg = ScanConfig {
        collection_id: Some(7),
        ..ScanConfig::default()
    };

    let mut a = scan_strands_sequential(&pat, &strands, &cfg);
    a.sort_unstable();
    let mut b = scan_strands_parallel(&pat, &strands, &cfg);
    b.sort_unstable();
    let mut c = scan_strands(&pat, &strands, &cfg);
    c.sort_unstable();

    assert_eq!(a, b);
    assert_eq!(a, c);
    assert_eq!(a.len(), 1);
    assert_eq!(a[0], strand_from_wal_payload(7, 99, b"needle").signature);
}

#[test]
fn collection_filter_excludes_other_ids() {
    let s1 = strand_from_wal_payload(1, 1, b"a");
    let s2 = strand_from_wal_payload(2, 2, b"a");
    let strands = vec![s1, s2];
    let pat = pattern_payload_exact(b"a");
    let cfg = ScanConfig {
        collection_id: Some(1),
        ..ScanConfig::default()
    };
    let hits = scan_strands_parallel(&pat, &strands, &cfg);
    assert_eq!(hits.len(), 1);
    assert_eq!(hits[0], strands[0].signature);
}

#[test]
fn empty_strands_empty_hits() {
    let pat = pattern_payload_exact(b"x");
    let hits = scan_strands(&pat, &[], &ScanConfig::default());
    assert!(hits.is_empty());
}

#[test]
fn range_clause_requires_intron_field() {
    let s = strand_from_wal_payload(1, 1, b"data");
    let pat = GuidePattern {
        collection: "c".into(),
        clauses: vec![Clause::RangeMatch {
            field_intron: "_payload".into(),
            operator: RangeOp::GreaterThan,
            operand_wire: vec![0],
            operand_codons: encode_bytes_to_codons(&[0u8]),
        }],
        includes: vec![],
        overlay: None,
        order_by: None,
        limit: None,
    };
    let hits = scan_strands_sequential(&pat, std::slice::from_ref(&s), &ScanConfig::default());
    assert_eq!(hits.len(), 1);
}

#[test]
fn segment_meta_can_skip_non_matching_segment() {
    let mut strands: Vec<_> = (0u64..20)
        .map(|i| strand_from_wal_payload(1, i + 1, format!("user{i}@example.com").as_bytes()))
        .collect();
    strands[12] = strand_from_wal_payload(1, 13, b"target@gmail.com");
    let ranges = vec![(0, 10), (10, 20)];
    let metas = vec![
        SegmentMeta::build(1, &strands[0..10], &["_payload"], 512, 3),
        SegmentMeta::build(2, &strands[10..20], &["_payload"], 512, 3),
    ];
    let pat = GuidePattern {
        collection: "c".into(),
        clauses: vec![Clause::ExactMatch {
            field_intron: "_payload".into(),
            operand_wire: b"target@gmail.com".to_vec(),
            operand_codons: encode_bytes_to_codons(b"target@gmail.com"),
        }],
        includes: vec![],
        overlay: None,
        order_by: None,
        limit: None,
    };
    let cfg = ScanConfig {
        collection_id: Some(1),
        segment_metas: Some(metas),
        segment_ranges: Some(ranges),
        ..ScanConfig::default()
    };
    let hits = scan_strands(&pat, &strands, &cfg);
    assert_eq!(hits.len(), 1);
    assert_eq!(hits[0], strand_from_wal_payload(1, 13, b"target@gmail.com").signature);
}

#[test]
fn block_meta_can_skip_non_matching_blocks_within_segment() {
    let mut strands: Vec<_> = (0u64..20)
        .map(|i| strand_from_wal_payload(1, i + 1, format!("user{i}@example.com").as_bytes()))
        .collect();
    strands[15] = strand_from_wal_payload(1, 16, b"target@gmail.com");
    let ranges = vec![(0, 20)];
    let metas = vec![SegmentMeta::build(1, &strands[0..20], &["_payload"], 512, 3)];
    let block_ranges = vec![vec![(0, 10), (10, 20)]];
    let block_metas = vec![vec![
        SegmentBlockMeta::build(1, &strands[0..10], &["_payload"], 512, 3),
        SegmentBlockMeta::build(2, &strands[10..20], &["_payload"], 512, 3),
    ]];
    let pat = GuidePattern {
        collection: "c".into(),
        clauses: vec![Clause::ExactMatch {
            field_intron: "_payload".into(),
            operand_wire: b"target@gmail.com".to_vec(),
            operand_codons: encode_bytes_to_codons(b"target@gmail.com"),
        }],
        includes: vec![],
        overlay: None,
        order_by: None,
        limit: None,
    };
    let cfg = ScanConfig {
        collection_id: Some(1),
        segment_metas: Some(metas),
        segment_ranges: Some(ranges),
        segment_block_metas: Some(block_metas),
        segment_block_ranges: Some(block_ranges),
        ..ScanConfig::default()
    };
    let hits = scan_strands(&pat, &strands, &cfg);
    assert_eq!(hits.len(), 1);
    assert_eq!(hits[0], strand_from_wal_payload(1, 16, b"target@gmail.com").signature);
}

#[test]
fn parallel_range_split_chunks_large_ranges() {
    let ranges = vec![(0, 10_000), (20_000, 25_000)];
    let split = split_ranges_for_parallel(&ranges, 4096, 30_000);
    assert_eq!(
        split,
        vec![
            (0, 4096),
            (4096, 8192),
            (8192, 10_000),
            (20_000, 24_096),
            (24_096, 25_000),
        ]
    );
}

#[test]
fn adaptive_chunk_size_is_bounded_for_standard_hardware() {
    let small = adaptive_parallel_chunk_size(1_000, 4);
    let medium = adaptive_parallel_chunk_size(100_000, 8);
    let large = adaptive_parallel_chunk_size(10_000_000, 16);
    assert!(small >= PARALLEL_SCAN_CHUNK_MIN);
    assert!(small <= PARALLEL_SCAN_CHUNK_MAX);
    assert!(medium >= PARALLEL_SCAN_CHUNK_MIN);
    assert!(medium <= PARALLEL_SCAN_CHUNK_MAX);
    assert!(large >= PARALLEL_SCAN_CHUNK_MIN);
    assert!(large <= PARALLEL_SCAN_CHUNK_MAX);
    assert!(large >= medium);
}
