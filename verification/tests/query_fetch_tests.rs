use dnadb_engine::query::fetch::{
    dead_reckoning_signature_lookup, fetch, fetch_one, fetch_stream, fetch_with_includes,
    QuerySession,
};
use dnadb_engine::query::signatures::{resolve_include_path, strand_by_signature};
use dnadb_engine::support::str_set::StrSet;
use dnadb_engine::encoding::encode_bytes_to_codons;
use dnadb_engine::model::{Intron, RefreshPolicy, Strand, Telomere};
use dnadb_engine::processor::{fnv1a64, strand_from_wal_payload};
use dnadb_engine::query::ast::SortDirection;
use dnadb_engine::query::guide::{Clause, GuidePattern, RangeOp};
use dnadb_engine::query::planner::{choose_path, CollectionStats, QueryPath};
use dnadb_engine::query::scan::ScanConfig;

fn strand_with_payload(collection_id: u32, seq: u64, payload: &[u8], created: u64) -> Strand {
    let mut s = strand_from_wal_payload(collection_id, seq, payload);
    s.created_at = created;
    s
}

fn pattern_exact_payload(wire: &[u8]) -> GuidePattern {
    GuidePattern {
        collection: "c".into(),
        clauses: vec![Clause::ExactMatch {
            field_intron: "_payload".into(),
            operand_wire: wire.to_vec(),
            operand_codons: encode_bytes_to_codons(wire),
        }],
        includes: vec![],
        overlay: None,
        order_by: None,
        limit: None,
    }
}

fn payload_only() -> StrSet {
    let mut out = StrSet::new();
    out.insert("_payload".to_string());
    out
}

#[test]
fn order_by_created_at_and_limit() {
    let mut session = QuerySession::new();
    let strands = vec![
        strand_with_payload(1, 1, b"a", 100),
        strand_with_payload(1, 2, b"b", 300),
        strand_with_payload(1, 3, b"a", 200),
    ];
    let mut pat = pattern_exact_payload(b"a");
    pat.order_by = Some(("created_at".into(), SortDirection::Desc));
    pat.limit = Some(1);

    let out = fetch(&mut session, &pat, &strands, &ScanConfig::default());
    assert_eq!(out.rows.len(), 1);
    assert_eq!(out.rows[0].version, 3);

    let one = fetch_one(&mut session, &pat, &strands, &ScanConfig::default()).expect("one");
    assert_eq!(one.version, 3);
}

#[test]
fn include_multi_hop() {
    let mut session = QuerySession::new();
    let order_sig = 10u64.to_le_bytes();
    let product_sig = 20u64.to_le_bytes();

    let product = Strand {
        signature: product_sig,
        collection_id: 1,
        codons: vec![],
        complement: vec![],
        introns: vec![],
        telomere: Telomere {
            count: 0,
            immortal: true,
            last_refresh: 0,
            refresh_policy: RefreshPolicy::Immortal,
        },
        epigenetic_tags: vec![],
        version: 20,
        created_at: 0,
        updated_at: 0,
    };

    let order = Strand {
        signature: order_sig,
        collection_id: 1,
        codons: vec![],
        complement: vec![],
        introns: vec![Intron {
            field_name: "products".into(),
            codon_offset: 0,
            codon_length: 0,
            value_hash: 0,
            references_strand: Some(product_sig),
        }],
        telomere: Telomere {
            count: 0,
            immortal: true,
            last_refresh: 0,
            refresh_policy: RefreshPolicy::Immortal,
        },
        epigenetic_tags: vec![],
        version: 10,
        created_at: 0,
        updated_at: 0,
    };

    let user_sig = 1u64.to_le_bytes();
    let wire = b"user1";
    let mut user = strand_from_wal_payload(1, 1, wire);
    user.signature = user_sig;
    user.introns.push(Intron {
        field_name: "orders".into(),
        codon_offset: 0,
        codon_length: 0,
        value_hash: fnv1a64(wire),
        references_strand: Some(order_sig),
    });

    let strands = vec![user, order, product];
    let index = strand_by_signature(&strands);

    let chain = resolve_include_path(&strands[0], "orders.products", &index);
    assert_eq!(chain.len(), 1);
    assert_eq!(chain[0].signature, product_sig);

    let mut pat = pattern_exact_payload(wire);
    pat.includes = vec!["orders.products".into()];

    let with = fetch_with_includes(&mut session, &pat, &strands, &ScanConfig::default());
    assert_eq!(with.rows.len(), 1);
    let inc = &with.rows[0].included[0];
    assert_eq!(inc.0, "orders.products");
    assert_eq!(inc.1.len(), 1);
    assert_eq!(inc.1[0].signature, product_sig);
}

#[test]
fn like_pattern_is_verified_after_fast_match() {
    let mut session = QuerySession::new();
    let strands = vec![
        strand_with_payload(1, 1, b"user1@gmail.com", 100),
        strand_with_payload(1, 2, b"user2@example.com", 200),
        strand_with_payload(1, 3, b"user3@gmail.com", 300),
    ];
    let pattern = GuidePattern {
        collection: "c".into(),
        clauses: vec![Clause::LikePattern {
            field_intron: "_payload".into(),
            pattern: "%@gmail.com".into(),
        }],
        includes: vec![],
        overlay: None,
        order_by: None,
        limit: None,
    };
    let out = fetch(&mut session, &pattern, &strands, &ScanConfig::default());
    assert_eq!(out.rows.len(), 2);
    assert_eq!(out.rows[0].version, 1);
    assert_eq!(out.rows[1].version, 3);
}

#[test]
fn range_not_equal_is_verified_after_fast_match() {
    let mut session = QuerySession::new();
    let strands = vec![
        strand_with_payload(1, 1, b"alpha", 100),
        strand_with_payload(1, 2, b"beta", 200),
    ];
    let pattern = GuidePattern {
        collection: "c".into(),
        clauses: vec![Clause::RangeMatch {
            field_intron: "_payload".into(),
            operator: RangeOp::NotEqual,
            operand_wire: b"beta".to_vec(),
            operand_codons: encode_bytes_to_codons(b"beta"),
        }],
        includes: vec![],
        overlay: None,
        order_by: None,
        limit: None,
    };
    let out = fetch(&mut session, &pattern, &strands, &ScanConfig::default());
    assert_eq!(out.rows.len(), 1);
    assert_eq!(out.rows[0].version, 1);
}

#[test]
fn direct_signature_path_returns_expected_row() {
    let mut session = QuerySession::new();
    let strands = vec![
        strand_with_payload(1, 1, b"a", 100),
        strand_with_payload(1, 2, b"b", 200),
    ];
    let p = GuidePattern {
        collection: "c".into(),
        clauses: vec![Clause::ExactMatch {
            field_intron: "_signature".into(),
            operand_wire: strands[1].signature.to_vec(),
            operand_codons: encode_bytes_to_codons(&strands[1].signature),
        }],
        includes: vec![],
        overlay: None,
        order_by: None,
        limit: Some(1),
    };
    let stats = CollectionStats::fake();
    assert!(matches!(choose_path(&p, &stats), QueryPath::Direct));
    let out = fetch(&mut session, &p, &strands, &ScanConfig::default());
    assert_eq!(out.rows.len(), 1);
    assert_eq!(out.rows[0].signature, strands[1].signature);
}

#[test]
fn indexed_exact_path_returns_expected_rows() {
    let mut session = QuerySession::new();
    let strands = vec![
        strand_with_payload(1, 1, b"a@example.com", 100),
        strand_with_payload(1, 2, b"b@example.com", 200),
        strand_with_payload(1, 3, b"a@example.com", 300),
    ];
    let p = pattern_exact_payload(b"a@example.com");
    let cfg = ScanConfig {
        collection_id: Some(1),
        indexed_fields: Some(payload_only()),
        ..ScanConfig::default()
    };
    let out = fetch(&mut session, &p, &strands, &cfg);
    assert_eq!(out.rows.len(), 2);
    assert!(out.rows.iter().any(|s| s.version == 1));
    assert!(out.rows.iter().any(|s| s.version == 3));
}

#[test]
fn indexed_range_path_returns_expected_rows() {
    let mut session = QuerySession::new();
    let strands = vec![
        strand_with_payload(1, 1, b"10", 100),
        strand_with_payload(1, 2, b"20", 200),
        strand_with_payload(1, 3, b"30", 300),
    ];
    let p = GuidePattern {
        collection: "c".into(),
        clauses: vec![Clause::RangeMatch {
            field_intron: "_payload".into(),
            operator: RangeOp::GreaterThan,
            operand_wire: b"15".to_vec(),
            operand_codons: encode_bytes_to_codons(b"15"),
        }],
        includes: vec![],
        overlay: None,
        order_by: None,
        limit: None,
    };
    let cfg = ScanConfig {
        collection_id: Some(1),
        indexed_fields: Some(payload_only()),
        ..ScanConfig::default()
    };
    let out = fetch(&mut session, &p, &strands, &cfg);
    assert_eq!(out.rows.len(), 2);
    assert!(out.rows.iter().any(|s| s.version == 2));
    assert!(out.rows.iter().any(|s| s.version == 3));
}

#[test]
fn indexed_between_path_returns_expected_rows() {
    let mut session = QuerySession::new();
    let strands = vec![
        strand_with_payload(1, 1, b"10", 100),
        strand_with_payload(1, 2, b"20", 200),
        strand_with_payload(1, 3, b"30", 300),
    ];
    let p = GuidePattern {
        collection: "c".into(),
        clauses: vec![
            Clause::RangeMatch {
                field_intron: "_payload".into(),
                operator: RangeOp::GreaterOrEqual,
                operand_wire: b"15".to_vec(),
                operand_codons: encode_bytes_to_codons(b"15"),
            },
            Clause::RangeMatch {
                field_intron: "_payload".into(),
                operator: RangeOp::LessOrEqual,
                operand_wire: b"25".to_vec(),
                operand_codons: encode_bytes_to_codons(b"25"),
            },
        ],
        includes: vec![],
        overlay: None,
        order_by: None,
        limit: None,
    };
    let cfg = ScanConfig {
        collection_id: Some(1),
        indexed_fields: Some(payload_only()),
        ..ScanConfig::default()
    };
    let mut stats = CollectionStats::fake();
    stats.record_count = 3;
    stats.add_index("_payload".to_string());
    assert!(matches!(choose_path(&p, &stats), QueryPath::Index { .. }));
    let out = fetch(&mut session, &p, &strands, &cfg);
    assert_eq!(out.rows.len(), 1);
    assert_eq!(out.rows[0].version, 2);
}

#[test]
fn shape_cache_hits_on_repeated_query_shape() {
    let mut session = QuerySession::new();
    let before = session.planner.planner_cache_stats();
    let a = b"shape-cache-probe-a-9f3c2e1d@dnadb.test";
    let b = b"shape-cache-probe-b-9f3c2e1d@dnadb.test";
    let strands = vec![
        strand_with_payload(1, 1, a, 100),
        strand_with_payload(1, 2, b, 200),
        strand_with_payload(1, 3, a, 300),
    ];
    let cfg = ScanConfig {
        collection_id: Some(1),
        indexed_fields: Some(payload_only()),
        ..ScanConfig::default()
    };

    let p1 = pattern_exact_payload(a);
    let p2 = pattern_exact_payload(b);
    let _ = fetch(&mut session, &p1, &strands, &cfg);
    let after_first = session.planner.planner_cache_stats();
    let _ = fetch(&mut session, &p2, &strands, &cfg);
    let after_second = session.planner.planner_cache_stats();
    assert!(
        after_first.1 > before.1,
        "first run should increment cache misses"
    );
    assert!(
        after_second.0 > after_first.0,
        "second run of same shape should produce a cache hit"
    );
}

#[test]
fn fetch_stream_emits_rows_without_order_by() {
    let mut session = QuerySession::new();
    let strands = vec![
        strand_with_payload(1, 1, b"a@example.com", 100),
        strand_with_payload(1, 2, b"b@example.com", 200),
        strand_with_payload(1, 3, b"a@example.com", 300),
    ];
    let p = pattern_exact_payload(b"a@example.com");
    let mut versions = Vec::new();
    let emitted = fetch_stream(&mut session, &p, &strands, &ScanConfig::default(), |row| {
        versions.push(row.version);
        true
    });
    assert_eq!(emitted, 2);
    assert_eq!(versions.len(), 2);
    assert!(versions.contains(&1));
    assert!(versions.contains(&3));
}

#[test]
fn fetch_stream_respects_limit_and_early_stop() {
    let mut session = QuerySession::new();
    let strands = vec![
        strand_with_payload(1, 1, b"a@example.com", 100),
        strand_with_payload(1, 2, b"a@example.com", 200),
        strand_with_payload(1, 3, b"a@example.com", 300),
    ];
    let mut p = pattern_exact_payload(b"a@example.com");
    p.limit = Some(2);
    let mut seen = Vec::new();
    let emitted = fetch_stream(&mut session, &p, &strands, &ScanConfig::default(), |row| {
        seen.push(row.version);
        seen.len() < 2
    });
    assert_eq!(emitted, 1);
    assert_eq!(seen.len(), 2, "callback can stop before counting second row");
}

#[test]
fn fetch_stream_falls_back_to_fetch_for_ordered_queries() {
    let mut session = QuerySession::new();
    let strands = vec![
        strand_with_payload(1, 1, b"a", 100),
        strand_with_payload(1, 2, b"a", 300),
        strand_with_payload(1, 3, b"a", 200),
    ];
    let mut p = pattern_exact_payload(b"a");
    p.order_by = Some(("created_at".into(), SortDirection::Desc));
    p.limit = Some(2);
    let mut out = Vec::new();
    let emitted = fetch_stream(&mut session, &p, &strands, &ScanConfig::default(), |row| {
        out.push(row.version);
        true
    });
    assert_eq!(emitted, 2);
    assert_eq!(out, vec![2, 3]);
}

#[test]
fn dead_reckoning_signature_lookup_hits_near_estimate() {
    let strands: Vec<_> = (1u64..=500)
        .map(|i| strand_with_payload(1, i, format!("u{i}").as_bytes(), i))
        .collect();
    let p = GuidePattern {
        collection: "c".into(),
        clauses: vec![Clause::ExactMatch {
            field_intron: "_signature".into(),
            operand_wire: 321u64.to_le_bytes().to_vec(),
            operand_codons: encode_bytes_to_codons(&321u64.to_le_bytes()),
        }],
        includes: vec![],
        overlay: None,
        order_by: None,
        limit: Some(1),
    };
    let out = dead_reckoning_signature_lookup(&p, &strands).expect("direct path applies");
    assert_eq!(out.len(), 1);
    assert_eq!(out[0].version, 321);
}

#[test]
fn dead_reckoning_signature_lookup_out_of_range_returns_none() {
    let strands: Vec<_> = (1u64..=100)
        .map(|i| strand_with_payload(1, i, format!("u{i}").as_bytes(), i))
        .collect();
    let p = GuidePattern {
        collection: "c".into(),
        clauses: vec![Clause::ExactMatch {
            field_intron: "_signature".into(),
            operand_wire: 9999u64.to_le_bytes().to_vec(),
            operand_codons: encode_bytes_to_codons(&9999u64.to_le_bytes()),
        }],
        includes: vec![],
        overlay: None,
        order_by: None,
        limit: Some(1),
    };
    assert!(dead_reckoning_signature_lookup(&p, &strands).is_none());
}
