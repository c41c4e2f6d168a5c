use dnadb_engine::encoding::encode_bytes_to_codons;
use dnadb_engine::query::guide::{Clause, GuidePattern, RangeOp};

use dnadb_engine::query::planner::{choose_path, CollectionStats, Fraction, QueryPath};

#[test]
fn planner_chooses_direct_for_signature_lookup() {
    let p = GuidePattern {
        collection: "c".into(),
        clauses: vec![Clause::ExactMatch {
            field_intron: "_signature".into(),
            operand_wire: 42u64.to_le_bytes().to_vec(),
            operand_codons: encode_bytes_to_codons(&42u64.to_le_bytes()),
        }],
        includes: vec![],
        overlay: None,
        order_by: None,
        limit: Some(1),
    };
    let stats = CollectionStats::fake();
    assert!(matches!(choose_path(&p, &stats), QueryPath::Direct));
}

#[test]
fn planner_chooses_index_when_available() {
    let p = GuidePattern {
        collection: "c".into(),
        clauses: vec![Clause::ExactMatch {
            field_intron: "email".into(),
            operand_wire: b"alice@x.com".to_vec(),
            operand_codons: encode_bytes_to_codons(b"alice@x.com"),
        }],
        includes: vec![],
        overlay: None,
        order_by: None,
        limit: None,
    };
    let mut stats = CollectionStats::fake();
    stats.add_index("email".to_string());
    assert!(matches!(
        choose_path(&p, &stats),
        QueryPath::Index { field } if field == "email"
    ));
}

#[test]
fn planner_falls_back_to_guided_scan_without_index() {
    let p = GuidePattern {
        collection: "c".into(),
        clauses: vec![Clause::ExactMatch {
            field_intron: "unlisted_field".into(),
            operand_wire: b"value".to_vec(),
            operand_codons: encode_bytes_to_codons(b"value"),
        }],
        includes: vec![],
        overlay: None,
        order_by: None,
        limit: None,
    };
    let stats = CollectionStats::fake();
    assert!(matches!(choose_path(&p, &stats), QueryPath::GuidedScan));
}

#[test]
fn planner_prefers_guided_scan_when_index_is_non_selective() {
    let p = GuidePattern {
        collection: "c".into(),
        clauses: vec![Clause::ExactMatch {
            field_intron: "email".into(),
            operand_wire: b"alice@x.com".to_vec(),
            operand_codons: encode_bytes_to_codons(b"alice@x.com"),
        }],
        includes: vec![],
        overlay: None,
        order_by: None,
        limit: None,
    };
    let mut stats = CollectionStats::fake();
    stats.record_count = 1_000_000;
    stats.estimated_bloom_skip_rate = Fraction::new(95, 100);
    stats.add_index("email".to_string());
    stats.index_selectivity.insert("email".into(), Fraction::new(9, 10));
    assert!(matches!(choose_path(&p, &stats), QueryPath::GuidedScan));
}

#[test]
fn planner_picks_most_selective_index_from_multiple_candidates() {
    let p = GuidePattern {
        collection: "c".into(),
        clauses: vec![
            Clause::ExactMatch {
                field_intron: "status".into(),
                operand_wire: b"active".to_vec(),
                operand_codons: encode_bytes_to_codons(b"active"),
            },
            Clause::ExactMatch {
                field_intron: "email".into(),
                operand_wire: b"alice@x.com".to_vec(),
                operand_codons: encode_bytes_to_codons(b"alice@x.com"),
            },
        ],
        includes: vec![],
        overlay: None,
        order_by: None,
        limit: None,
    };
    let mut stats = CollectionStats::fake();
    stats.record_count = 1_000_000;
    stats.add_index("status".to_string());
    stats.add_index("email".to_string());
    stats.index_selectivity.insert("status".into(), Fraction::new(5, 10));
    stats.index_selectivity.insert("email".into(), Fraction::new(1, 1000));
    assert!(matches!(
        choose_path(&p, &stats),
        QueryPath::Index { field } if field == "email"
    ));
}

#[test]
fn planner_direct_lookup_works_when_signature_clause_not_first() {
    let p = GuidePattern {
        collection: "c".into(),
        clauses: vec![
            Clause::ExactMatch {
                field_intron: "_signature".into(),
                operand_wire: 7u64.to_le_bytes().to_vec(),
                operand_codons: encode_bytes_to_codons(&7u64.to_le_bytes()),
            },
        ],
        includes: vec![],
        overlay: None,
        order_by: None,
        limit: Some(1),
    };
    let stats = CollectionStats::fake();
    assert!(matches!(choose_path(&p, &stats), QueryPath::Direct));
}

#[test]
fn planner_prefers_index_for_between_on_same_field() {
    let p = GuidePattern {
        collection: "c".into(),
        clauses: vec![
            Clause::RangeMatch {
                field_intron: "score".into(),
                operator: RangeOp::GreaterOrEqual,
                operand_wire: b"10".to_vec(),
                operand_codons: encode_bytes_to_codons(b"10"),
            },
            Clause::RangeMatch {
                field_intron: "score".into(),
                operator: RangeOp::LessOrEqual,
                operand_wire: b"20".to_vec(),
                operand_codons: encode_bytes_to_codons(b"20"),
            },
        ],
        includes: vec![],
        overlay: None,
        order_by: None,
        limit: None,
    };
    let mut stats = CollectionStats::fake();
    stats.record_count = 3;
    stats.add_index("score".to_string());
    assert!(matches!(
        choose_path(&p, &stats),
        QueryPath::Index { field } if field == "score"
    ));
}

#[test]
fn planner_prefers_index_for_point_lookup_with_limit_one() {
    let p = GuidePattern {
        collection: "c".into(),
        clauses: vec![Clause::ExactMatch {
            field_intron: "email".into(),
            operand_wire: b"alice@x.com".to_vec(),
            operand_codons: encode_bytes_to_codons(b"alice@x.com"),
        }],
        includes: vec![],
        overlay: None,
        order_by: None,
        limit: Some(1),
    };
    let mut stats = CollectionStats::fake();
    stats.add_index("email".to_string());
    assert!(matches!(
        choose_path(&p, &stats),
        QueryPath::Index { field } if field == "email"
    ));
}
