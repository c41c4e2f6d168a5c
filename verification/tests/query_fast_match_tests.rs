use dnadb_engine::query::fast_match::{clause_introns_fast_match, guide_introns_fast_match, intron_hash_matches_field};
use dnadb_engine::encoding::encode_bytes_to_codons;
use dnadb_engine::processor::strand_from_wal_payload;
use dnadb_engine::query::guide::{Clause, GuidePattern, RangeOp};

#[test]
fn exact_payload_matches_wal_strand_intron() {
    let strand = strand_from_wal_payload(1, 1, b"events");
    let introns = &strand.introns;
    assert!(intron_hash_matches_field("_payload", b"events", introns));

    let clause = Clause::ExactMatch {
        field_intron: "_payload".into(),
        operand_wire: b"events".to_vec(),
        operand_codons: encode_bytes_to_codons(b"events"),
    };
    assert!(clause_introns_fast_match(&clause, introns));
}

#[test]
fn exact_payload_rejects_wrong_wire() {
    let strand = strand_from_wal_payload(1, 1, b"events");
    assert!(!intron_hash_matches_field("_payload", b"other", &strand.introns));
}

#[test]
fn range_requires_field_intron_present() {
    let strand = strand_from_wal_payload(1, 1, b"x");
    let clause = Clause::RangeMatch {
        field_intron: "_payload".into(),
        operator: RangeOp::GreaterThan,
        operand_wire: vec![0],
        operand_codons: encode_bytes_to_codons(&[0]),
    };
    assert!(clause_introns_fast_match(&clause, &strand.introns));

    let clause_missing = Clause::RangeMatch {
        field_intron: "age".into(),
        operator: RangeOp::GreaterThan,
        operand_wire: vec![1],
        operand_codons: encode_bytes_to_codons(&[1]),
    };
    assert!(!clause_introns_fast_match(&clause_missing, &strand.introns));
}

#[test]
fn guide_and_semantics_empty_clauses() {
    let strand = strand_from_wal_payload(1, 1, b"a");
    let g = GuidePattern {
        collection: "c".into(),
        clauses: vec![],
        includes: vec![],
        overlay: None,
        order_by: None,
        limit: None,
    };
    assert!(guide_introns_fast_match(&g, &strand.introns));

    let g2 = GuidePattern {
        collection: "c".into(),
        clauses: vec![
            Clause::ExactMatch {
                field_intron: "_payload".into(),
                operand_wire: b"a".to_vec(),
                operand_codons: encode_bytes_to_codons(b"a"),
            },
            Clause::RangeMatch {
                field_intron: "_payload".into(),
                operator: RangeOp::GreaterOrEqual,
                operand_wire: vec![0],
                operand_codons: encode_bytes_to_codons(&[0]),
            },
        ],
        includes: vec![],
        overlay: None,
        order_by: None,
        limit: None,
    };
    assert!(guide_introns_fast_match(&g2, &strand.introns));
}
