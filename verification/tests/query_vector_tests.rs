use dnadb_engine::encoding::encode_bytes_to_codons;
use dnadb_engine::processor::strand_from_wal_payload;
use dnadb_engine::query::guide::{Clause, GuidePattern};

use dnadb_engine::query::vector::filter_rows_vectorized;
use std::cell::Cell;

fn match_payload(s: &dnadb_engine::model::Strand, c: &Clause) -> bool {
    match c {
        Clause::ExactMatch {
            field_intron,
            operand_wire,
            ..
        } => {
            if field_intron != "_payload" {
                return false;
            }
            s.introns.iter().any(|i| {
                i.field_name == "_payload"
                    && dnadb_engine::processor::fnv1a64(operand_wire) == i.value_hash
            })
        }
        _ => false,
    }
}

#[test]
fn vector_filter_matches_expected_rows() {
    let rows: Vec<_> = (0..20u64)
        .map(|i| strand_from_wal_payload(1, i + 1, format!("u{i}@x.com").as_bytes()))
        .collect();
    let refs: Vec<&dnadb_engine::model::Strand> = rows.iter().collect();
    let needle = b"u7@x.com";
    let pattern = GuidePattern {
        collection: "c".into(),
        clauses: vec![Clause::ExactMatch {
            field_intron: "_payload".into(),
            operand_wire: needle.to_vec(),
            operand_codons: encode_bytes_to_codons(needle),
        }],
        includes: vec![],
        overlay: None,
        order_by: None,
        limit: None,
    };
    let out = filter_rows_vectorized(refs, &pattern, 8, match_payload);
    assert_eq!(out.len(), 1);
    assert_eq!(out[0].signature, strand_from_wal_payload(1, 8, needle).signature);
}

fn exact(wire: &[u8]) -> Clause {
    Clause::ExactMatch {
        field_intron: "_payload".into(),
        operand_wire: wire.to_vec(),
        operand_codons: encode_bytes_to_codons(wire),
    }
}

#[test]
fn matcher_is_not_asked_again_about_a_row_that_failed() {
    let rows: Vec<_> = [&b"a"[..], b"b", b"a"]
        .iter()
        .enumerate()
        .map(|(i, p)| strand_from_wal_payload(1, i as u64 + 1, p))
        .collect();
    let refs: Vec<&dnadb_engine::model::Strand> = rows.iter().collect();
    let mut pattern = GuidePattern {
        collection: "c".into(),
        clauses: vec![exact(b"a"), exact(b"a"), exact(b"b")],
        includes: vec![],
        overlay: None,
        order_by: None,
        limit: None,
    };
    let calls = Cell::new(0);
    let counting = |s: &dnadb_engine::model::Strand, c: &Clause| {
        calls.set(calls.get() + 1);
        match_payload(s, c)
    };
    assert!(filter_rows_vectorized(refs.clone(), &pattern, 2, counting).is_empty());
    assert_eq!(calls.get(), 7);

    calls.set(0);
    pattern.clauses.clear();
    let kept = filter_rows_vectorized(refs, &pattern, 2, |s: &dnadb_engine::model::Strand, c: &Clause| {
        calls.set(calls.get() + 1);
        match_payload(s, c)
    });
    assert_eq!(kept.len(), 3);
    assert_eq!(calls.get(), 0);
}
