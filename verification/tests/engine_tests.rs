use dnadb_engine::complement::{find_corruption, generate_complement, is_valid_pairing};
use dnadb_engine::digest::blake3_hex;
use dnadb_engine::encoding::{
    decode_codons_to_bytes, encode_bytes_to_codons, EncodedPayload, EncodingError,
};
use dnadb_engine::group_commit::GroupCommitPolicy;
use dnadb_engine::histone::{
    classify_temperature, compact_segments, infer_semantic_key, plan_compaction,
    plan_semantic_colocation, CompactionRecord, CompactionSegment, Temperature,
};
use dnadb_engine::lifecycle::{
    evaluate_lifecycle_action, ExpireAction, LifecycleDecision, LifecyclePolicy,
};
use dnadb_engine::model::{Codon, Intron, RefreshPolicy, Strand};
use dnadb_engine::processor::{fnv1a64, strand_from_wal_payload_at};
use dnadb_engine::query::ast::{QueryAst, QueryLiteral, SortDirection, WhereOp};
use dnadb_engine::query::bloom::BloomFilter;
use dnadb_engine::query::codebook::{build_codebook, MAX_VALUE_CODES_PER_FIELD};
use dnadb_engine::query::compile::{compile_query, CompileError};
use dnadb_engine::query::fetch::{fetch, QuerySession};
use dnadb_engine::query::fields::intron_payload_bytes;
use dnadb_engine::query::guide::{Clause, GuidePattern, RangeOp};
use dnadb_engine::query::index::{GlobalHashIndex, GlobalHashIndexError, GlobalRangeIndex};
use dnadb_engine::query::like_util::like_matches;
use dnadb_engine::query::literal::{as_numeric_u64, literal_wire, query_literal_to_u64, read_literal};
use dnadb_engine::query::matching::{
    clause_matches_strand, decode_required_field_values, matches_all_clauses, project_rows,
    verify_clauses,
};
use dnadb_engine::query::plan_cache::{record_count_bucket, QueryPlanCache, QueryPlanner};
use dnadb_engine::query::planner::{choose_path, CollectionStats, Fraction, QueryPath};
use dnadb_engine::query::scan::ScanConfig;
use dnadb_engine::query::segment::{should_skip_segment, SegmentMeta};
use dnadb_engine::query::signatures::{
    hits_to_strands, resolve_include_path, strand_by_signature,
};
use dnadb_engine::query::workload_stats::{record_fetch, record_fetch_stream, snapshot};
use dnadb_engine::runtime::{collection_of_log_file, list_known_collections, stable_collection_id};
use dnadb_engine::support::big_nat::BigNat;
use dnadb_engine::support::num_text::{hex_text, parse_u64, u64_text, NumberError};
use dnadb_engine::support::sort::{sort_texts, str_less};
use dnadb_engine::support::str_set::StrSet;
use std::time::Duration;

fn exact(field: &str, wire: &[u8]) -> Clause {
    Clause::ExactMatch {
        field_intron: field.to_string(),
        operand_wire: wire.to_vec(),
        operand_codons: encode_bytes_to_codons(wire),
    }
}

fn range(field: &str, operator: RangeOp, wire: &[u8]) -> Clause {
    Clause::RangeMatch {
        field_intron: field.to_string(),
        operator,
        operand_wire: wire.to_vec(),
        operand_codons: encode_bytes_to_codons(wire),
    }
}

fn pattern(clauses: Vec<Clause>) -> GuidePattern {
    GuidePattern {
        collection: "c".to_string(),
        clauses,
        includes: vec![],
        overlay: None,
        order_by: None,
        limit: None,
    }
}

#[test]
fn digests_are_the_published_ones() {
    assert_eq!(
        blake3_hex(b""),
        "af1349b9f5f9a1a6a0404dea36dcc9499bcb25c9adc112b7cc9a93cae41f3262"
    );
    assert_eq!(fnv1a64(b""), 0xcbf2_9ce4_8422_2325);
    assert_eq!(fnv1a64(b"a"), 0xaf63_dc4c_8601_ec8c);
}

#[test]
fn bytes_are_spelled_in_base_four() {
    let e = encode_bytes_to_codons(&[0b00_01_10_11]);
    assert_eq!(e.codons, vec![Codon(0, 1, 2), Codon(3, 0, 0)]);
    assert_eq!(e.original_len, 1);
    assert_eq!(decode_codons_to_bytes(&e), Ok(vec![0b00_01_10_11]));
}

#[test]
fn bad_codons_do_not_decode() {
    let bad = EncodedPayload { codons: vec![Codon(4, 0, 0), Codon(0, 0, 0)], original_len: 1 };
    assert_eq!(decode_codons_to_bytes(&bad), Err(EncodingError::InvalidSymbol(4)));
    let short = EncodedPayload { codons: vec![Codon(0, 0, 0)], original_len: 1 };
    assert_eq!(decode_codons_to_bytes(&short), Err(EncodingError::InsufficientSymbols));
    assert!(Codon::new(0, 4, 0).is_none());
    assert_eq!(Codon::new(1, 2, 3).map(|c| c.values()), Some([1, 2, 3]));
}

#[test]
fn complement_of_a_complement_is_the_strand() {
    let strand = encode_bytes_to_codons(b"pairs").codons;
    let pair = generate_complement(&strand);
    assert_eq!(generate_complement(&pair), strand);
    assert!(find_corruption(&strand, &pair).is_empty());
    assert!(!is_valid_pairing(&strand, &strand));
}

#[test]
fn commit_stays_due_once_it_is() {
    let policy = GroupCommitPolicy { max_batch: 10, max_interval: Some(Duration::from_millis(5)) };
    assert!(!policy.due(3, 4_999_999));
    assert!(policy.due(3, 5_000_000));
    assert!(policy.due(10, 0));
    let plain = GroupCommitPolicy { max_batch: 2, max_interval: None };
    assert!(!plain.due(1, u128::MAX));
    assert!(plain.due(2, 0));
}

#[test]
fn spent_blocks_freeze_at_any_time() {
    assert_eq!(classify_temperature(10, 10, 0, false), Temperature::Frozen);
    assert_eq!(classify_temperature(10, 10, 0, true), Temperature::Hot);
}

#[test]
fn semantic_key_spells_the_reference() {
    let mut s = strand_from_wal_payload_at(3, 1, b"x", 0);
    assert_eq!(infer_semantic_key(&s), "collection:3");
    s.introns.push(Intron {
        field_name: "user_id".to_string(),
        codon_offset: 0,
        codon_length: 0,
        value_hash: 0,
        references_strand: Some(0xA1u64.to_le_bytes()),
    });
    assert_eq!(infer_semantic_key(&s), "user:a100000000000000");
}

#[test]
fn nothing_cold_is_nothing_to_compact() {
    let hot = CompactionSegment { segment_id: 1, temperature: Temperature::Hot, records: vec![] };
    assert!(plan_compaction(&[hot], 9).is_none());
}

#[test]
fn compaction_keeps_every_record() {
    let rec = |id: u64, key: Option<&str>| CompactionRecord {
        record_id: id,
        clustering_key: key.map(|s| s.to_string()),
        payload: vec![id as u8],
    };
    let s = CompactionSegment {
        segment_id: 1,
        temperature: Temperature::Cold,
        records: vec![rec(4, None), rec(3, Some("b")), rec(2, Some("a")), rec(1, None)],
    };
    let out = compact_segments(vec![s], 5);
    let mut ids: Vec<u64> = out.records.iter().map(|r| r.record_id).collect();
    ids.sort_unstable();
    assert_eq!(ids, vec![1, 2, 3, 4]);
    assert!(out.records.iter().all(|r| r.payload == vec![r.record_id as u8]));
}

#[test]
fn expired_strand_follows_its_policy() {
    let mut s = strand_from_wal_payload_at(1, 1, b"x", 0);
    s.telomere.immortal = false;
    s.telomere.count = 0;
    let with = |refresh, expire| {
        LifecyclePolicy::telomere_opt_in(5, refresh, expire, Duration::from_secs(0))
    };
    assert_eq!(
        evaluate_lifecycle_action(&s, with(RefreshPolicy::Manual, ExpireAction::Archive), 10),
        LifecycleDecision::Archive
    );
    assert_eq!(
        evaluate_lifecycle_action(&s, with(RefreshPolicy::Manual, ExpireAction::Delete), 10),
        LifecycleDecision::SoftDelete
    );
    s.telomere.immortal = true;
    assert_eq!(
        evaluate_lifecycle_action(&s, with(RefreshPolicy::Manual, ExpireAction::Delete), 10),
        LifecycleDecision::Keep
    );
}

#[test]
fn literals_round_trip_through_their_wire() {
    let all = [
        QueryLiteral::String("naïve".to_string()),
        QueryLiteral::U64(u64::MAX),
        QueryLiteral::I64(-7),
        QueryLiteral::Bool(true),
    ];
    for lit in &all {
        let wire = literal_wire(lit).expect("wire");
        assert_eq!(read_literal(&wire).as_ref(), Some(lit));
    }
    assert!(read_literal(&[9, 0, 0, 0]).is_none());
    assert_eq!(query_literal_to_u64(&QueryLiteral::I64(-7)), None);
    assert_eq!(query_literal_to_u64(&QueryLiteral::I64(7)), Some(7));
    assert_eq!(as_numeric_u64(b"42"), Some(42));
    assert_eq!(as_numeric_u64(b"4x"), None);
    assert_eq!(as_numeric_u64(&literal_wire(&QueryLiteral::U64(9)).expect("wire")), Some(9));
}

#[test]
fn literal_wire_is_the_bincode_one() {
    assert_eq!(
        literal_wire(&QueryLiteral::U64(5)).expect("wire").len(),
        bincode::serialize(&(0u32, 5u64)).expect("wire").len()
    );
    let text = literal_wire(&QueryLiteral::String("ab".to_string())).expect("wire");
    assert_eq!(&text[4..], bincode::serialize("ab").expect("wire").as_slice());
}

#[test]
fn only_texts_can_be_patterns() {
    let ast = QueryAst::new("users").where_field("email", WhereOp::Like, QueryLiteral::U64(1));
    assert!(matches!(compile_query(&ast, None), Err(CompileError::UnsupportedOperator(_))));
    let ast = QueryAst::new("");
    assert!(matches!(compile_query(&ast, None), Err(CompileError::EmptyCollection)));
}

#[test]
fn patterns_match_as_in_sql() {
    assert!(like_matches("user@gmail.com", "%@gmail.com"));
    assert!(like_matches("anything", "%"));
    assert!(like_matches("abc", "a_c"));
    assert!(!like_matches("abbc", "a_c"));
    assert!(like_matches("exact", "exact"));
    assert!(!like_matches("exactly", "exact"));
    assert!(like_matches("xxneedlexx", "%needle%"));
    assert!(like_matches("", "%%"));
}

#[test]
fn bloom_has_no_false_negatives() {
    let mut f = BloomFilter::new(512, 3);
    assert!(!f.might_contain(b"a"));
    for i in 0..40u8 {
        f.add(&[i]);
    }
    assert!((0..40u8).all(|i| f.might_contain(&[i])));
    assert_eq!(f.hash_count(), 3);
}

#[test]
fn codebook_codes_the_most_frequent_values() {
    let d = build_codebook(vec![5, 7, 5, 5, 7, 9]);
    assert_eq!(d.total_values, 6);
    assert_eq!(d.covered_values, 6);
    assert!(d.is_complete());
    assert_eq!(d.entries[0].value_hash, 5);
    assert_eq!(d.entries[0].frequency, 3);
    let wide = build_codebook((0..300).collect());
    assert_eq!(wide.entries.len(), MAX_VALUE_CODES_PER_FIELD);
    assert!(!wide.is_complete());
}

#[test]
fn numbers_outside_the_range_skip_a_segment() {
    let strands = vec![
        strand_from_wal_payload_at(1, 1, b"10", 0),
        strand_from_wal_payload_at(1, 2, b"20", 0),
    ];
    let meta = SegmentMeta::build(1, &strands, &["_payload"], 512, 3);
    assert!(should_skip_segment(&meta, &pattern(vec![range("_payload", RangeOp::GreaterThan, b"20")])));
    assert!(!should_skip_segment(&meta, &pattern(vec![range("_payload", RangeOp::GreaterThan, b"19")])));
    assert!(should_skip_segment(&meta, &pattern(vec![range("_payload", RangeOp::LessThan, b"10")])));
    assert!(!should_skip_segment(&meta, &pattern(vec![exact("_payload", b"10")])));
}

#[test]
fn payload_is_read_back_from_its_intron() {
    let s = strand_from_wal_payload_at(1, 1, b"payload", 0);
    assert_eq!(intron_payload_bytes(&s, &s.introns[0]), Some(b"payload".to_vec()));
    let mut far = s.introns[0].clone();
    far.codon_offset = 1000;
    assert_eq!(intron_payload_bytes(&s, &far), None);
}

#[test]
fn clauses_are_checked_on_values() {
    let s = strand_from_wal_payload_at(1, 1, b"15", 0);
    assert!(matches_all_clauses(&s, &pattern(vec![exact("_payload", b"15")])));
    assert!(matches_all_clauses(&s, &pattern(vec![range("_payload", RangeOp::GreaterThan, b"14")])));
    assert!(!matches_all_clauses(&s, &pattern(vec![range("_payload", RangeOp::LessThan, b"14")])));
    assert!(!matches_all_clauses(&s, &pattern(vec![exact("other", b"15")])));
    let invalid = strand_from_wal_payload_at(1, 2, &[0xff, b'x'], 0);
    let like = Clause::LikePattern {
        field_intron: "_payload".to_string(),
        pattern: "\u{fffd}x".to_string(),
    };
    assert_eq!(verify_clauses(vec![&s, &invalid], &pattern(vec![like])).len(), 1);
}

#[test]
fn rows_are_projected_to_their_fields() {
    let s = strand_from_wal_payload_at(1, 3, b"v", 8);
    let mut fields = StrSet::new();
    fields.insert("_payload".to_string());
    let rows = project_rows(&[&s], &fields);
    assert_eq!(rows[0].version, 3);
    assert_eq!(rows[0].created_at, 8);
    assert_eq!(rows[0].fields.get("_payload"), Some(&b"v".to_vec()));
}

#[test]
fn indexes_survive_their_bytes() {
    let strands = vec![
        strand_from_wal_payload_at(1, 1, b"30", 0),
        strand_from_wal_payload_at(1, 2, b"10", 0),
        strand_from_wal_payload_at(1, 3, b"20", 0),
    ];
    let idx = GlobalRangeIndex::build("_payload", &strands);
    assert_eq!(idx.entries.iter().map(|e| e.0).collect::<Vec<_>>(), vec![10, 20, 30]);
    let loaded = GlobalRangeIndex::from_bytes(&idx.to_bytes().expect("save")).expect("load");
    assert_eq!(loaded.entries, idx.entries);
    assert_eq!(loaded.field, "_payload");
    assert_eq!(
        loaded.lookup_between_inclusive(10, 20),
        vec![strands[1].signature, strands[2].signature]
    );
    assert_eq!(loaded.lookup(RangeOp::NotEqual, 20).len(), 2);
    assert!(matches!(
        GlobalHashIndex::from_bytes(&[1]),
        Err(GlobalHashIndexError::Serialize(_))
    ));
    assert!(GlobalRangeIndex::from_bytes(&[1]).is_err());
}

#[test]
fn plan_cache_drops_the_least_recently_used() {
    let mut cache = QueryPlanCache::new(2);
    cache.insert(1, QueryPath::Direct);
    cache.insert(2, QueryPath::GuidedScan);
    assert!(matches!(cache.get(1), Some(QueryPath::Direct)));
    cache.insert(3, QueryPath::Index { field: "f".to_string() });
    assert_eq!(cache.len(), 2);
    assert!(cache.get(2).is_none());
    assert!(cache.get(1).is_some());
    assert!(cache.get(3).is_some());
    cache.clear();
    assert_eq!(cache.len(), 0);
}

#[test]
fn operands_do_not_shape_the_plan_key() {
    let mut planner = QueryPlanner::new();
    let mut stats = CollectionStats::fake();
    stats.add_index("f".to_string());
    planner.choose_path_cached(&pattern(vec![exact("f", b"a")]), &stats);
    planner.choose_path_cached(&pattern(vec![exact("f", b"b")]), &stats);
    assert_eq!(planner.planner_cache_stats(), (1, 1));
    planner.choose_path_cached(&pattern(vec![exact("g", b"b")]), &stats);
    assert_eq!(planner.planner_cache_stats(), (1, 2));
}

#[test]
fn record_counts_fall_into_buckets() {
    for (records, bucket) in [(0, 0), (1, 0), (2, 1), (1023, 9), (1024, 10), (1_000_000, 19)] {
        assert_eq!(record_count_bucket(records), bucket);
    }
}

#[test]
fn fractions_are_clamped() {
    assert_eq!(Fraction::new(3, 2).clamped_parts(), (2, 2));
    assert_eq!(Fraction::new(1, 4).parts(), (1, 4));
    let mut stats = CollectionStats::fake();
    stats.record_count = 1_000_000;
    stats.estimated_bloom_skip_rate = Fraction::new(99, 100);
    stats.add_index("f".to_string());
    stats.index_selectivity.insert("f".to_string(), Fraction::new(2, 1));
    assert!(matches!(
        choose_path(&pattern(vec![exact("f", b"a")]), &stats),
        QueryPath::GuidedScan
    ));
}

#[test]
fn answers_are_complete_and_ordered() {
    let strands: Vec<Strand> = (1..=6u64)
        .map(|i| strand_from_wal_payload_at(1, i, if i % 2 == 0 { b"even" } else { b"odd_" }, 100 - i))
        .collect();
    let mut p = pattern(vec![exact("_payload", b"even")]);
    p.order_by = Some(("created_at".to_string(), SortDirection::Asc));
    let mut session = QuerySession::new();
    let rows = fetch(&mut session, &p, &strands, &ScanConfig::default()).rows;
    assert_eq!(rows.iter().map(|s| s.version).collect::<Vec<_>>(), vec![6, 4, 2]);
    assert_eq!(session.workload.fetch_calls, 1);
    record_fetch(&mut session.workload);
    record_fetch_stream(&mut session.workload);
    assert_eq!(snapshot(&session.workload).fetch_calls, 2);
    assert_eq!(snapshot(&session.workload).fetch_stream_calls, 1);
}

#[test]
fn logged_payload_is_answered_on_every_path() {
    let strands: Vec<Strand> = (1..=40u64)
        .map(|i| strand_from_wal_payload_at(7, i, format!("p{}", i % 4).as_bytes(), i))
        .collect();
    let mut indexed = StrSet::new();
    indexed.insert("_payload".to_string());
    let by_index = ScanConfig {
        collection_id: Some(7),
        indexed_fields: Some(indexed),
        ..ScanConfig::default()
    };
    let by_scan = ScanConfig { collection_id: Some(7), ..ScanConfig::default() };
    for cfg in [&by_index, &by_scan] {
        let mut session = QuerySession::new();
        let p = pattern(vec![exact("_payload", b"p3")]);
        let mut got: Vec<u64> =
            fetch(&mut session, &p, &strands, cfg).rows.iter().map(|s| s.version).collect();
        got.sort_unstable();
        assert_eq!(got, (1..=40u64).filter(|i| i % 4 == 3).collect::<Vec<_>>());
    }
}

#[test]
fn signatures_lead_back_to_strands() {
    let strands = vec![
        strand_from_wal_payload_at(1, 1, b"a", 0),
        strand_from_wal_payload_at(1, 2, b"b", 0),
    ];
    let index = strand_by_signature(&strands);
    assert_eq!(index.get(&strands[1].signature).map(|s| s.version), Some(2));
    assert!(index.get(&[9; 8]).is_none());
    let rows = hits_to_strands(&index, &[strands[1].signature, [9; 8], strands[0].signature]);
    assert_eq!(rows.iter().map(|s| s.version).collect::<Vec<_>>(), vec![2, 1]);
}

#[test]
fn collection_number_is_the_head_of_its_digest() {
    let d = blake3::hash(b"users");
    let b = d.as_bytes();
    assert_eq!(stable_collection_id("users"), u32::from_le_bytes([b[0], b[1], b[2], b[3]]));
}

#[test]
fn collections_are_found_by_their_logs() {
    assert_eq!(collection_of_log_file("users.wal"), Some("users".to_string()));
    assert_eq!(collection_of_log_file(".wal"), None);
    assert_eq!(collection_of_log_file("  .wal"), None);
    assert_eq!(collection_of_log_file("users.meta"), None);
    let open = vec!["zeta".to_string(), "beta".to_string()];
    let files = vec!["beta.wal".to_string(), "alpha.wal".to_string(), "x.meta".to_string()];
    assert_eq!(list_known_collections(&open, &files), vec!["alpha", "beta", "zeta"]);
}

#[test]
fn numbers_and_bytes_as_text() {
    assert_eq!(u64_text(0), "0");
    assert_eq!(u64_text(u64::MAX), "18446744073709551615");
    assert_eq!(hex_text(&[0, 255, 16]), "00ff10");
    assert_eq!(parse_u64(b"18446744073709551615"), Ok(u64::MAX));
    assert_eq!(parse_u64(b"18446744073709551616"), Err(NumberError::TooLarge));
    assert_eq!(parse_u64(b"-1"), Err(NumberError::InvalidDigit));
}

#[test]
fn texts_are_sorted_by_their_characters() {
    let v = vec!["b".to_string(), "".to_string(), "ab".to_string(), "a".to_string()];
    assert_eq!(sort_texts(v), vec!["", "a", "ab", "b"]);
    assert!(str_less("a", "b"));
    assert!(!str_less("b", "b"));
}

#[test]
fn large_products_are_exact() {
    let a = BigNat::of(u64::MAX).times(u64::MAX);
    let b = a.plus(&BigNat::of(1));
    assert!(a.less(&b));
    assert!(!b.less(&a));
    assert!(!a.less(&a));
}

#[test]
fn payload_clauses_need_no_decoding_before() {
    let mut fields = StrSet::new();
    fields.insert("_payload".to_string());
    let like = |p: &str| Clause::LikePattern {
        field_intron: "_payload".to_string(),
        pattern: p.to_string(),
    };
    for (payload, clause, expected) in [
        (b"9".as_slice(), range("_payload", RangeOp::GreaterThan, b"10"), true),
        (b"10", range("_payload", RangeOp::GreaterThan, b"10"), false),
        (b"10", exact("_payload", b"10"), true),
        (b"10", exact("_payload", b"1"), false),
        (b"abc", like("a%c"), true),
        (b"abc", like("a_"), false),
    ] {
        let s = strand_from_wal_payload_at(1, 1, payload, 0);
        let decoded = decode_required_field_values(&s, &fields);
        assert_eq!(clause_matches_strand(&s, &clause, Some(&decoded)), expected);
        assert_eq!(clause_matches_strand(&s, &clause, None), expected);
    }
}

#[test]
fn other_fields_compare_codons_when_nothing_was_decoded() {
    let mut s = strand_from_wal_payload_at(1, 1, b"red", 0);
    s.introns[0].field_name = "color".to_string();
    assert!(clause_matches_strand(&s, &exact("color", b"red"), None));
    assert!(!clause_matches_strand(&s, &exact("color", b"blue"), None));
    assert!(!clause_matches_strand(&s, &exact("_payload", b"red"), None));
    assert!(clause_matches_strand(&s, &range("color", RangeOp::LessThan, b"rose"), None));
    let sig = s.signature;
    assert!(clause_matches_strand(&s, &exact("_signature", &sig), None));
}

#[test]
fn decoded_values_are_those_that_can_be_read() {
    let mut s = strand_from_wal_payload_at(1, 1, b"red", 0);
    let mut far = s.introns[0].clone();
    far.field_name = "far".to_string();
    far.codon_offset = 1000;
    s.introns.push(far);
    let mut fields = StrSet::new();
    for f in ["_payload", "far", "none"] {
        fields.insert(f.to_string());
    }
    let decoded = decode_required_field_values(&s, &fields);
    assert_eq!(decoded.len(), 1);
    assert_eq!(decoded.get("_payload"), Some(&vec![b"red".to_vec()]));
}

#[test]
fn colocation_does_not_depend_on_the_order() {
    let a = strand_from_wal_payload_at(1, 1, b"a", 0);
    let b = strand_from_wal_payload_at(2, 2, b"b", 0);
    let c = strand_from_wal_payload_at(1, 3, b"c", 0);
    let x = plan_semantic_colocation(&[a.clone(), b.clone(), c.clone()]);
    let y = plan_semantic_colocation(&[c, b, a]);
    assert_eq!(x.len(), 2);
    assert_eq!(x.len(), y.len());
    for (p, q) in x.iter().zip(&y) {
        assert_eq!(p.semantic_key, q.semantic_key);
        assert_eq!(p.members, q.members);
        assert_eq!(p.block_id, q.block_id);
    }
}

#[test]
fn joined_include_path_is_two_paths() {
    let node = |seq: u64, links: &[(&str, u64)]| {
        let mut s = strand_from_wal_payload_at(1, seq, b"n", 0);
        for (name, to) in links {
            s.introns.push(Intron {
                field_name: name.to_string(),
                codon_offset: 0,
                codon_length: 0,
                value_hash: 0,
                references_strand: Some(to.to_le_bytes()),
            });
        }
        s
    };
    let strands = vec![
        node(1, &[("a", 2), ("a", 3), ("a", 99)]),
        node(2, &[("b", 4)]),
        node(3, &[("b", 4), ("b", 5)]),
        node(4, &[]),
        node(5, &[]),
    ];
    let index = strand_by_signature(&strands);
    let versions = |root: usize, path: &str| -> Vec<u64> {
        resolve_include_path(&strands[root], path, &index).iter().map(|s| s.version).collect()
    };
    assert_eq!(versions(0, "a"), vec![2, 3]);
    assert_eq!(versions(0, "a.b"), vec![4, 4, 5]);
    assert_eq!(versions(0, "a.b"), [versions(1, "b"), versions(2, "b")].concat());
    assert!(versions(0, "..").is_empty());
}
