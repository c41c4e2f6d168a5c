use dnadb_engine::bench::buckets::{bucket_positions, regime_path};
use dnadb_engine::bench::durable::{build_batch, plan_batches};
use dnadb_engine::bench::ingest::{
    chunk_rows, drain_step, milestone_table, DrainStep, IngestAction, IngestSetup, MixedIngest,
    SustainedMeter, DRAIN_LIMIT_NS,
};
use dnadb_engine::bench::lag::{
    analyze_burst, last_wal_lag_before_t, phase_split, probe_row, LagSample,
};
use dnadb_engine::bench::load::{
    build_segment_and_block_metadata, make_payload, prepare_records_chunk,
};
use dnadb_engine::bench::load_options::{parse_load_args, BenchMode, BenchPhase, MIN_MMAP_BYTES};
use dnadb_engine::bench::materializer::{readable_documents, MaterializerTick};
use dnadb_engine::bench::options::{number_option, read_list, read_number, trim_text, value_at};
use dnadb_engine::bench::postings::{
    is_rare_row, pick_search_term, push_posting_cap, rare_doc_mod, Postings, SearchSelectivity,
};
use dnadb_engine::bench::raw_options::{Parsed, RawOption, RawOptions, Scenario};
use dnadb_engine::codec::{BincodeStrandCodec, StrandCodec};
use dnadb_engine::encoding::encode_bytes_to_codons;
use dnadb_engine::processor::{encode_complement_blob, strand_from_wal_payload_at, strand_signature};
use dnadb_engine::query::{scan_strands, Clause, GuidePattern, ScanConfig};
use dnadb_engine::recovery::WalEntry;
use dnadb_engine::support::num_text::NumberError;
use std::collections::VecDeque;

fn args(items: &[&str]) -> Vec<String> {
    items.iter().map(|s| s.to_string()).collect()
}

#[test]
fn times_fall_into_their_buckets() {
    let ts = [0, 999_999, 1_000_000, 5_500_000];
    let got = bucket_positions(&ts, 1).expect("buckets");
    assert_eq!(got, vec![vec![0, 1], vec![2], vec![], vec![], vec![], vec![3]]);
    assert!(bucket_positions(&[], 1).is_none());
}

#[test]
fn regimes_are_summed_up() {
    let path = regime_path(&args(&["calm", "calm", "busy", "calm"]));
    assert_eq!(path.dwell_buckets.get("calm"), Some(&3));
    assert_eq!(path.dwell_buckets.get("busy"), Some(&1));
    assert_eq!(path.sticky, 1);
    assert_eq!(path.total_transitions, 3);
    assert_eq!(path.transition_sequence.len(), 3);
    assert_eq!(path.transition_counts.len(), 3);
}

#[test]
fn batches_divide_evenly() {
    assert_eq!(plan_batches(50_000, 10), Some((5_000, 50_000)));
    assert_eq!(plan_batches(11, 4), Some((2, 8)));
    assert_eq!(plan_batches(3, 4), None);
    assert_eq!(plan_batches(3, 0), Some((3, 3)));
}

#[test]
fn posts_are_numbered() {
    let posts = build_batch(7, 2);
    assert_eq!(posts.len(), 2);
    assert_eq!(posts[1].id, 8);
    assert_eq!(posts[1].slug, "post-8");
    assert_eq!(posts[1].title, "Title 8");
}

#[test]
fn milestones_follow_the_row_limit() {
    assert_eq!(milestone_table(None), vec![100_000, 500_000, 1_000_000]);
    assert_eq!(milestone_table(Some(100)), vec![10, 50, 100]);
    assert_eq!(milestone_table(Some(9)), vec![100_000, 500_000, 1_000_000]);
    assert_eq!(chunk_rows(10, 3), 3);
    assert_eq!(chunk_rows(10, 30), 10);
}

#[test]
fn meter_reports_each_milestone_once() {
    let mut meter = SustainedMeter::new(vec![10, 50, 100]);
    meter.observe_lag(4);
    assert!(meter.cross(9).is_none());
    let first = meter.cross(12).expect("first");
    assert_eq!(first.total_raw_rows, 10);
    assert_eq!(first.window_rows, 10);
    assert_eq!(first.max_lag_sampled_in_window, 4);
    assert!(meter.cross(12).is_none());
    let second = meter.cross(60).expect("second");
    assert_eq!(second.window_rows, 40);
    assert_eq!(second.max_lag_sampled_in_window, 0);
    assert_eq!(meter.global_max_lag, 4);
    assert!(meter.keep_sampling(100, 100, true, 0));
    meter.cross(100).expect("third");
    assert!(!meter.keep_sampling(100, 100, true, 0));
}

#[test]
fn drain_gives_up_after_five_minutes() {
    assert_eq!(drain_step(0, DRAIN_LIMIT_NS + 1), DrainStep::Recovered);
    assert_eq!(drain_step(1, DRAIN_LIMIT_NS), DrainStep::Wait);
    assert_eq!(drain_step(1, DRAIN_LIMIT_NS + 1), DrainStep::GiveUp);
}

#[test]
fn mixed_ingest_bursts_and_goes_on() {
    let mut m = MixedIngest::new(IngestSetup {
        batch: 10,
        burst_period_sec: 1,
        burst_size: 15,
        burst_inject_ms: 100,
        stop_after_rows: Some(50),
    });
    assert_eq!(m.step(0, false), IngestAction::InsertPlain { start: 1, rows: 10 });
    m.inserted(10, true);
    assert_eq!(m.step(1_000_000_000, false), IngestAction::BurstBegins);
    assert_eq!(m.step(1_000_000_001, false), IngestAction::InsertBurst { start: 11, rows: 10 });
    m.inserted(10, true);
    assert_eq!(m.step(1_000_000_002, false), IngestAction::InsertBurst { start: 21, rows: 5 });
    m.inserted(5, true);
    assert_eq!(m.step(1_000_000_003, false), IngestAction::InsertPlain { start: 26, rows: 10 });
    m.inserted(10, true);
    assert_eq!(m.step(1_000_000_004, false), IngestAction::InsertPlain { start: 36, rows: 10 });
    m.inserted(10, true);
    assert_eq!(m.step(1_000_000_005, false), IngestAction::InsertPlain { start: 46, rows: 10 });
    m.inserted(10, true);
    assert_eq!(m.step(1_000_000_006, false), IngestAction::Stop);
}

#[test]
fn mixed_ingest_ends_a_burst_that_fails() {
    let mut m = MixedIngest::new(IngestSetup {
        batch: 10,
        burst_period_sec: 1,
        burst_size: 100,
        burst_inject_ms: 100,
        stop_after_rows: None,
    });
    assert_eq!(m.step(1_000_000_000, false), IngestAction::BurstBegins);
    assert_eq!(m.step(1_000_000_001, false), IngestAction::InsertBurst { start: 1, rows: 10 });
    m.inserted(10, false);
    assert_eq!(m.step(1_000_000_002, false), IngestAction::InsertPlain { start: 1, rows: 10 });
    m.inserted(10, true);
    assert_eq!(m.step(1_000_000_003, true), IngestAction::Stop);
}

fn lag(t_ns: u64, pending: u64) -> LagSample {
    LagSample { t_ns, total_raw_rows: 0, pending_wal_sequences: pending }
}

#[test]
fn burst_is_measured_against_its_baseline() {
    let samples = [lag(0, 100), lag(10, 500), lag(20, 9_000), lag(30, 4_000), lag(40, 300), lag(50, 90)];
    assert_eq!(last_wal_lag_before_t(5, &samples), 100);
    assert_eq!(last_wal_lag_before_t(10, &samples), 500);
    let facts = analyze_burst(5, &samples);
    assert_eq!(facts.baseline, 100);
    assert_eq!(facts.peak_lag, 9_000);
    assert_eq!(facts.overshoot, 8_900);
    assert_eq!(facts.recovery_legacy_ns, Some(5));
    assert_eq!(facts.first_peak, Some(9_000));
    assert_eq!(facts.second_peak, None);
    assert_eq!(facts.slope_sign_changes, 1);
}

#[test]
fn samples_are_split_at_the_stop() {
    assert_eq!(phase_split(&[1, 5, 9], Some(5)), (vec![0, 1], vec![2]));
    assert_eq!(phase_split(&[1, 5], None), (vec![0, 1], vec![]));
    assert_eq!(probe_row(0), None);
    assert_eq!(probe_row(1), Some(1));
    assert_eq!(probe_row(9), Some(4));
}

#[test]
fn payload_is_a_json_object() {
    assert_eq!(
        make_payload(9),
        "{\"id\":9,\"email\":\"user9@example.com\",\"region\":\"us-west\",\"score\":9,\"active\":true}"
    );
    assert_eq!(
        make_payload(1002),
        "{\"id\":1002,\"email\":\"user1002@example.com\",\"region\":\"eu-central\",\"score\":2,\"active\":true}"
    );
    let v: serde_json::Value = serde_json::from_str(&make_payload(7)).expect("json");
    assert_eq!(v["region"], "ap-south");
    assert_eq!(v["active"], false);
}

#[test]
fn records_are_prepared_in_order_with_and_without_a_pool() {
    let codec = BincodeStrandCodec;
    let pool = rayon::ThreadPoolBuilder::new().num_threads(2).build().expect("pool");
    let plain = prepare_records_chunk(3, 8, 5, 100, None, &codec).expect("plain");
    let pooled = prepare_records_chunk(3, 8, 5, 100, Some(&pool), &codec).expect("pooled");
    for records in [&plain, &pooled] {
        assert_eq!(records.len(), 5);
        for (k, r) in records.iter().enumerate() {
            assert_eq!(r.sequence, 100 + k as u64);
            assert_eq!(r.payload, make_payload(3 + k));
            let strand = codec.decode_strand(&r.strand_bytes).expect("decode");
            assert_eq!(strand.collection_id, 5);
            assert_eq!(strand.signature, strand_signature(r.sequence));
            assert_eq!(
                r.complement_blob,
                encode_complement_blob(&strand.complement).expect("blob")
            );
        }
    }
}

#[test]
fn scan_with_a_layout_misses_nothing() {
    let strands: Vec<_> = (0..50u64)
        .map(|i| strand_from_wal_payload_at(1, i + 1, format!("row{}", i % 10).as_bytes(), 1))
        .collect();
    let l = build_segment_and_block_metadata(&strands, 20, 6, &["_payload"]);
    assert_eq!(l.ranges, vec![(0, 20), (20, 40), (40, 50)]);
    assert_eq!(l.block_ranges[2], vec![(0, 6), (6, 10)]);
    assert_eq!(l.metas[1].segment_id, 1);
    assert_eq!(l.block_metas[0].len(), 4);
    assert_eq!(l.metas.iter().map(|m| m.record_count).collect::<Vec<_>>(), vec![20, 20, 10]);
    assert_eq!(l.block_metas[2].iter().map(|m| m.record_count).collect::<Vec<_>>(), vec![6, 4]);
    let cfg = ScanConfig {
        collection_id: Some(1),
        segment_metas: Some(l.metas),
        segment_ranges: Some(l.ranges),
        segment_block_metas: Some(l.block_metas),
        segment_block_ranges: Some(l.block_ranges),
        ..ScanConfig::default()
    };
    let pattern = GuidePattern {
        collection: "c".into(),
        clauses: vec![Clause::ExactMatch {
            field_intron: "_payload".into(),
            operand_wire: b"row7".to_vec(),
            operand_codons: encode_bytes_to_codons(b"row7"),
        }],
        includes: vec![],
        overlay: None,
        order_by: None,
        limit: None,
    };
    let mut hits = scan_strands(&pattern, &strands, &cfg);
    hits.sort_unstable();
    let expected: Vec<[u8; 8]> = [8u64, 18, 28, 38, 48].iter().map(|v| v.to_le_bytes()).collect();
    assert_eq!(hits, expected);
}

#[test]
fn load_options_are_read() {
    let cfg = parse_load_args(&args(&[])).expect("defaults");
    assert_eq!(cfg.phase, BenchPhase::Full);
    assert!(cfg.data_dir_arg.is_none());
    assert!(cfg.mmap_bytes >= MIN_MMAP_BYTES);
    let cfg = parse_load_args(&args(&["--mode", "fast", "--records", "12", "--data-dir", "d"]))
        .expect("options");
    assert_eq!(cfg.mode, BenchMode::Fast);
    assert_eq!(cfg.records, 12);
    assert_eq!(cfg.data_dir_arg, Some(5));
}

#[test]
fn load_options_are_refused() {
    assert_eq!(
        parse_load_args(&args(&["--mode", "slow"])).expect_err("mode"),
        "invalid --mode `slow` (expected strict|balanced|fast)"
    );
    assert_eq!(
        BenchPhase::parse("all").expect_err("phase"),
        "invalid --phase `all` (expected full|ingest|verify|query)"
    );
    assert!(parse_load_args(&args(&["--nonsense"])).is_err());
    assert!(parse_load_args(&args(&["--records"])).is_err());
    assert!(parse_load_args(&args(&["--records", "0"])).is_err());
}

#[test]
fn materializer_tick_runs_its_rounds() {
    let mut t = MaterializerTick::begin(4, 2);
    assert_eq!(t.request(0), Some((5, 1)));
    assert_eq!(t.max_sequence(&[7, 6]), 7);
    t.round_applied(2, 7, Some(20));
    assert_eq!(t.last_applied_seq, 7);
    assert_eq!(t.pending_after, 13);
    assert_eq!(t.request(10), Some((8, 10)));
    t.round_applied(1, 8, Some(20));
    assert_eq!(t.request(10), None);
    let mut idle = MaterializerTick::begin(4, 2);
    idle.nothing_decoded();
    assert_eq!(idle.request(10), None);
    assert_eq!(idle.last_applied_seq, 4);
}

#[test]
fn numbers_are_read_within_their_limit() {
    assert_eq!(read_number("12", 20), Ok(12));
    assert_eq!(read_number("+12", 20), Ok(12));
    assert_eq!(read_number("21", 20), Err(NumberError::TooLarge));
    assert_eq!(read_number("", 20), Err(NumberError::Empty));
    assert_eq!(read_number("1x", 20), Err(NumberError::InvalidDigit));
    assert_eq!(
        number_option("x", 20, "--n").expect_err("fault"),
        "--n: invalid digit found in string"
    );
    assert_eq!(
        number_option("", 20, "--n").expect_err("fault"),
        "--n: cannot parse integer from empty string"
    );
    assert_eq!(
        number_option("21", 20, "--n").expect_err("fault"),
        "--n: number too large to fit in target type"
    );
}

#[test]
fn lists_are_read_and_trimmed() {
    assert_eq!(read_list(" 1, 5 ,9", 2, "--l"), Ok(vec![2, 5, 9]));
    assert!(read_list("1,x", 0, "--l").is_err());
    assert_eq!(trim_text(" \t a b \n"), "a b");
    assert_eq!(trim_text(&trim_text("  x ")), trim_text("  x "));
    assert_eq!(value_at(&args(&["a"]), 0, "missing").map(|s| s.as_str()), Ok("a"));
    assert_eq!(value_at(&args(&["a"]), 1, "missing").expect_err("none"), "missing");
}

#[test]
fn posting_lists_keep_the_newest_rows() {
    let mut q = VecDeque::new();
    for id in 1..=5 {
        push_posting_cap(&mut q, id, 3);
    }
    assert_eq!(q, VecDeque::from(vec![3, 4, 5]));
    let mut p = Postings::new();
    p.register_row_range(1, 10, rare_doc_mod(SearchSelectivity::Mixed, 4));
    assert_eq!(p.rare, VecDeque::from(vec![4, 8]));
    assert_eq!(p.recent(true, 1), vec![8]);
    assert_eq!(p.recent(false, 2).len(), 2);
    assert!(is_rare_row(8, 4));
    assert!(!is_rare_row(8, u64::MAX));
    assert_eq!(rare_doc_mod(SearchSelectivity::Common, 4), u64::MAX);
    assert_eq!(rare_doc_mod(SearchSelectivity::Rare, 0), 2);
}

#[test]
fn search_terms_follow_the_selectivity() {
    assert_eq!(pick_search_term(3, SearchSelectivity::Common, 100), "common");
    assert_eq!(pick_search_term(3, SearchSelectivity::Rare, 0), "rare");
    assert_eq!(pick_search_term(1, SearchSelectivity::Mixed, 45), "common");
    assert_eq!(pick_search_term(1, SearchSelectivity::Mixed, 46), "rare");
}

#[test]
fn raw_options_are_read_one_by_one() {
    let mut o = RawOptions::new();
    let a = args(&["--scenario", "a", "--burst", "77", "--search-qps", "1.5", "--help", "--zzz"]);
    assert_eq!(o.parse_next(&a, 0), Ok(Parsed::Next(2)));
    assert_eq!(o.numbers.scenario, Scenario::A);
    assert_eq!(o.parse_next(&a, 2), Ok(Parsed::Next(4)));
    assert_eq!(o.numbers.burst_records, 77);
    assert_eq!(
        o.parse_next(&a, 4),
        Ok(Parsed::Real { option: RawOption::SearchQps, value_at: 5 })
    );
    assert_eq!(o.parse_next(&a, 6), Ok(Parsed::Help));
    assert_eq!(
        o.parse_next(&a, 7).expect_err("unknown"),
        "unknown arg: --zzz (try --help)"
    );
}

#[test]
fn entries_that_are_no_json_are_left_out() {
    let entry = |sequence: u64, payload: &str| WalEntry {
        sequence,
        payload: payload.as_bytes().to_vec(),
    };
    let entries = [entry(5, "{\"id\":1}"), entry(9, "{oops"), entry(7, "[2]")];
    let (docs, sequences) = readable_documents(&entries);
    assert_eq!(sequences, vec![5, 7]);
    assert_eq!(docs[0]["id"], 1);
    assert_eq!(docs[1][0], 2);
    let (docs, max) = MaterializerTick::begin(6, 1).round_documents(&entries);
    assert_eq!(docs.len(), 2);
    assert_eq!(max, 7);
    let (docs, max) = MaterializerTick::begin(6, 1).round_documents(&entries[1..2]);
    assert!(docs.is_empty());
    assert_eq!(max, 6);
}

#[test]
fn white_space_is_what_unicode_says() {
    for c in ['\t', '\u{b}', ' ', '\u{85}', '\u{a0}', '\u{1680}', '\u{200a}', '\u{2029}', '\u{3000}'] {
        assert_eq!(trim_text(&format!("{c}x{c}")), "x");
    }
    for c in ['\u{8}', '\u{e}', '\u{180e}', '\u{200b}', '\u{feff}', '0'] {
        assert_eq!(trim_text(&c.to_string()), c.to_string());
    }
}
