use dnadb_engine::bench::load::build_segment_and_block_metadata;
use dnadb_engine::bench::load_options::parse_load_args;
use dnadb_engine::bench::load_run::{
    check_sample, commit_limits, count_skips, plan_run, projection_pipeline_stream_decode,
    shard_name, writer_records, PipelineError, SyncLimits, SyncStep,
};
use dnadb_engine::bench::probes::{resolve_vis_probes, Checkpoint, Probe};
use dnadb_engine::bench::rows::{make_batch, make_row};
use dnadb_engine::bench::sweep::{
    cluster_count, first_crossing, regimes_by_rank, seed_steps, step_dir_name, tier_dir_name, Sign,
};
use dnadb_engine::bench::tally::LagTally;
use dnadb_engine::codec::{BincodeStrandCodec, StrandCodec};
use dnadb_engine::encoding::encode_bytes_to_codons;
use dnadb_engine::model::Strand;
use dnadb_engine::processor::strand_from_wal_payload_at;
use dnadb_engine::query::{Clause, GuidePattern};

fn args(items: &[&str]) -> Vec<String> {
    items.iter().map(|s| s.to_string()).collect()
}

fn strands(n: u64) -> Vec<Strand> {
    (0..n)
        .map(|i| strand_from_wal_payload_at(1, i + 1, format!("row{i}").as_bytes(), 1))
        .collect()
}

#[test]
fn rows_are_numbered_and_tagged() {
    let row = make_row(8, 4);
    assert_eq!(row.slug, "r8");
    assert_eq!(row.title, "title 8");
    assert_eq!(row.body, "benchtok_8 lorem ipsum dolor sit amet raw bench row");
    assert_eq!(row.term, "rare");
    assert_eq!(make_row(9, 4).term, "common");
    assert_eq!(make_row(8, u64::MAX).term, "common");
    let batch = make_batch(5, 3, 4);
    assert_eq!(batch.iter().map(|r| r.id).collect::<Vec<_>>(), vec![5, 6, 7]);
}

#[test]
fn lags_are_tallied() {
    let mut t = LagTally::new();
    assert_eq!((t.least, t.largest), (0, 0));
    for (lag, queried) in [(5, true), (20_000, true), (30_000, false), (10_000, true)] {
        t.observe(lag, queried);
    }
    assert_eq!(t.count, 4);
    assert_eq!(t.sum, 60_005);
    assert_eq!(t.least, 5);
    assert_eq!(t.largest, 30_000);
    assert_eq!(t.delayed_queries, 1);
}

#[test]
fn seen_rows_are_noted_at_their_checkpoints() {
    let checkpoint = |rows| Checkpoint {
        total_raw_rows: rows,
        window_rows: rows,
        max_lag_sampled_in_window: 3,
        visible_after_ns: None,
    };
    let mut checkpoints = vec![checkpoint(10), checkpoint(50)];
    let probes = vec![Probe { row: 10, since_ns: 1 }, Probe { row: 50, since_ns: 2 }];
    let left = resolve_vis_probes(&probes, &vec![None, Some(77)], &mut checkpoints);
    assert_eq!(left, vec![Probe { row: 10, since_ns: 1 }]);
    assert_eq!(checkpoints[0].visible_after_ns, None);
    assert_eq!(checkpoints[1].visible_after_ns, Some(77));
    assert_eq!(checkpoints[1].window_rows, 50);
}

#[test]
fn sweep_directories_and_crossings() {
    assert_eq!(step_dir_name(2, 15), "equilibrium_step_2_15ms");
    assert_eq!(tier_dir_name(0, 100_000), "matrix_tier_0_100000raw");
    let signs = [Sign::Positive, Sign::Zero, Sign::Positive, Sign::Negative];
    assert_eq!(first_crossing(&signs), Some(2));
    assert_eq!(first_crossing(&[Sign::Positive, Sign::Zero, Sign::Negative]), None);
    assert_eq!(first_crossing(&[]), None);
}

#[test]
fn clusters_are_seeded_and_ranked() {
    assert_eq!(cluster_count(0), 2);
    assert_eq!(cluster_count(3), 3);
    assert_eq!(cluster_count(9), 4);
    assert_eq!(seed_steps(10, 4), vec![0, 3, 6, 9]);
    assert_eq!(seed_steps(2, 2), vec![0, 1]);
    assert_eq!(
        regimes_by_rank(&[2, 0, 1]),
        vec!["saturated", "backpressured", "collapsing"]
    );
}

#[test]
fn parts_follow_the_phase() {
    let full = plan_run(&parse_load_args(&args(&[])).expect("args"));
    assert!(full.write && full.full_decode && full.query_suite);
    assert!(!full.concurrent && !full.sharded_log && !full.projection_stream);
    let ingest = plan_run(&parse_load_args(&args(&["--phase", "ingest"])).expect("args"));
    assert!(ingest.write && !ingest.full_decode && !ingest.query_suite);
    let only = plan_run(&parse_load_args(&args(&["--projection-pipeline-only"])).expect("args"));
    assert!(only.projection_stream && !only.full_decode && !only.query_suite);
}

#[test]
fn commit_limits_follow_the_mode() {
    let c = |a: &[&str]| commit_limits(&parse_load_args(&args(a)).expect("args"));
    assert_eq!(c(&[]), Some((1000, None)));
    assert_eq!(c(&["--wal-interval-ms", "7", "--batch-size", "3"]), Some((3, Some(7))));
    assert_eq!(c(&["--mode", "fast", "--wal-interval-ms", "7"]), None);
}

#[test]
fn background_sync_is_due_by_count_or_age() {
    let limits = SyncLimits { wal_ms: 10, storage_ms: 100, max_records: 50 };
    assert_eq!(limits.step(0, u128::MAX, u128::MAX), None);
    assert_eq!(limits.step(1, 9_999_999, 0), None);
    assert_eq!(
        limits.step(1, 10_000_000, 0),
        Some(SyncStep { storage: false, wal: true, forget_pending: false })
    );
    assert_eq!(
        limits.step(50, 0, 0),
        Some(SyncStep { storage: true, wal: true, forget_pending: true })
    );
    let from_defaults = SyncLimits::of(&parse_load_args(&args(&[])).expect("args"));
    assert_eq!(from_defaults, SyncLimits { wal_ms: 10, storage_ms: 100, max_records: 10_000 });
}

#[test]
fn each_record_has_one_writer() {
    assert_eq!(writer_records(1, 8, 3), vec![1, 4, 7]);
    let mut all: Vec<usize> = (0..3).flat_map(|w| writer_records(w, 8, 3)).collect();
    all.sort_unstable();
    assert_eq!(all, (0..8).collect::<Vec<_>>());
    assert_eq!(shard_name("bench", 3), "bench_shard_03");
    assert_eq!(shard_name("bench", 12), "bench_shard_12");
}

#[test]
fn sampled_records_are_looked_up() {
    let all = strands(10);
    assert_eq!(check_sample(&all, 5, 10), Ok(5));
    assert_eq!(check_sample(&all, 0, 10), Ok(1));
    // The second read asks for record 9973 % 10.
    assert_eq!(check_sample(&all[..3], 5, 10), Err(3));
    // Records 0, 3 and 6 are there; 9 comes before 2 and is the first to be missed.
    assert_eq!(check_sample(&[&all[..1], &all[3..4], &all[6..7]].concat(), 5, 10), Err(9));
}

#[test]
fn skips_are_counted_with_and_without_dictionaries() {
    let all = strands(40);
    let l = build_segment_and_block_metadata(&all, 20, 10, &["_payload"]);
    let pattern = GuidePattern {
        collection: "bench".to_string(),
        clauses: vec![Clause::ExactMatch {
            field_intron: "_payload".to_string(),
            operand_wire: b"row7".to_vec(),
            operand_codons: encode_bytes_to_codons(b"row7"),
        }],
        includes: vec![],
        overlay: None,
        order_by: None,
        limit: None,
    };
    let counts = count_skips(&l.metas, &l.block_metas, &pattern);
    assert_eq!(counts.segments, 1);
    assert_eq!(counts.blocks, 3);
    assert!(counts.segments_by_dictionary <= counts.segments);
    assert!(counts.blocks_by_dictionary <= counts.blocks);
}

#[test]
fn projection_pipeline_counts_its_strands() {
    let codec = BincodeStrandCodec;
    let mut pool = Vec::new();
    for s in strands(3) {
        pool.extend(codec.encode_strand(&s).expect("encode"));
    }
    let rows = projection_pipeline_stream_decode(&pool, 3).expect("rows");
    assert_eq!(rows[2].fields.get("_payload"), Some(&b"row2".to_vec()));
    match projection_pipeline_stream_decode(&pool, 4) {
        Err(PipelineError::Count(text)) => {
            assert_eq!(text, "projection pipeline: decoded 3 strands, expected 4")
        }
        _ => panic!("expected a wrong count"),
    }
    pool.truncate(pool.len() - 1);
    assert!(matches!(
        projection_pipeline_stream_decode(&pool, 3),
        Err(PipelineError::Codec(_))
    ));
}
