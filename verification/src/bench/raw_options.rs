//! Options of the pipeline benchmark, read one at a time. Those that take a real number are
//! handed back to the caller.
use super::options::{list_from, number_option, number_value, read_list, value_at};
use super::postings::SearchSelectivity;
use crate::support::text::{join2, owned, str_eq, texts};
use vstd::prelude::*;

verus! {

/// What the pipeline benchmark runs.
#[derive(Debug, Clone, Copy, PartialEq, Eq, Structural)]
pub enum Scenario {
    A,
    B,
    C,
    D,
    E,
}

/// The settings of the pipeline benchmark that are whole numbers or choices. The data
/// directory is the argument at a position, if it was given.
#[derive(Debug, Clone, Copy, PartialEq, Eq, Structural)]
pub struct RawNumbers {
    pub scenario: Scenario,
    pub data_dir_arg: Option<usize>,
    pub mat_interval_ms: u64,
    pub mat_idle_ms: u64,
    pub materializer_batch: usize,
    pub materializer_max_batches_per_tick: usize,
    pub ingest_batch: usize,
    pub burst_records: u64,
    pub duration_sec: u64,
    pub ingest_pause_ms: u64,
    pub query_interval_ms: u64,
    pub phase_max_rows: Option<u64>,
    pub lag_sample_ms: u64,
    pub equilibrium_step_sec: u64,
    pub trace_bucket_ms: u64,
    pub burst_period_sec: u64,
    pub burst_size: u64,
    pub burst_inject_ms: u64,
    pub search_scan: usize,
    pub search_rare_doc_mod: u64,
    pub search_mixed_rare_query_pct: u8,
    pub lag_deriv_smooth_window: usize,
    pub stop_after_raw_rows: Option<u64>,
    pub search_enabled: bool,
    pub search_selectivity: SearchSelectivity,
}

/// The settings of the pipeline benchmark, but for real numbers.
#[derive(Debug)]
pub struct RawOptions {
    pub numbers: RawNumbers,
    /// Pauses between ingests that a sweep tries, in milliseconds.
    pub equilibrium_pauses: Vec<u64>,
    /// Row counts that a matrix of runs stops at.
    pub matrix_target_rows: Vec<u64>,
}

/// What [`RawOptions`] hold.
#[verifier::ext_equal]
pub struct RawView {
    pub numbers: RawNumbers,
    pub equilibrium_pauses: Seq<u64>,
    pub matrix_target_rows: Seq<u64>,
}

impl View for RawOptions {
    type V = RawView;

    open spec fn view(&self) -> RawView {
        RawView {
            numbers: self.numbers,
            equilibrium_pauses: self.equilibrium_pauses@,
            matrix_target_rows: self.matrix_target_rows@,
        }
    }
}

/// The settings without any options.
pub open spec fn raw_defaults() -> RawView {
    RawView {
        numbers: RawNumbers {
            scenario: Scenario::A,
            data_dir_arg: None,
            mat_interval_ms: 10,
            mat_idle_ms: 2_000,
            materializer_batch: 512,
            materializer_max_batches_per_tick: 4,
            ingest_batch: 5_000,
            burst_records: 200_000,
            duration_sec: 30,
            ingest_pause_ms: 2,
            query_interval_ms: 2,
            phase_max_rows: None,
            lag_sample_ms: 100,
            equilibrium_step_sec: 15,
            trace_bucket_ms: 500,
            burst_period_sec: 0,
            burst_size: 100_000,
            burst_inject_ms: 200,
            search_scan: 20,
            search_rare_doc_mod: 2000,
            search_mixed_rare_query_pct: 12,
            lag_deriv_smooth_window: 4,
            stop_after_raw_rows: None,
            search_enabled: false,
            search_selectivity: SearchSelectivity::Mixed,
        },
        equilibrium_pauses: seq![0u64, 1, 2, 5, 10, 20],
        matrix_target_rows: Seq::empty(),
    }
}

/// An option of the pipeline benchmark.
#[derive(Debug, Clone, Copy, PartialEq, Eq, Structural)]
pub enum RawOption {
    Scenario,
    DataDir,
    MatIntervalMs,
    MatIdleMs,
    MaterializerBatch,
    MaterializerMaxBatches,
    IngestBatch,
    Burst,
    DurationSec,
    IngestPauseMs,
    QueryIntervalMs,
    PhaseMaxRows,
    LagSampleMs,
    EquilibriumStepSec,
    TraceBucketMs,
    BurstPeriodSec,
    BurstSize,
    BurstInjectMs,
    SearchScan,
    SearchRareDocMod,
    SearchMixedRareQueryPct,
    LagDerivSmoothWindow,
    StopAfterRawRows,
    EquilibriumPauses,
    MatrixTargetRows,
    SearchQps,
    RecoveryRelFrac,
    RecoveryAbsFloorWal,
    RecoveryEpsWalPerS,
    RecoveryStableHoldMs,
    SearchEnabled,
    SearchSelectivity,
    Help,
}

/// The option that an argument names.
pub open spec fn raw_option(name: Seq<char>) -> Option<RawOption> {
    if name == "--scenario"@ || name == "-s"@ {
        Some(RawOption::Scenario)
    } else if name == "--data-dir"@ {
        Some(RawOption::DataDir)
    } else if name == "--mat-interval-ms"@ {
        Some(RawOption::MatIntervalMs)
    } else if name == "--mat-idle-ms"@ {
        Some(RawOption::MatIdleMs)
    } else if name == "--materializer-batch"@ {
        Some(RawOption::MaterializerBatch)
    } else if name == "--materializer-max-batches-per-tick"@ {
        Some(RawOption::MaterializerMaxBatches)
    } else if name == "--ingest-batch"@ {
        Some(RawOption::IngestBatch)
    } else if name == "--burst"@ {
        Some(RawOption::Burst)
    } else if name == "--duration-sec"@ {
        Some(RawOption::DurationSec)
    } else if name == "--ingest-pause-ms"@ {
        Some(RawOption::IngestPauseMs)
    } else if name == "--query-interval-ms"@ {
        Some(RawOption::QueryIntervalMs)
    } else if name == "--phase-max-rows"@ {
        Some(RawOption::PhaseMaxRows)
    } else if name == "--lag-sample-ms"@ {
        Some(RawOption::LagSampleMs)
    } else if name == "--equilibrium-step-sec"@ {
        Some(RawOption::EquilibriumStepSec)
    } else if name == "--trace-bucket-ms"@ {
        Some(RawOption::TraceBucketMs)
    } else if name == "--burst-period-sec"@ {
        Some(RawOption::BurstPeriodSec)
    } else if name == "--burst-size"@ {
        Some(RawOption::BurstSize)
    } else if name == "--burst-inject-ms"@ {
        Some(RawOption::BurstInjectMs)
    } else if name == "--search-scan"@ {
        Some(RawOption::SearchScan)
    } else if name == "--search-rare-doc-mod"@ {
        Some(RawOption::SearchRareDocMod)
    } else if name == "--search-mixed-rare-query-pct"@ {
        Some(RawOption::SearchMixedRareQueryPct)
    } else if name == "--lag-deriv-smooth-window"@ {
        Some(RawOption::LagDerivSmoothWindow)
    } else if name == "--stop-after-raw-rows"@ {
        Some(RawOption::StopAfterRawRows)
    } else if name == "--equilibrium-pauses"@ {
        Some(RawOption::EquilibriumPauses)
    } else if name == "--matrix-target-rows"@ {
        Some(RawOption::MatrixTargetRows)
    } else if name == "--search-qps"@ {
        Some(RawOption::SearchQps)
    } else if name == "--recovery-rel-frac"@ {
        Some(RawOption::RecoveryRelFrac)
    } else if name == "--recovery-abs-floor-wal"@ {
        Some(RawOption::RecoveryAbsFloorWal)
    } else if name == "--recovery-eps-wal-per-s"@ {
        Some(RawOption::RecoveryEpsWalPerS)
    } else if name == "--recovery-stable-hold-ms"@ {
        Some(RawOption::RecoveryStableHoldMs)
    } else if name == "--search-enabled"@ || name == "--search-probe"@ {
        Some(RawOption::SearchEnabled)
    } else if name == "--search-selectivity"@ {
        Some(RawOption::SearchSelectivity)
    } else if name == "-h"@ || name == "--help"@ {
        Some(RawOption::Help)
    } else {
        None
    }
}

fn find_option(name: &str) -> (r: Option<RawOption>)
    ensures
        r == raw_option(name@),
{
    if str_eq(name, "--scenario") || str_eq(name, "-s") {
        Some(RawOption::Scenario)
    } else if str_eq(name, "--data-dir") {
        Some(RawOption::DataDir)
    } else if str_eq(name, "--mat-interval-ms") {
        Some(RawOption::MatIntervalMs)
    } else if str_eq(name, "--mat-idle-ms") {
        Some(RawOption::MatIdleMs)
    } else if str_eq(name, "--materializer-batch") {
        Some(RawOption::MaterializerBatch)
    } else if str_eq(name, "--materializer-max-batches-per-tick") {
        Some(RawOption::MaterializerMaxBatches)
    } else if str_eq(name, "--ingest-batch") {
        Some(RawOption::IngestBatch)
    } else if str_eq(name, "--burst") {
        Some(RawOption::Burst)
    } else if str_eq(name, "--duration-sec") {
        Some(RawOption::DurationSec)
    } else if str_eq(name, "--ingest-pause-ms") {
        Some(RawOption::IngestPauseMs)
    } else if str_eq(name, "--query-interval-ms") {
        Some(RawOption::QueryIntervalMs)
    } else if str_eq(name, "--phase-max-rows") {
        Some(RawOption::PhaseMaxRows)
    } else if str_eq(name, "--lag-sample-ms") {
        Some(RawOption::LagSampleMs)
    } else if str_eq(name, "--equilibrium-step-sec") {
        Some(RawOption::EquilibriumStepSec)
    } else if str_eq(name, "--trace-bucket-ms") {
        Some(RawOption::TraceBucketMs)
    } else if str_eq(name, "--burst-period-sec") {
        Some(RawOption::BurstPeriodSec)
    } else if str_eq(name, "--burst-size") {
        Some(RawOption::BurstSize)
    } else if str_eq(name, "--burst-inject-ms") {
        Some(RawOption::BurstInjectMs)
    } else if str_eq(name, "--search-scan") {
        Some(RawOption::SearchScan)
    } else if str_eq(name, "--search-rare-doc-mod") {
        Some(RawOption::SearchRareDocMod)
    } else if str_eq(name, "--search-mixed-rare-query-pct") {
        Some(RawOption::SearchMixedRareQueryPct)
    } else if str_eq(name, "--lag-deriv-smooth-window") {
        Some(RawOption::LagDerivSmoothWindow)
    } else if str_eq(name, "--stop-after-raw-rows") {
        Some(RawOption::StopAfterRawRows)
    } else if str_eq(name, "--equilibrium-pauses") {
        Some(RawOption::EquilibriumPauses)
    } else if str_eq(name, "--matrix-target-rows") {
        Some(RawOption::MatrixTargetRows)
    } else if str_eq(name, "--search-qps") {
        Some(RawOption::SearchQps)
    } else if str_eq(name, "--recovery-rel-frac") {
        Some(RawOption::RecoveryRelFrac)
    } else if str_eq(name, "--recovery-abs-floor-wal") {
        Some(RawOption::RecoveryAbsFloorWal)
    } else if str_eq(name, "--recovery-eps-wal-per-s") {
        Some(RawOption::RecoveryEpsWalPerS)
    } else if str_eq(name, "--recovery-stable-hold-ms") {
        Some(RawOption::RecoveryStableHoldMs)
    } else if str_eq(name, "--search-enabled") || str_eq(name, "--search-probe") {
        Some(RawOption::SearchEnabled)
    } else if str_eq(name, "--search-selectivity") {
        Some(RawOption::SearchSelectivity)
    } else if str_eq(name, "-h") || str_eq(name, "--help") {
        Some(RawOption::Help)
    } else {
        None
    }
}

/// What is said when the value of an option is missing.
pub open spec fn missing_text(o: RawOption) -> Seq<char> {
    match o {
        RawOption::Scenario => "--scenario requires a|b|c"@,
        RawOption::DataDir => "--data-dir needs a path"@,
        RawOption::MatIntervalMs => "value"@,
        RawOption::MatIdleMs => "mat-idle-ms needs a number"@,
        RawOption::MaterializerBatch => "--materializer-batch needs a value"@,
        RawOption::MaterializerMaxBatches => "--materializer-max-batches-per-tick needs a value"@,
        RawOption::IngestBatch => "ingest-batch needs a number"@,
        RawOption::Burst => "--burst needs a number"@,
        RawOption::DurationSec => "duration-sec needs a value"@,
        RawOption::IngestPauseMs => "ingest-pause-ms needs a value"@,
        RawOption::QueryIntervalMs => "query-interval-ms needs a value"@,
        RawOption::PhaseMaxRows => "--phase-max-rows needs a value"@,
        RawOption::LagSampleMs => "--lag-sample-ms needs a value"@,
        RawOption::EquilibriumStepSec => "--equilibrium-step-sec needs a value"@,
        RawOption::TraceBucketMs => "--trace-bucket-ms needs a value (0 disables)"@,
        RawOption::BurstPeriodSec => "--burst-period-sec needs a value (0 disables)"@,
        RawOption::BurstSize => "--burst-size needs row count"@,
        RawOption::BurstInjectMs => "--burst-inject-ms needs milliseconds"@,
        RawOption::SearchScan => "--search-scan needs K (point lookups per op)"@,
        RawOption::SearchRareDocMod => "--search-rare-doc-mod needs N>=2 (1 rare row every N ids)"@,
        RawOption::SearchMixedRareQueryPct => "--search-mixed-rare-query-pct needs 0-100"@,
        RawOption::LagDerivSmoothWindow => "--lag-deriv-smooth-window needs N>=1"@,
        RawOption::StopAfterRawRows => "--stop-after-raw-rows needs N"@,
        RawOption::EquilibriumPauses => "--equilibrium-pauses needs comma-separated ms values"@,
        RawOption::MatrixTargetRows => "--matrix-target-rows needs comma-separated row counts"@,
        RawOption::SearchQps => "--search-qps needs a number"@,
        RawOption::RecoveryRelFrac => "--recovery-rel-frac needs a fraction"@,
        RawOption::RecoveryAbsFloorWal => "--recovery-abs-floor-wal needs WAL sequences"@,
        RawOption::RecoveryEpsWalPerS => "--recovery-eps-wal-per-s needs a rate"@,
        RawOption::RecoveryStableHoldMs => "--recovery-stable-hold-ms needs milliseconds"@,
        RawOption::SearchSelectivity => "--search-selectivity needs common|rare|mixed"@,
        _ => ""@,
    }
}

fn missing_message(o: RawOption) -> (r: &'static str)
    ensures
        r@ == missing_text(o),
{
    match o {
        RawOption::Scenario => "--scenario requires a|b|c",
        RawOption::DataDir => "--data-dir needs a path",
        RawOption::MatIntervalMs => "value",
        RawOption::MatIdleMs => "mat-idle-ms needs a number",
        RawOption::MaterializerBatch => "--materializer-batch needs a value",
        RawOption::MaterializerMaxBatches => "--materializer-max-batches-per-tick needs a value",
        RawOption::IngestBatch => "ingest-batch needs a number",
        RawOption::Burst => "--burst needs a number",
        RawOption::DurationSec => "duration-sec needs a value",
        RawOption::IngestPauseMs => "ingest-pause-ms needs a value",
        RawOption::QueryIntervalMs => "query-interval-ms needs a value",
        RawOption::PhaseMaxRows => "--phase-max-rows needs a value",
        RawOption::LagSampleMs => "--lag-sample-ms needs a value",
        RawOption::EquilibriumStepSec => "--equilibrium-step-sec needs a value",
        RawOption::TraceBucketMs => "--trace-bucket-ms needs a value (0 disables)",
        RawOption::BurstPeriodSec => "--burst-period-sec needs a value (0 disables)",
        RawOption::BurstSize => "--burst-size needs row count",
        RawOption::BurstInjectMs => "--burst-inject-ms needs milliseconds",
        RawOption::SearchScan => "--search-scan needs K (point lookups per op)",
        RawOption::SearchRareDocMod => "--search-rare-doc-mod needs N>=2 (1 rare row every N ids)",
        RawOption::SearchMixedRareQueryPct => "--search-mixed-rare-query-pct needs 0-100",
        RawOption::LagDerivSmoothWindow => "--lag-deriv-smooth-window needs N>=1",
        RawOption::StopAfterRawRows => "--stop-after-raw-rows needs N",
        RawOption::EquilibriumPauses => "--equilibrium-pauses needs comma-separated ms values",
        RawOption::MatrixTargetRows => "--matrix-target-rows needs comma-separated row counts",
        RawOption::SearchQps => "--search-qps needs a number",
        RawOption::RecoveryRelFrac => "--recovery-rel-frac needs a fraction",
        RawOption::RecoveryAbsFloorWal => "--recovery-abs-floor-wal needs WAL sequences",
        RawOption::RecoveryEpsWalPerS => "--recovery-eps-wal-per-s needs a rate",
        RawOption::RecoveryStableHoldMs => "--recovery-stable-hold-ms needs milliseconds",
        RawOption::SearchSelectivity => "--search-selectivity needs common|rare|mixed",
        _ => "",
    }
}

/// The name under which a number or list that cannot be read is reported.
pub open spec fn fault_name(o: RawOption) -> Seq<char> {
    match o {
        RawOption::MatIntervalMs => "mat-interval-ms"@,
        RawOption::MatIdleMs => "mat-idle-ms"@,
        RawOption::MaterializerBatch => "materializer-batch"@,
        RawOption::MaterializerMaxBatches => "materializer-max-batches-per-tick"@,
        RawOption::IngestBatch => "ingest-batch"@,
        RawOption::Burst => "burst"@,
        RawOption::DurationSec => "duration-sec"@,
        RawOption::IngestPauseMs => "ingest-pause-ms"@,
        RawOption::QueryIntervalMs => "query-interval-ms"@,
        RawOption::PhaseMaxRows => "phase-max-rows"@,
        RawOption::LagSampleMs => "lag-sample-ms"@,
        RawOption::EquilibriumStepSec => "equilibrium-step-sec"@,
        RawOption::TraceBucketMs => "trace-bucket-ms"@,
        RawOption::BurstPeriodSec => "burst-period-sec"@,
        RawOption::BurstSize => "burst-size"@,
        RawOption::BurstInjectMs => "burst-inject-ms"@,
        RawOption::SearchScan => "search-scan"@,
        RawOption::SearchRareDocMod => "search-rare-doc-mod"@,
        RawOption::SearchMixedRareQueryPct => "search-mixed-rare-query-pct"@,
        RawOption::LagDerivSmoothWindow => "lag-deriv-smooth-window"@,
        RawOption::StopAfterRawRows => "stop-after-raw-rows"@,
        RawOption::EquilibriumPauses => "equilibrium-pauses"@,
        RawOption::MatrixTargetRows => "matrix-target-rows"@,
        _ => ""@,
    }
}

fn fault_label(o: RawOption) -> (r: &'static str)
    ensures
        r@ == fault_name(o),
{
    match o {
        RawOption::MatIntervalMs => "mat-interval-ms",
        RawOption::MatIdleMs => "mat-idle-ms",
        RawOption::MaterializerBatch => "materializer-batch",
        RawOption::MaterializerMaxBatches => "materializer-max-batches-per-tick",
        RawOption::IngestBatch => "ingest-batch",
        RawOption::Burst => "burst",
        RawOption::DurationSec => "duration-sec",
        RawOption::IngestPauseMs => "ingest-pause-ms",
        RawOption::QueryIntervalMs => "query-interval-ms",
        RawOption::PhaseMaxRows => "phase-max-rows",
        RawOption::LagSampleMs => "lag-sample-ms",
        RawOption::EquilibriumStepSec => "equilibrium-step-sec",
        RawOption::TraceBucketMs => "trace-bucket-ms",
        RawOption::BurstPeriodSec => "burst-period-sec",
        RawOption::BurstSize => "burst-size",
        RawOption::BurstInjectMs => "burst-inject-ms",
        RawOption::SearchScan => "search-scan",
        RawOption::SearchRareDocMod => "search-rare-doc-mod",
        RawOption::SearchMixedRareQueryPct => "search-mixed-rare-query-pct",
        RawOption::LagDerivSmoothWindow => "lag-deriv-smooth-window",
        RawOption::StopAfterRawRows => "stop-after-raw-rows",
        RawOption::EquilibriumPauses => "equilibrium-pauses",
        RawOption::MatrixTargetRows => "matrix-target-rows",
        _ => "",
    }
}

/// The largest number that an option takes.
pub open spec fn raw_max(o: RawOption) -> u64 {
    match o {
        RawOption::MatIntervalMs => u64::MAX,
        RawOption::MatIdleMs => u64::MAX,
        RawOption::MaterializerBatch => usize::MAX as u64,
        RawOption::MaterializerMaxBatches => usize::MAX as u64,
        RawOption::IngestBatch => usize::MAX as u64,
        RawOption::Burst => u64::MAX,
        RawOption::DurationSec => u64::MAX,
        RawOption::IngestPauseMs => u64::MAX,
        RawOption::QueryIntervalMs => u64::MAX,
        RawOption::PhaseMaxRows => u64::MAX,
        RawOption::LagSampleMs => u64::MAX,
        RawOption::EquilibriumStepSec => u64::MAX,
        RawOption::TraceBucketMs => u64::MAX,
        RawOption::BurstPeriodSec => u64::MAX,
        RawOption::BurstSize => u64::MAX,
        RawOption::BurstInjectMs => u64::MAX,
        RawOption::SearchScan => usize::MAX as u64,
        RawOption::SearchRareDocMod => u64::MAX,
        RawOption::SearchMixedRareQueryPct => 255,
        RawOption::LagDerivSmoothWindow => usize::MAX as u64,
        RawOption::StopAfterRawRows => u64::MAX,
        _ => 0,
    }
}

fn number_max(o: RawOption) -> (r: u64)
    ensures
        r == raw_max(o),
{
    match o {
        RawOption::MatIntervalMs => u64::MAX,
        RawOption::MatIdleMs => u64::MAX,
        RawOption::MaterializerBatch => usize::MAX as u64,
        RawOption::MaterializerMaxBatches => usize::MAX as u64,
        RawOption::IngestBatch => usize::MAX as u64,
        RawOption::Burst => u64::MAX,
        RawOption::DurationSec => u64::MAX,
        RawOption::IngestPauseMs => u64::MAX,
        RawOption::QueryIntervalMs => u64::MAX,
        RawOption::PhaseMaxRows => u64::MAX,
        RawOption::LagSampleMs => u64::MAX,
        RawOption::EquilibriumStepSec => u64::MAX,
        RawOption::TraceBucketMs => u64::MAX,
        RawOption::BurstPeriodSec => u64::MAX,
        RawOption::BurstSize => u64::MAX,
        RawOption::BurstInjectMs => u64::MAX,
        RawOption::SearchScan => usize::MAX as u64,
        RawOption::SearchRareDocMod => u64::MAX,
        RawOption::SearchMixedRareQueryPct => 255,
        RawOption::LagDerivSmoothWindow => usize::MAX as u64,
        RawOption::StopAfterRawRows => u64::MAX,
        _ => 0,
    }
}

/// The least number that an option stands for; anything below counts as it.
pub open spec fn raw_least(o: RawOption) -> u64 {
    match o {
        RawOption::MatIntervalMs => 1,
        RawOption::MatIdleMs => 1,
        RawOption::MaterializerBatch => 0,
        RawOption::MaterializerMaxBatches => 1,
        RawOption::IngestBatch => 1,
        RawOption::Burst => 1,
        RawOption::DurationSec => 1,
        RawOption::IngestPauseMs => 0,
        RawOption::QueryIntervalMs => 1,
        RawOption::PhaseMaxRows => 10,
        RawOption::LagSampleMs => 5,
        RawOption::EquilibriumStepSec => 3,
        RawOption::TraceBucketMs => 0,
        RawOption::BurstPeriodSec => 0,
        RawOption::BurstSize => 1,
        RawOption::BurstInjectMs => 1,
        RawOption::SearchScan => 1,
        RawOption::SearchRareDocMod => 2,
        RawOption::SearchMixedRareQueryPct => 0,
        RawOption::LagDerivSmoothWindow => 1,
        RawOption::StopAfterRawRows => 1,
        RawOption::EquilibriumPauses => 0,
        RawOption::MatrixTargetRows => 1,
        _ => 0,
    }
}

fn number_least(o: RawOption) -> (r: u64)
    ensures
        r == raw_least(o),
{
    match o {
        RawOption::MatIntervalMs => 1,
        RawOption::MatIdleMs => 1,
        RawOption::MaterializerBatch => 0,
        RawOption::MaterializerMaxBatches => 1,
        RawOption::IngestBatch => 1,
        RawOption::Burst => 1,
        RawOption::DurationSec => 1,
        RawOption::IngestPauseMs => 0,
        RawOption::QueryIntervalMs => 1,
        RawOption::PhaseMaxRows => 10,
        RawOption::LagSampleMs => 5,
        RawOption::EquilibriumStepSec => 3,
        RawOption::TraceBucketMs => 0,
        RawOption::BurstPeriodSec => 0,
        RawOption::BurstSize => 1,
        RawOption::BurstInjectMs => 1,
        RawOption::SearchScan => 1,
        RawOption::SearchRareDocMod => 2,
        RawOption::SearchMixedRareQueryPct => 0,
        RawOption::LagDerivSmoothWindow => 1,
        RawOption::StopAfterRawRows => 1,
        RawOption::EquilibriumPauses => 0,
        RawOption::MatrixTargetRows => 1,
        _ => 0,
    }
}

/// The settings with a number set; a share is at most a hundred.
pub open spec fn with_raw_number(c: RawNumbers, o: RawOption, v: nat) -> RawNumbers {
    let n: nat = if v < raw_least(o) {
        raw_least(o) as nat
    } else {
        v
    };
    match o {
        RawOption::MatIntervalMs => RawNumbers { mat_interval_ms: n as u64, ..c },
        RawOption::MatIdleMs => RawNumbers { mat_idle_ms: n as u64, ..c },
        RawOption::MaterializerBatch => RawNumbers { materializer_batch: n as usize, ..c },
        RawOption::MaterializerMaxBatches => RawNumbers { materializer_max_batches_per_tick: n as usize, ..c },
        RawOption::IngestBatch => RawNumbers { ingest_batch: n as usize, ..c },
        RawOption::Burst => RawNumbers { burst_records: n as u64, ..c },
        RawOption::DurationSec => RawNumbers { duration_sec: n as u64, ..c },
        RawOption::IngestPauseMs => RawNumbers { ingest_pause_ms: n as u64, ..c },
        RawOption::QueryIntervalMs => RawNumbers { query_interval_ms: n as u64, ..c },
        RawOption::PhaseMaxRows => RawNumbers { phase_max_rows: Some(n as u64), ..c },
        RawOption::LagSampleMs => RawNumbers { lag_sample_ms: n as u64, ..c },
        RawOption::EquilibriumStepSec => RawNumbers { equilibrium_step_sec: n as u64, ..c },
        RawOption::TraceBucketMs => RawNumbers { trace_bucket_ms: n as u64, ..c },
        RawOption::BurstPeriodSec => RawNumbers { burst_period_sec: n as u64, ..c },
        RawOption::BurstSize => RawNumbers { burst_size: n as u64, ..c },
        RawOption::BurstInjectMs => RawNumbers { burst_inject_ms: n as u64, ..c },
        RawOption::SearchScan => RawNumbers { search_scan: n as usize, ..c },
        RawOption::SearchRareDocMod => RawNumbers { search_rare_doc_mod: n as u64, ..c },
        RawOption::SearchMixedRareQueryPct => RawNumbers { search_mixed_rare_query_pct: (if n > 100 {
                100
            } else {
                n
            }) as u8, ..c },
        RawOption::LagDerivSmoothWindow => RawNumbers { lag_deriv_smooth_window: n as usize, ..c },
        RawOption::StopAfterRawRows => RawNumbers { stop_after_raw_rows: Some(n as u64), ..c },
        _ => c,
    }
}

fn set_number(c: RawNumbers, o: RawOption, v: u64) -> (r: RawNumbers)
    requires
        v <= raw_max(o),
    ensures
        r == with_raw_number(c, o, v as nat),
{
    let least: u64 = number_least(o);
    let n: u64 = if v < least {
        least
    } else {
        v
    };
    let mut d = c;
    match o {
        RawOption::MatIntervalMs => {
            d.mat_interval_ms = n;
        },
        RawOption::MatIdleMs => {
            d.mat_idle_ms = n;
        },
        RawOption::MaterializerBatch => {
            d.materializer_batch = n as usize;
        },
        RawOption::MaterializerMaxBatches => {
            d.materializer_max_batches_per_tick = n as usize;
        },
        RawOption::IngestBatch => {
            d.ingest_batch = n as usize;
        },
        RawOption::Burst => {
            d.burst_records = n;
        },
        RawOption::DurationSec => {
            d.duration_sec = n;
        },
        RawOption::IngestPauseMs => {
            d.ingest_pause_ms = n;
        },
        RawOption::QueryIntervalMs => {
            d.query_interval_ms = n;
        },
        RawOption::PhaseMaxRows => {
            d.phase_max_rows = Some(n);
        },
        RawOption::LagSampleMs => {
            d.lag_sample_ms = n;
        },
        RawOption::EquilibriumStepSec => {
            d.equilibrium_step_sec = n;
        },
        RawOption::TraceBucketMs => {
            d.trace_bucket_ms = n;
        },
        RawOption::BurstPeriodSec => {
            d.burst_period_sec = n;
        },
        RawOption::BurstSize => {
            d.burst_size = n;
        },
        RawOption::BurstInjectMs => {
            d.burst_inject_ms = n;
        },
        RawOption::SearchScan => {
            d.search_scan = n as usize;
        },
        RawOption::SearchRareDocMod => {
            d.search_rare_doc_mod = n;
        },
        RawOption::SearchMixedRareQueryPct => {
            d.search_mixed_rare_query_pct = if n > 100 {
                100
            } else {
                n as u8
            };
        },
        RawOption::LagDerivSmoothWindow => {
            d.lag_deriv_smooth_window = n as usize;
        },
        RawOption::StopAfterRawRows => {
            d.stop_after_raw_rows = Some(n);
        },
        _ => {},
    }
    d
}

/// The scenario that a letter stands for.
pub open spec fn scenario_named(s: Seq<char>) -> Option<Scenario> {
    if s == "a"@ || s == "A"@ {
        Some(Scenario::A)
    } else if s == "b"@ || s == "B"@ {
        Some(Scenario::B)
    } else if s == "c"@ || s == "C"@ {
        Some(Scenario::C)
    } else if s == "d"@ || s == "D"@ {
        Some(Scenario::D)
    } else if s == "e"@ || s == "E"@ {
        Some(Scenario::E)
    } else {
        None
    }
}

fn find_scenario(s: &str) -> (r: Option<Scenario>)
    ensures
        r == scenario_named(s@),
{
    if str_eq(s, "a") || str_eq(s, "A") {
        Some(Scenario::A)
    } else if str_eq(s, "b") || str_eq(s, "B") {
        Some(Scenario::B)
    } else if str_eq(s, "c") || str_eq(s, "C") {
        Some(Scenario::C)
    } else if str_eq(s, "d") || str_eq(s, "D") {
        Some(Scenario::D)
    } else if str_eq(s, "e") || str_eq(s, "E") {
        Some(Scenario::E)
    } else {
        None
    }
}

/// A text with its capital ASCII letters made small.
pub open spec fn lower(s: Seq<char>) -> Seq<char> {
    Seq::new(s.len(), |i: int| lower_char(s[i]))
}

/// A capital ASCII letter made small; any other character as it is.
pub open spec fn lower_char(c: char) -> char {
    if 'A' <= c && c <= 'Z' {
        (c as u32 + 32) as char
    } else {
        c
    }
}

fn is_lower_of(s: &str, name: &str) -> (r: bool)
    ensures
        r == (lower(s@) == name@),
{
    let a = crate::support::text::chars_of(s);
    let b = crate::support::text::chars_of(name);
    if a.len() != b.len() {
        proof {
            assert(lower(s@).len() == a@.len());
        }
        return false;
    }
    let mut i: usize = 0;
    while i < a.len()
        invariant
            0 <= i <= a@.len(),
            a@ == s@,
            b@ == name@,
            a@.len() == b@.len(),
            forall|j: int| 0 <= j < i ==> lower_char(#[trigger] a@[j]) == b@[j],
        decreases a@.len() - i,
    {
        let c: char = a[i];
        let d: char = if 'A' <= c && c <= 'Z' {
            (c as u8 + 32) as char
        } else {
            c
        };
        proof {
            assert(d == lower_char(c));
        }
        if d != b[i] {
            proof {
                assert(lower(s@)[i as int] != name@[i as int]);
            }
            return false;
        }
        i += 1;
    }
    proof {
        assert(lower(s@) =~= name@);
    }
    true
}

/// The selectivity that a name stands for, in any case.
pub open spec fn selectivity_named(s: Seq<char>) -> Option<SearchSelectivity> {
    if lower(s) == "common"@ {
        Some(SearchSelectivity::Common)
    } else if lower(s) == "rare"@ {
        Some(SearchSelectivity::Rare)
    } else if lower(s) == "mixed"@ {
        Some(SearchSelectivity::Mixed)
    } else {
        None
    }
}

/// What reading an argument comes to: the next argument's position; a real number, which
/// stands at a position, for an option; or a call for help.
#[derive(Debug, Clone, Copy, PartialEq, Eq, Structural)]
pub enum Parsed {
    Next(usize),
    Real { option: RawOption, value_at: usize },
    Help,
}

/// Whether an option takes a real number.
pub open spec fn is_real(o: RawOption) -> bool {
    o == RawOption::SearchQps
        || o == RawOption::RecoveryRelFrac
        || o == RawOption::RecoveryAbsFloorWal
        || o == RawOption::RecoveryEpsWalPerS
        || o == RawOption::RecoveryStableHoldMs
}

fn takes_real(o: RawOption) -> (r: bool)
    ensures
        r == is_real(o),
{
    match o {
        RawOption::SearchQps
        | RawOption::RecoveryRelFrac
        | RawOption::RecoveryAbsFloorWal
        | RawOption::RecoveryEpsWalPerS
        | RawOption::RecoveryStableHoldMs => true,
        _ => false,
    }
}

/// The settings with the value of an option at a position set, or what is said of it.
pub open spec fn with_raw_value(v: RawView, o: RawOption, value: Seq<char>, at: usize) -> Result<RawView, Seq<char>> {
    match o {
        RawOption::Scenario => match scenario_named(value) {
            Some(s) => Ok(RawView { numbers: RawNumbers { scenario: s, ..v.numbers }, ..v }),
            None => Err("use --scenario a|b|c|d|e"@),
        },
        RawOption::DataDir => Ok(RawView { numbers: RawNumbers { data_dir_arg: Some(at), ..v.numbers }, ..v }),
        RawOption::SearchSelectivity => match selectivity_named(value) {
            Some(s) => Ok(RawView { numbers: RawNumbers { search_selectivity: s, ..v.numbers }, ..v }),
            None => Err("use --search-selectivity common|rare|mixed"@),
        },
        RawOption::EquilibriumPauses => match list_from(value, 0, raw_least(o), fault_name(o)) {
            Ok(l) => Ok(
                if l.len() > 0 {
                    RawView { equilibrium_pauses: l, ..v }
                } else {
                    v
                },
            ),
            Err(e) => Err(e),
        },
        RawOption::MatrixTargetRows => match list_from(value, 0, raw_least(o), fault_name(o)) {
            Ok(l) => Ok(
                if l.len() > 0 {
                    RawView { matrix_target_rows: l, ..v }
                } else {
                    v
                },
            ),
            Err(e) => Err(e),
        },
        _ => match number_value(value, raw_max(o), fault_name(o)) {
            Ok(n) => Ok(RawView { numbers: with_raw_number(v.numbers, o, n), ..v }),
            Err(e) => Err(e),
        },
    }
}

/// What reading the argument at `k` comes to, and the settings after it.
pub open spec fn raw_step(v: RawView, args: Seq<Seq<char>>, k: usize) -> Result<(RawView, Parsed), Seq<char>> {
    match raw_option(args[k as int]) {
        None => Err("unknown arg: "@ + args[k as int] + " (try --help)"@),
        Some(RawOption::Help) => Ok((v, Parsed::Help)),
        Some(RawOption::SearchEnabled) => Ok(
            (
                RawView { numbers: RawNumbers { search_enabled: true, ..v.numbers }, ..v },
                Parsed::Next((k + 1) as usize),
            ),
        ),
        Some(o) => if k + 1 >= args.len() {
            Err(missing_text(o))
        } else if is_real(o) {
            Ok((v, Parsed::Real { option: o, value_at: (k + 1) as usize }))
        } else {
            match with_raw_value(v, o, args[k + 1], (k + 1) as usize) {
                Ok(d) => Ok((d, Parsed::Next((k + 2) as usize))),
                Err(e) => Err(e),
            }
        },
    }
}

impl RawOptions {
    /// The settings without any options.
    pub fn new() -> (r: Self)
        ensures
            r@ == raw_defaults(),
    {
        let pauses: Vec<u64> = vec![0, 1, 2, 5, 10, 20];
        let r = RawOptions {
            numbers: RawNumbers {
                scenario: Scenario::A,
                data_dir_arg: None,
                mat_interval_ms: 10,
                mat_idle_ms: 2_000,
                materializer_batch: 512,
                materializer_max_batches_per_tick: 4,
                ingest_batch: 5_000,
                burst_records: 200_000,
                duration_sec: 30,
                ingest_pause_ms: 2,
                query_interval_ms: 2,
                phase_max_rows: None,
                lag_sample_ms: 100,
                equilibrium_step_sec: 15,
                trace_bucket_ms: 500,
                burst_period_sec: 0,
                burst_size: 100_000,
                burst_inject_ms: 200,
                search_scan: 20,
                search_rare_doc_mod: 2000,
                search_mixed_rare_query_pct: 12,
                lag_deriv_smooth_window: 4,
                stop_after_raw_rows: None,
                search_enabled: false,
                search_selectivity: SearchSelectivity::Mixed,
            },
            equilibrium_pauses: pauses,
            matrix_target_rows: Vec::new(),
        };
        proof {
            assert(r@ =~= raw_defaults());
        }
        r
    }

    fn set_value(&mut self, o: RawOption, value: &str, at: usize) -> (r: Result<(), String>)
        ensures
            match (r, with_raw_value(old(self)@, o, value@, at)) {
                (Ok(_), Ok(v)) => final(self)@ == v,
                (Err(e), Err(t)) => e@ == t && final(self)@ == old(self)@,
                _ => false,
            },
    {
        match o {
            RawOption::Scenario => match find_scenario(value) {
                Some(s) => {
                    self.numbers.scenario = s;
                    Ok(())
                },
                None => Err(owned("use --scenario a|b|c|d|e")),
            },
            RawOption::DataDir => {
                self.numbers.data_dir_arg = Some(at);
                Ok(())
            },
            RawOption::SearchSelectivity => {
                if is_lower_of(value, "common") {
                    self.numbers.search_selectivity = SearchSelectivity::Common;
                } else if is_lower_of(value, "rare") {
                    self.numbers.search_selectivity = SearchSelectivity::Rare;
                } else if is_lower_of(value, "mixed") {
                    self.numbers.search_selectivity = SearchSelectivity::Mixed;
                } else {
                    return Err(owned("use --search-selectivity common|rare|mixed"));
                }
                Ok(())
            },
            RawOption::EquilibriumPauses => match read_list(value, number_least(o), fault_label(o)) {
                Ok(l) => {
                    if l.len() > 0 {
                        self.equilibrium_pauses = l;
                    }
                    Ok(())
                },
                Err(e) => Err(e),
            },
            RawOption::MatrixTargetRows => match read_list(value, number_least(o), fault_label(o)) {
                Ok(l) => {
                    if l.len() > 0 {
                        self.matrix_target_rows = l;
                    }
                    Ok(())
                },
                Err(e) => Err(e),
            },
            _ => match number_option(value, number_max(o), fault_label(o)) {
                Ok(n) => {
                    self.numbers = set_number(self.numbers, o, n);
                    Ok(())
                },
                Err(e) => Err(e),
            },
        }
    }

    /// Reads the argument at `k`, with its value where it takes one.
    pub fn parse_next(&mut self, args: &Vec<String>, k: usize) -> (r: Result<Parsed, String>)
        requires
            k < args@.len(),
        ensures
            match (r, raw_step(old(self)@, texts(args@), k)) {
                (Ok(p), Ok(t)) => final(self)@ == t.0 && p == t.1,
                (Err(e), Err(t)) => e@ == t && final(self)@ == old(self)@,
                _ => false,
            },
            r matches Ok(Parsed::Next(n)) ==> k < n <= args@.len(),
            r matches Ok(Parsed::Real { value_at, .. }) ==> k < value_at < args@.len(),
    {
        let ghost all = texts(args@);
        let total: usize = args.len();
        let name = args[k].as_str();
        proof {
            assert(all[k as int] == name@);
            assert(k < total);
        }
        let o = match find_option(name) {
            Some(o) => o,
            None => {
                let mut m = join2("unknown arg: ", name);
                m.append(" (try --help)");
                return Err(m);
            },
        };
        match o {
            RawOption::Help => {
                return Ok(Parsed::Help);
            },
            RawOption::SearchEnabled => {
                self.numbers.search_enabled = true;
                return Ok(Parsed::Next(k + 1));
            },
            _ => {},
        }
        let value = match value_at(args, k + 1, missing_message(o)) {
            Ok(v) => v,
            Err(e) => {
                return Err(e);
            },
        };
        proof {
            assert(all[k + 1] == value@);
        }
        if takes_real(o) {
            return Ok(Parsed::Real { option: o, value_at: k + 1 });
        }
        match self.set_value(o, value.as_str(), k + 1) {
            Ok(_) => Ok(Parsed::Next(k + 2)),
            Err(e) => Err(e),
        }
    }

    /// The row counts of a matrix of runs: those asked for, or a hundred, two hundred and five
    /// hundred thousand.
    pub fn matrix_targets(&self) -> (r: Vec<u64>)
        ensures
            r@ == (if self@.matrix_target_rows.len() == 0 {
                seq![100_000u64, 200_000, 500_000]
            } else {
                self@.matrix_target_rows
            }),
    {
        if self.matrix_target_rows.len() == 0 {
            let v: Vec<u64> = vec![100_000, 200_000, 500_000];
            proof {
                assert(v@ =~= seq![100_000u64, 200_000, 500_000]);
            }
            return v;
        }
        let mut out: Vec<u64> = Vec::new();
        let mut i: usize = 0;
        while i < self.matrix_target_rows.len()
            invariant
                0 <= i <= self.matrix_target_rows@.len(),
                out@ == self.matrix_target_rows@.take(i as int),
            decreases self.matrix_target_rows@.len() - i,
        {
            out.push(self.matrix_target_rows[i]);
            proof {
                assert(self.matrix_target_rows@.take(i + 1) =~= self.matrix_target_rows@.take(i as int).push(
                    self.matrix_target_rows@[i as int],
                ));
            }
            i += 1;
        }
        proof {
            assert(self.matrix_target_rows@.take(i as int) =~= self.matrix_target_rows@);
        }
        out
    }
}

} // verus!
