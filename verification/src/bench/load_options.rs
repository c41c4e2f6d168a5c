//! Options of the load benchmark.
use super::options::{number_option, number_value, value_at};
use crate::support::text::{join2, owned, str_eq, texts};
use vstd::prelude::*;

verus! {

/// How strictly the benchmark syncs.
#[derive(Debug, Clone, Copy, PartialEq, Eq, Structural)]
pub enum BenchMode {
    Strict,
    Balanced,
    Fast,
}

/// Which part of the benchmark runs.
#[derive(Debug, Clone, Copy, PartialEq, Eq, Structural)]
pub enum BenchPhase {
    Full,
    Ingest,
    Verify,
    Query,
}

/// The mode that a name stands for, or what is said of it.
pub open spec fn mode_named(s: Seq<char>) -> Result<BenchMode, Seq<char>> {
    if s == "strict"@ {
        Ok(BenchMode::Strict)
    } else if s == "balanced"@ {
        Ok(BenchMode::Balanced)
    } else if s == "fast"@ {
        Ok(BenchMode::Fast)
    } else {
        Err("invalid --mode `"@ + s + "` (expected strict|balanced|fast)"@)
    }
}

/// The phase that a name stands for, or what is said of it.
pub open spec fn phase_named(s: Seq<char>) -> Result<BenchPhase, Seq<char>> {
    if s == "full"@ {
        Ok(BenchPhase::Full)
    } else if s == "ingest"@ {
        Ok(BenchPhase::Ingest)
    } else if s == "verify"@ {
        Ok(BenchPhase::Verify)
    } else if s == "query"@ {
        Ok(BenchPhase::Query)
    } else {
        Err("invalid --phase `"@ + s + "` (expected full|ingest|verify|query)"@)
    }
}

impl BenchPhase {
    /// The phase that a name stands for.
    pub fn parse(s: &str) -> (r: Result<Self, String>)
        ensures
            match (r, phase_named(s@)) {
                (Ok(a), Ok(b)) => a == b,
                (Err(a), Err(b)) => a@ == b,
                _ => false,
            },
    {
        if str_eq(s, "full") {
            Ok(BenchPhase::Full)
        } else if str_eq(s, "ingest") {
            Ok(BenchPhase::Ingest)
        } else if str_eq(s, "verify") {
            Ok(BenchPhase::Verify)
        } else if str_eq(s, "query") {
            Ok(BenchPhase::Query)
        } else {
            let mut m = join2("invalid --phase `", s);
            m.append("` (expected full|ingest|verify|query)");
            Err(m)
        }
    }
}

impl BenchMode {
    /// The mode that a name stands for.
    pub fn parse(s: &str) -> (r: Result<Self, String>)
        ensures
            match (r, mode_named(s@)) {
                (Ok(a), Ok(b)) => a == b,
                (Err(a), Err(b)) => a@ == b,
                _ => false,
            },
    {
        if str_eq(s, "strict") {
            Ok(BenchMode::Strict)
        } else if str_eq(s, "balanced") {
            Ok(BenchMode::Balanced)
        } else if str_eq(s, "fast") {
            Ok(BenchMode::Fast)
        } else {
            let mut m = join2("invalid --mode `", s);
            m.append("` (expected strict|balanced|fast)");
            Err(m)
        }
    }

    /// The time between group commits where none is asked for: no timer in any mode.
    pub fn default_wal_interval_ms(self) -> (r: u64)
        ensures
            r == 0,
    {
        match self {
            BenchMode::Strict | BenchMode::Balanced | BenchMode::Fast => 0,
        }
    }
}

/// The settings of the load benchmark. The data directory is the argument at a position, if
/// it was given.
#[derive(Debug, Clone, Copy, PartialEq, Eq, Structural)]
pub struct LoadConfig {
    pub records: usize,
    pub read_sample: usize,
    pub data_dir_arg: Option<usize>,
    pub mmap_bytes: usize,
    pub mode: BenchMode,
    pub batch_size: usize,
    pub threads: usize,
    pub prep_batch: usize,
    pub concurrent_writers: bool,
    pub wal_shards: usize,
    pub wal_interval_ms: Option<u64>,
    pub async_sync: bool,
    pub async_sync_interval_ms: u64,
    pub async_sync_wal_interval_ms: u64,
    pub async_sync_storage_interval_ms: u64,
    pub async_sync_max_records: u64,
    pub phase: BenchPhase,
    pub projection_pipeline_only: bool,
}

/// The smallest map that is accepted: 8 MiB.
pub const MIN_MMAP_BYTES: usize = 8_388_608;

/// The settings without any options.
pub open spec fn load_defaults() -> LoadConfig {
    LoadConfig {
        records: 100_000,
        read_sample: 10_000,
        data_dir_arg: None,
        mmap_bytes: 536_870_912,
        mode: BenchMode::Strict,
        batch_size: 1000,
        threads: 1,
        prep_batch: 5000,
        concurrent_writers: false,
        wal_shards: 1,
        wal_interval_ms: None,
        async_sync: false,
        async_sync_interval_ms: 10,
        async_sync_wal_interval_ms: 10,
        async_sync_storage_interval_ms: 100,
        async_sync_max_records: 10_000,
        phase: BenchPhase::Full,
        projection_pipeline_only: false,
    }
}

/// An option of the load benchmark.
#[derive(Debug, Clone, Copy, PartialEq, Eq, Structural)]
pub enum LoadOption {
    Records,
    ReadSample,
    MmapBytes,
    BatchSize,
    Threads,
    PrepBatch,
    WalShards,
    WalIntervalMs,
    AsyncSyncIntervalMs,
    AsyncSyncWalIntervalMs,
    AsyncSyncStorageIntervalMs,
    AsyncSyncMaxRecords,
    ConcurrentWriters,
    ProjectionPipelineOnly,
    AsyncSync,
    DataDir,
    Mode,
    Phase,
}

/// The option that an argument names.
pub open spec fn load_option(name: Seq<char>) -> Option<LoadOption> {
    if name == "--records"@ {
        Some(LoadOption::Records)
    } else if name == "--read-sample"@ {
        Some(LoadOption::ReadSample)
    } else if name == "--mmap-bytes"@ {
        Some(LoadOption::MmapBytes)
    } else if name == "--batch-size"@ {
        Some(LoadOption::BatchSize)
    } else if name == "--threads"@ {
        Some(LoadOption::Threads)
    } else if name == "--prep-batch"@ {
        Some(LoadOption::PrepBatch)
    } else if name == "--wal-shards"@ {
        Some(LoadOption::WalShards)
    } else if name == "--wal-interval-ms"@ {
        Some(LoadOption::WalIntervalMs)
    } else if name == "--async-sync-interval-ms"@ {
        Some(LoadOption::AsyncSyncIntervalMs)
    } else if name == "--async-sync-wal-interval-ms"@ {
        Some(LoadOption::AsyncSyncWalIntervalMs)
    } else if name == "--async-sync-storage-interval-ms"@ {
        Some(LoadOption::AsyncSyncStorageIntervalMs)
    } else if name == "--async-sync-max-records"@ {
        Some(LoadOption::AsyncSyncMaxRecords)
    } else if name == "--concurrent-writers"@ {
        Some(LoadOption::ConcurrentWriters)
    } else if name == "--projection-pipeline-only"@ {
        Some(LoadOption::ProjectionPipelineOnly)
    } else if name == "--async-sync"@ {
        Some(LoadOption::AsyncSync)
    } else if name == "--data-dir"@ {
        Some(LoadOption::DataDir)
    } else if name == "--mode"@ {
        Some(LoadOption::Mode)
    } else if name == "--phase"@ {
        Some(LoadOption::Phase)
    } else {
        None
    }
}

/// The option that an argument names.
fn find_option(name: &str) -> (r: Option<LoadOption>)
    ensures
        r == load_option(name@),
{
    if str_eq(name, "--records") {
        Some(LoadOption::Records)
    } else if str_eq(name, "--read-sample") {
        Some(LoadOption::ReadSample)
    } else if str_eq(name, "--mmap-bytes") {
        Some(LoadOption::MmapBytes)
    } else if str_eq(name, "--batch-size") {
        Some(LoadOption::BatchSize)
    } else if str_eq(name, "--threads") {
        Some(LoadOption::Threads)
    } else if str_eq(name, "--prep-batch") {
        Some(LoadOption::PrepBatch)
    } else if str_eq(name, "--wal-shards") {
        Some(LoadOption::WalShards)
    } else if str_eq(name, "--wal-interval-ms") {
        Some(LoadOption::WalIntervalMs)
    } else if str_eq(name, "--async-sync-interval-ms") {
        Some(LoadOption::AsyncSyncIntervalMs)
    } else if str_eq(name, "--async-sync-wal-interval-ms") {
        Some(LoadOption::AsyncSyncWalIntervalMs)
    } else if str_eq(name, "--async-sync-storage-interval-ms") {
        Some(LoadOption::AsyncSyncStorageIntervalMs)
    } else if str_eq(name, "--async-sync-max-records") {
        Some(LoadOption::AsyncSyncMaxRecords)
    } else if str_eq(name, "--concurrent-writers") {
        Some(LoadOption::ConcurrentWriters)
    } else if str_eq(name, "--projection-pipeline-only") {
        Some(LoadOption::ProjectionPipelineOnly)
    } else if str_eq(name, "--async-sync") {
        Some(LoadOption::AsyncSync)
    } else if str_eq(name, "--data-dir") {
        Some(LoadOption::DataDir)
    } else if str_eq(name, "--mode") {
        Some(LoadOption::Mode)
    } else if str_eq(name, "--phase") {
        Some(LoadOption::Phase)
    } else {
        None
    }
}

/// Whether an option stands alone.
pub open spec fn is_flag(o: LoadOption) -> bool {
    o == LoadOption::ConcurrentWriters || o == LoadOption::ProjectionPipelineOnly || o == LoadOption::AsyncSync
}

/// The settings with a switch turned on.
pub open spec fn with_flag(c: LoadConfig, o: LoadOption) -> LoadConfig {
    match o {
        LoadOption::ConcurrentWriters => LoadConfig { concurrent_writers: true, ..c },
        LoadOption::ProjectionPipelineOnly => LoadConfig { projection_pipeline_only: true, ..c },
        LoadOption::AsyncSync => LoadConfig { async_sync: true, ..c },
        _ => c,
    }
}

/// The largest number that an option takes.
pub open spec fn load_max(o: LoadOption) -> u64 {
    match o {
        LoadOption::Records => usize::MAX as u64,
        LoadOption::ReadSample => usize::MAX as u64,
        LoadOption::MmapBytes => usize::MAX as u64,
        LoadOption::BatchSize => usize::MAX as u64,
        LoadOption::Threads => usize::MAX as u64,
        LoadOption::PrepBatch => usize::MAX as u64,
        LoadOption::WalShards => usize::MAX as u64,
        LoadOption::WalIntervalMs => u64::MAX,
        LoadOption::AsyncSyncIntervalMs => u64::MAX,
        LoadOption::AsyncSyncWalIntervalMs => u64::MAX,
        LoadOption::AsyncSyncStorageIntervalMs => u64::MAX,
        LoadOption::AsyncSyncMaxRecords => u64::MAX,
        _ => 0,
    }
}

/// The settings with a number set.
pub open spec fn with_number(c: LoadConfig, o: LoadOption, v: nat) -> LoadConfig {
    match o {
        LoadOption::Records => LoadConfig { records: v as usize, ..c },
        LoadOption::ReadSample => LoadConfig { read_sample: v as usize, ..c },
        LoadOption::MmapBytes => LoadConfig { mmap_bytes: v as usize, ..c },
        LoadOption::BatchSize => LoadConfig { batch_size: v as usize, ..c },
        LoadOption::Threads => LoadConfig { threads: v as usize, ..c },
        LoadOption::PrepBatch => LoadConfig { prep_batch: v as usize, ..c },
        LoadOption::WalShards => LoadConfig { wal_shards: v as usize, ..c },
        LoadOption::WalIntervalMs => LoadConfig { wal_interval_ms: Some(v as u64), ..c },
        LoadOption::AsyncSyncIntervalMs => LoadConfig { async_sync_interval_ms: v as u64, ..c },
        LoadOption::AsyncSyncWalIntervalMs => LoadConfig { async_sync_wal_interval_ms: v as u64, ..c },
        LoadOption::AsyncSyncStorageIntervalMs => LoadConfig { async_sync_storage_interval_ms: v as u64, ..c },
        LoadOption::AsyncSyncMaxRecords => LoadConfig { async_sync_max_records: v as u64, ..c },
        _ => c,
    }
}

/// The settings with the value of an option at a position set, or what is said of it.
pub open spec fn with_value(c: LoadConfig, o: LoadOption, name: Seq<char>, value: Seq<char>, at: usize) -> Result<
    LoadConfig,
    Seq<char>,
> {
    match o {
        LoadOption::DataDir => Ok(LoadConfig { data_dir_arg: Some(at), ..c }),
        LoadOption::Mode => match mode_named(value) {
            Ok(m) => Ok(LoadConfig { mode: m, ..c }),
            Err(e) => Err(e),
        },
        LoadOption::Phase => match phase_named(value) {
            Ok(p) => Ok(LoadConfig { phase: p, ..c }),
            Err(e) => Err(e),
        },
        _ => match number_value(value, load_max(o), "invalid "@ + name) {
            Ok(v) => Ok(with_number(c, o, v)),
            Err(e) => Err(e),
        },
    }
}

/// The settings after the arguments from `k` on, or what is said of the first that is wrong.
pub open spec fn load_from(c: LoadConfig, args: Seq<Seq<char>>, k: int) -> Result<LoadConfig, Seq<char>>
    decreases args.len() - k,
{
    if k < 0 || k >= args.len() {
        Ok(c)
    } else {
        match load_option(args[k]) {
            None => Err("unknown argument: "@ + args[k]),
            Some(o) => if is_flag(o) {
                load_from(with_flag(c, o), args, k + 1)
            } else if k + 1 >= args.len() {
                Err(args[k] + " requires a value"@)
            } else {
                match with_value(c, o, args[k], args[k + 1], (k + 1) as usize) {
                    Ok(d) => load_from(d, args, k + 2),
                    Err(e) => Err(e),
                }
            },
        }
    }
}

/// The first thing wrong with settings as a whole.
pub open spec fn load_fault(c: LoadConfig) -> Option<Seq<char>> {
    if c.records == 0 {
        Some("--records must be > 0"@)
    } else if c.mmap_bytes < MIN_MMAP_BYTES {
        Some("--mmap-bytes must be >= 8MB"@)
    } else if c.batch_size == 0 {
        Some("--batch-size must be > 0"@)
    } else if c.threads == 0 {
        Some("--threads must be > 0"@)
    } else if c.prep_batch == 0 {
        Some("--prep-batch must be > 0"@)
    } else if c.wal_shards == 0 {
        Some("--wal-shards must be > 0"@)
    } else if c.async_sync_max_records == 0 {
        Some("--async-sync-max-records must be > 0"@)
    } else {
        None
    }
}

/// What the arguments ask for, or what is said of them.
pub open spec fn load_settings(args: Seq<Seq<char>>) -> Result<LoadConfig, Seq<char>> {
    match load_from(load_defaults(), args, 0) {
        Err(e) => Err(e),
        Ok(c) => match load_fault(c) {
            Some(e) => Err(e),
            None => Ok(c),
        },
    }
}

fn default_config() -> (r: LoadConfig)
    ensures
        r == load_defaults(),
{
    LoadConfig {
        records: 100_000,
        read_sample: 10_000,
        data_dir_arg: None,
        mmap_bytes: 536_870_912,
        mode: BenchMode::Strict,
        batch_size: 1000,
        threads: 1,
        prep_batch: 5000,
        concurrent_writers: false,
        wal_shards: 1,
        wal_interval_ms: None,
        async_sync: false,
        async_sync_interval_ms: 10,
        async_sync_wal_interval_ms: 10,
        async_sync_storage_interval_ms: 100,
        async_sync_max_records: 10_000,
        phase: BenchPhase::Full,
        projection_pipeline_only: false,
    }
}

fn turn_on(c: LoadConfig, o: LoadOption) -> (r: LoadConfig)
    ensures
        r == with_flag(c, o),
{
    let mut d = c;
    match o {
        LoadOption::ConcurrentWriters => {
            d.concurrent_writers = true;
        },
        LoadOption::ProjectionPipelineOnly => {
            d.projection_pipeline_only = true;
        },
        LoadOption::AsyncSync => {
            d.async_sync = true;
        },
        _ => {},
    }
    d
}

fn set_number(c: LoadConfig, o: LoadOption, v: u64) -> (r: LoadConfig)
    requires
        v <= load_max(o),
    ensures
        r == with_number(c, o, v as nat),
{
    let mut d = c;
    match o {
        LoadOption::Records => {
            d.records = v as usize;
        },
        LoadOption::ReadSample => {
            d.read_sample = v as usize;
        },
        LoadOption::MmapBytes => {
            d.mmap_bytes = v as usize;
        },
        LoadOption::BatchSize => {
            d.batch_size = v as usize;
        },
        LoadOption::Threads => {
            d.threads = v as usize;
        },
        LoadOption::PrepBatch => {
            d.prep_batch = v as usize;
        },
        LoadOption::WalShards => {
            d.wal_shards = v as usize;
        },
        LoadOption::WalIntervalMs => {
            d.wal_interval_ms = Some(v);
        },
        LoadOption::AsyncSyncIntervalMs => {
            d.async_sync_interval_ms = v;
        },
        LoadOption::AsyncSyncWalIntervalMs => {
            d.async_sync_wal_interval_ms = v;
        },
        LoadOption::AsyncSyncStorageIntervalMs => {
            d.async_sync_storage_interval_ms = v;
        },
        LoadOption::AsyncSyncMaxRecords => {
            d.async_sync_max_records = v;
        },
        _ => {},
    }
    d
}

fn number_max(o: LoadOption) -> (r: u64)
    ensures
        r == load_max(o),
{
    match o {
        LoadOption::Records => usize::MAX as u64,
        LoadOption::ReadSample => usize::MAX as u64,
        LoadOption::MmapBytes => usize::MAX as u64,
        LoadOption::BatchSize => usize::MAX as u64,
        LoadOption::Threads => usize::MAX as u64,
        LoadOption::PrepBatch => usize::MAX as u64,
        LoadOption::WalShards => usize::MAX as u64,
        LoadOption::WalIntervalMs => u64::MAX,
        LoadOption::AsyncSyncIntervalMs => u64::MAX,
        LoadOption::AsyncSyncWalIntervalMs => u64::MAX,
        LoadOption::AsyncSyncStorageIntervalMs => u64::MAX,
        LoadOption::AsyncSyncMaxRecords => u64::MAX,
        _ => 0,
    }
}

fn set_value(c: LoadConfig, o: LoadOption, name: &str, value: &str, at: usize) -> (r: Result<LoadConfig, String>)
    ensures
        match (r, with_value(c, o, name@, value@, at)) {
            (Ok(a), Ok(b)) => a == b,
            (Err(a), Err(b)) => a@ == b,
            _ => false,
        },
{
    let mut d = c;
    match o {
        LoadOption::DataDir => {
            d.data_dir_arg = Some(at);
            Ok(d)
        },
        LoadOption::Mode => match BenchMode::parse(value) {
            Ok(m) => {
                d.mode = m;
                Ok(d)
            },
            Err(e) => Err(e),
        },
        LoadOption::Phase => match BenchPhase::parse(value) {
            Ok(p) => {
                d.phase = p;
                Ok(d)
            },
            Err(e) => Err(e),
        },
        _ => {
            let label = join2("invalid ", name);
            match number_option(value, number_max(o), label.as_str()) {
                Ok(v) => Ok(set_number(c, o, v)),
                Err(e) => Err(e),
            }
        },
    }
}

fn whole_fault(c: &LoadConfig) -> (r: Option<String>)
    ensures
        match (r, load_fault(*c)) {
            (Some(a), Some(b)) => a@ == b,
            (None, None) => true,
            _ => false,
        },
{
    if c.records == 0 {
        Some(owned("--records must be > 0"))
    } else if c.mmap_bytes < MIN_MMAP_BYTES {
        Some(owned("--mmap-bytes must be >= 8MB"))
    } else if c.batch_size == 0 {
        Some(owned("--batch-size must be > 0"))
    } else if c.threads == 0 {
        Some(owned("--threads must be > 0"))
    } else if c.prep_batch == 0 {
        Some(owned("--prep-batch must be > 0"))
    } else if c.wal_shards == 0 {
        Some(owned("--wal-shards must be > 0"))
    } else if c.async_sync_max_records == 0 {
        Some(owned("--async-sync-max-records must be > 0"))
    } else {
        None
    }
}

/// Reads the arguments of the load benchmark.
pub fn parse_load_args(args: &Vec<String>) -> (r: Result<LoadConfig, String>)
    ensures
        match (r, load_settings(texts(args@))) {
            (Ok(a), Ok(b)) => a == b,
            (Err(a), Err(b)) => a@ == b,
            _ => false,
        },
{
    let ghost all = texts(args@);
    let n: usize = args.len();
    let mut c = default_config();
    let mut k: usize = 0;
    while k < n
        invariant
            n == args@.len(),
            all == texts(args@),
            0 <= k <= n,
            load_from(load_defaults(), all, 0) == load_from(c, all, k as int),
        decreases n - k,
    {
        let name = args[k].as_str();
        proof {
            assert(all[k as int] == name@);
        }
        match find_option(name) {
            None => {
                return Err(join2("unknown argument: ", name));
            },
            Some(o) => {
                let flag = match o {
                    LoadOption::ConcurrentWriters | LoadOption::ProjectionPipelineOnly | LoadOption::AsyncSync => true,
                    _ => false,
                };
                if flag {
                    c = turn_on(c, o);
                    k = k + 1;
                } else {
                    let missing = join2(name, " requires a value");
                    let value = match value_at(args, k + 1, missing.as_str()) {
                        Ok(v) => v,
                        Err(e) => {
                            return Err(e);
                        },
                    };
                    proof {
                        assert(all[k + 1] == value@);
                    }
                    c = match set_value(c, o, name, value.as_str(), k + 1) {
                        Ok(d) => d,
                        Err(e) => {
                            return Err(e);
                        },
                    };
                    k = k + 2;
                }
            },
        }
    }
    match whole_fault(&c) {
        Some(e) => Err(e),
        None => Ok(c),
    }
}

/// Settings that are accepted can be run: nothing that has to be positive is zero.
pub proof fn law_accepted_settings_can_run(args: Seq<Seq<char>>)
    requires
        load_settings(args) is Ok,
    ensures
        ({
            let c = load_settings(args)->Ok_0;
            c.records > 0 && c.batch_size > 0 && c.threads > 0 && c.prep_batch > 0 && c.wal_shards > 0
                && c.async_sync_max_records > 0 && c.mmap_bytes >= MIN_MMAP_BYTES
        }),
{
}

} // verus!
