//! The course of the load benchmark: which parts run, which writer takes which records, when
//! the background syncs, and what is checked of what was written.
use super::load_options::{BenchMode, BenchPhase, LoadConfig};
use crate::codec::CodecError;
use crate::model::{strand_views, Strand, StrandView};
use crate::processor::strand_signature;
use crate::query::guide::{GuidePattern, GuideView};
use crate::query::matching::{project_rows, projects, ProjectedRow};
use crate::query::segment::{
    should_skip_block, should_skip_block_bloom_only, should_skip_segment,
    should_skip_segment_bloom_only, skips, SegmentBlockMeta, SegmentMeta,
};
use crate::query::signatures::{lemma_last_with, strand_by_signature};
use crate::storage::{decode_all_strands, pool_broken, pool_holds};
use crate::support::bytes::le_bytes;
use crate::support::num_text::{decimal, u64_text};
use crate::support::str_set::StrSet;
use crate::support::text::{join2, owned};
use vstd::prelude::*;

verus! {

/// Which parts of the benchmark run.
#[derive(Debug, Clone, Copy, PartialEq, Eq, Structural)]
pub struct RunPlan {
    pub write: bool,
    /// By several threads at once.
    pub concurrent: bool,
    pub sharded_log: bool,
    pub projection_stream: bool,
    pub full_decode: bool,
    pub query_suite: bool,
}

/// Which parts some settings ask for.
pub open spec fn planned(c: LoadConfig) -> RunPlan {
    let reads = c.phase == BenchPhase::Full || c.phase == BenchPhase::Verify || c.phase == BenchPhase::Query;
    let write = c.phase == BenchPhase::Full || c.phase == BenchPhase::Ingest;
    RunPlan {
        write,
        concurrent: write && c.concurrent_writers && c.threads > 1,
        sharded_log: c.concurrent_writers && c.threads > 1 && c.wal_shards > 1,
        projection_stream: c.projection_pipeline_only && reads,
        full_decode: reads && !c.projection_pipeline_only,
        query_suite: (c.phase == BenchPhase::Full || c.phase == BenchPhase::Query) && !c.projection_pipeline_only,
    }
}

/// Which parts the settings ask for.
pub fn plan_run(c: &LoadConfig) -> (r: RunPlan)
    ensures
        r == planned(*c),
{
    let reads = c.phase == BenchPhase::Full || c.phase == BenchPhase::Verify || c.phase == BenchPhase::Query;
    let write = c.phase == BenchPhase::Full || c.phase == BenchPhase::Ingest;
    RunPlan {
        write,
        concurrent: write && c.concurrent_writers && c.threads > 1,
        sharded_log: c.concurrent_writers && c.threads > 1 && c.wal_shards > 1,
        projection_stream: c.projection_pipeline_only && reads,
        full_decode: reads && !c.projection_pipeline_only,
        query_suite: (c.phase == BenchPhase::Full || c.phase == BenchPhase::Query) && !c.projection_pipeline_only,
    }
}

/// The limits of a group commit: records in a batch, and milliseconds if there is a timer; no
/// group commit in the fast mode.
pub fn commit_limits(c: &LoadConfig) -> (r: Option<(usize, Option<u64>)>)
    ensures
        r == (match c.mode {
            BenchMode::Fast => None,
            _ => Some(
                (
                    if c.batch_size < 1 {
                        1
                    } else {
                        c.batch_size
                    },
                    match c.wal_interval_ms {
                        Some(ms) => if ms == 0 {
                            None
                        } else {
                            Some(ms)
                        },
                        None => None,
                    },
                ),
            ),
        }),
{
    match c.mode {
        BenchMode::Fast => None,
        BenchMode::Strict | BenchMode::Balanced => {
            let batch: usize = if c.batch_size < 1 {
                1
            } else {
                c.batch_size
            };
            let ms: u64 = match c.wal_interval_ms {
                Some(ms) => ms,
                None => c.mode.default_wal_interval_ms(),
            };
            let timer: Option<u64> = if ms == 0 {
                None
            } else {
                Some(ms)
            };
            Some((batch, timer))
        },
    }
}

/// The limits of the background sync: milliseconds for the log and for the pools, and records.
#[derive(Debug, Clone, Copy, PartialEq, Eq, Structural)]
pub struct SyncLimits {
    pub wal_ms: u64,
    pub storage_ms: u64,
    pub max_records: u64,
}

/// The largest of two numbers and 1.
pub open spec fn at_least_one(a: u64, b: u64) -> u64 {
    if a < 1 && b < 1 {
        1
    } else if a < b {
        b
    } else {
        a
    }
}

/// What the background does: syncs the pools, the log, and starts to count anew.
#[derive(Debug, Clone, Copy, PartialEq, Eq, Structural)]
pub struct SyncStep {
    pub storage: bool,
    pub wal: bool,
    pub forget_pending: bool,
}

impl SyncLimits {
    /// The limits of some settings. No interval is shorter than the common one.
    pub fn of(c: &LoadConfig) -> (r: Self)
        ensures
            r.wal_ms == at_least_one(c.async_sync_wal_interval_ms, c.async_sync_interval_ms),
            r.storage_ms == at_least_one(c.async_sync_storage_interval_ms, c.async_sync_interval_ms),
            r.max_records == at_least_one(c.async_sync_max_records, 1),
    {
        SyncLimits {
            wal_ms: larger_of(c.async_sync_wal_interval_ms, c.async_sync_interval_ms),
            storage_ms: larger_of(c.async_sync_storage_interval_ms, c.async_sync_interval_ms),
            max_records: larger_of(c.async_sync_max_records, 1),
        }
    }

    /// What to do with so many records pending, so long after the last syncs; nothing where
    /// nothing is pending or due.
    pub fn step(&self, pending: u64, wal_age_ns: u128, storage_age_ns: u128) -> (r: Option<SyncStep>)
        ensures
            ({
                let full = pending >= self.max_records;
                let wal = full || wal_age_ns >= self.wal_ms * 1_000_000;
                let storage = full || storage_age_ns >= self.storage_ms * 1_000_000;
                r == (if pending == 0 || !(wal || storage) {
                    None
                } else {
                    Some(SyncStep { storage, wal, forget_pending: storage || full })
                })
            }),
    {
        if pending == 0 {
            return None;
        }
        let full = pending >= self.max_records;
        let wal = full || wal_age_ns >= self.wal_ms as u128 * 1_000_000;
        let storage = full || storage_age_ns >= self.storage_ms as u128 * 1_000_000;
        if !(wal || storage) {
            return None;
        }
        Some(SyncStep { storage, wal, forget_pending: storage || full })
    }
}

fn larger_of(a: u64, b: u64) -> (r: u64)
    ensures
        r == at_least_one(a, b),
{
    if a < 1 && b < 1 {
        1
    } else if a < b {
        b
    } else {
        a
    }
}

/// The records that a writer takes, from `first` on: every `threads`-th.
pub open spec fn stride(first: nat, total: nat, threads: nat) -> Seq<usize>
    decreases (if first < total { total - first } else { 0 }),
{
    if first >= total || threads == 0 {
        Seq::empty()
    } else {
        seq![first as usize] + stride(first + threads, total, threads)
    }
}

/// The records of a writer.
pub fn writer_records(writer: usize, total: usize, threads: usize) -> (r: Vec<usize>)
    requires
        threads > 0,
    ensures
        r@ == stride(writer as nat, total as nat, threads as nat),
{
    let mut out: Vec<usize> = Vec::new();
    let mut next: usize = writer;
    let ghost goal = stride(writer as nat, total as nat, threads as nat);
    proof {
        assert(out@ + goal =~= goal);
    }
    while next < total
        invariant
            threads > 0,
            goal == stride(writer as nat, total as nat, threads as nat),
            out@ + stride(next as nat, total as nat, threads as nat) == goal,
        decreases total - next,
    {
        let ghost before = out@;
        let ghost rest = stride((next + threads) as nat, total as nat, threads as nat);
        out.push(next);
        proof {
            assert(before + (seq![next] + rest) =~= out@ + rest);
        }
        if threads >= total - next {
            proof {
                assert(rest =~= Seq::<usize>::empty());
                assert(out@ + rest =~= out@);
            }
            return out;
        }
        next = next + threads;
    }
    proof {
        let rest = stride(next as nat, total as nat, threads as nat);
        assert(rest =~= Seq::<usize>::empty());
        assert(out@ + rest =~= out@);
    }
    out
}

proof fn lemma_stride(first: nat, total: nat, threads: nat, r: usize)
    requires
        threads > 0,
        total <= usize::MAX,
    ensures
        stride(first, total, threads).contains(r) <==> first <= r < total && (r - first) % (threads as int) == 0,
    decreases (if first < total { total - first } else { 0 }),
{
    let whole = stride(first, total, threads);
    let t = threads as int;
    if first < total {
        let rest = stride(first + threads, total, threads);
        lemma_stride(first + threads, total, threads, r);
        vstd::arithmetic::div_mod::lemma_mod_add_multiples_vanish(r - first - t, t);
        if whole.contains(r) {
            let i = choose|i: int| 0 <= i < whole.len() && whole[i] == r;
            if i == 0 {
                vstd::arithmetic::div_mod::lemma_small_mod(0, threads);
            } else {
                assert(rest[i - 1] == r);
            }
        }
        if first <= r < total && (r - first) % t == 0 {
            if r == first {
                assert(whole[0] == r);
            } else {
                if r - first < t {
                    vstd::arithmetic::div_mod::lemma_small_mod((r - first) as nat, threads);
                }
                assert(rest.contains(r));
                let i = choose|i: int| 0 <= i < rest.len() && rest[i] == r;
                assert(whole[i + 1] == r);
            }
        }
    }
}

/// Every record is taken by exactly one of the writers.
pub proof fn law_each_record_has_one_writer(total: nat, threads: nat, record: usize, writer: nat)
    requires
        threads > 0,
        total <= usize::MAX,
        record < total,
        writer < threads,
    ensures
        stride(writer, total, threads).contains(record) <==> writer == record as int % (threads as int),
{
    lemma_stride(writer, total, threads, record);
    let t = threads as int;
    let r = record as int;
    let w = writer as int;
    vstd::arithmetic::div_mod::lemma_fundamental_div_mod(r, t);
    vstd::arithmetic::div_mod::lemma_mod_bound(r, t);
    let m = r % t;
    let q = r / t;
    if w == m {
        vstd::arithmetic::div_mod::lemma_mod_multiples_basic(q, t);
        assert(r - w == q * t) by (nonlinear_arith)
            requires
                r == t * q + m,
                w == m,
        ;
    }
    if w <= r && (r - w) % t == 0 {
        vstd::arithmetic::div_mod::lemma_fundamental_div_mod(r - w, t);
        let p = (r - w) / t;
        assert(r == p * t + w) by (nonlinear_arith)
            requires
                r - w == t * p + 0,
        ;
        vstd::arithmetic::div_mod::lemma_fundamental_div_mod_converse(r, t, p, w);
    }
    assert(m <= r) by (nonlinear_arith)
        requires
            r == t * q + m,
            q >= 0,
            t > 0,
    ;
}

/// The log of a shard, numbered with at least two digits.
pub fn shard_name(collection: &str, shard: usize) -> (r: String)
    ensures
        r@ == collection@ + "_shard_"@ + (if shard < 10 {
            "0"@
        } else {
            ""@
        }) + decimal(shard as nat),
{
    let mut s = join2(collection, "_shard_");
    s.append(
        if shard < 10 {
            "0"
        } else {
            ""
        },
    );
    let digits = u64_text(shard as u64);
    s.append(digits.as_str());
    s
}

/// The record that the `i`-th point read asks for.
pub open spec fn sampled(i: int, records: int) -> int {
    (i * 9973) % records
}

/// How many point reads there are.
pub open spec fn sample_size(read_sample: usize, records: usize) -> nat {
    let n = if read_sample < records {
        read_sample
    } else {
        records
    };
    if n < 1 {
        1
    } else {
        n as nat
    }
}

/// The signature under which a record is written.
pub open spec fn record_signature(record: int) -> Seq<u8> {
    le_bytes((record + 1) as nat, 8)
}

/// Whether a record is among strands.
pub open spec fn present(strands: Seq<StrandView>, record: int) -> bool {
    exists|i: int| 0 <= i < strands.len() && #[trigger] strands[i].signature@ == record_signature(record)
}

/// Looks records up by their signatures: how many, or the first one that is missing.
pub fn check_sample(strands: &[Strand], read_sample: usize, records: usize) -> (r: Result<usize, usize>)
    requires
        records > 0,
        sample_size(read_sample, records) * 9973 <= usize::MAX,
    ensures
        match r {
            Ok(n) => n == sample_size(read_sample, records) && forall|i: int|
                0 <= i < n ==> present(strand_views(strands@), #[trigger] sampled(i, records as int)),
            Err(missing) => exists|i: int|
                0 <= i < sample_size(read_sample, records) && #[trigger] sampled(i, records as int) == missing
                    && !present(strand_views(strands@), missing as int) && forall|k: int|
                    0 <= k < i ==> present(strand_views(strands@), #[trigger] sampled(k, records as int)),
        },
{
    let ghost views = strand_views(strands@);
    let index = strand_by_signature(strands);
    let least: usize = if read_sample < records {
        read_sample
    } else {
        records
    };
    let n: usize = if least < 1 {
        1
    } else {
        least
    };
    let mut i: usize = 0;
    while i < n
        invariant
            0 <= i <= n,
            n == sample_size(read_sample, records),
            n * 9973 <= usize::MAX,
            records > 0,
            views == strand_views(strands@),
            index.strands() == views,
            forall|k: int| 0 <= k < i ==> present(views, #[trigger] sampled(k, records as int)),
        decreases n - i,
    {
        proof {
            assert(i * 9973 <= n * 9973) by (nonlinear_arith)
                requires
                    i <= n,
            ;
        }
        let record: usize = (i * 9973) % records;
        let sig = strand_signature(record as u64 + 1);
        proof {
            lemma_last_with(views, sig, views.len());
        }
        if index.get(&sig).is_none() {
            let r = Err(record);
            proof {
                assert(sampled(i as int, records as int) == record);
                assert forall|k: int| 0 <= k < views.len() implies #[trigger] views[k].signature@ != record_signature(
                    record as int,
                ) by {
                    if views[k].signature@ == sig@ {
                        assert(views[k].signature =~= sig);
                    }
                }
            }
            return r;
        }
        proof {
            assert(sampled(i as int, records as int) == record);
            assert(present(views, record as int));
        }
        i += 1;
    }
    Ok(n)
}

/// How many segments and blocks a pattern lets a scan skip, and how many of them only the
/// dictionaries rule out.
#[derive(Debug, Clone, Copy, PartialEq, Eq, Structural)]
pub struct SkipCounts {
    pub segments: usize,
    pub segments_by_dictionary: usize,
    pub blocks: usize,
    pub blocks_by_dictionary: usize,
}

/// Whether a segment is skipped, with its dictionaries or without.
pub open spec fn segment_skips(m: SegmentMeta, g: GuideView, books: bool) -> bool {
    skips(
        m.field_stats@,
        if books {
            Some(m.field_dictionaries@)
        } else {
            None
        },
        g,
    )
}

/// Whether a block is skipped, with its dictionaries or without.
pub open spec fn block_skips(m: SegmentBlockMeta, g: GuideView, books: bool) -> bool {
    skips(
        m.field_stats@,
        if books {
            Some(m.field_dictionaries@)
        } else {
            None
        },
        g,
    )
}

/// How many of the first `n` segments are skipped.
pub open spec fn skipped_segments(ms: Seq<SegmentMeta>, g: GuideView, books: bool, n: nat) -> nat
    decreases n,
{
    if n == 0 {
        0
    } else {
        skipped_segments(ms, g, books, (n - 1) as nat) + (if segment_skips(ms[n - 1], g, books) {
            1nat
        } else {
            0nat
        })
    }
}

/// How many of the first `n` blocks are skipped.
pub open spec fn skipped_blocks(ms: Seq<SegmentBlockMeta>, g: GuideView, books: bool, n: nat) -> nat
    decreases n,
{
    if n == 0 {
        0
    } else {
        skipped_blocks(ms, g, books, (n - 1) as nat) + (if block_skips(ms[n - 1], g, books) {
            1nat
        } else {
            0nat
        })
    }
}

/// How many blocks of the first `n` segments are skipped.
pub open spec fn skipped_in_all(ms: Seq<Vec<SegmentBlockMeta>>, g: GuideView, books: bool, n: nat) -> nat
    decreases n,
{
    if n == 0 {
        0
    } else {
        skipped_in_all(ms, g, books, (n - 1) as nat) + skipped_blocks(ms[n - 1]@, g, books, ms[n - 1]@.len())
    }
}

/// How many blocks the first `n` segments have.
pub open spec fn blocks_in_all(ms: Seq<Vec<SegmentBlockMeta>>, n: nat) -> nat
    decreases n,
{
    if n == 0 {
        0
    } else {
        blocks_in_all(ms, (n - 1) as nat) + ms[n - 1]@.len()
    }
}

proof fn lemma_blocks_grow(ms: Seq<Vec<SegmentBlockMeta>>, n: nat, m: nat)
    requires
        n <= m <= ms.len(),
    ensures
        blocks_in_all(ms, n) <= blocks_in_all(ms, m),
    decreases m,
{
    if n < m {
        lemma_blocks_grow(ms, n, (m - 1) as nat);
    }
}

fn count_blocks(blocks: &Vec<SegmentBlockMeta>, pattern: &GuidePattern) -> (r: (usize, usize))
    ensures
        r.0 == skipped_blocks(blocks@, pattern@, true, blocks@.len()),
        r.1 == skipped_blocks(blocks@, pattern@, false, blocks@.len()),
        r.0 <= blocks@.len(),
        r.1 <= blocks@.len(),
{
    let mut with: usize = 0;
    let mut without: usize = 0;
    let mut i: usize = 0;
    while i < blocks.len()
        invariant
            0 <= i <= blocks@.len(),
            with == skipped_blocks(blocks@, pattern@, true, i as nat),
            without == skipped_blocks(blocks@, pattern@, false, i as nat),
            with <= i,
            without <= i,
        decreases blocks@.len() - i,
    {
        if should_skip_block(&blocks[i], pattern) {
            with += 1;
        }
        if should_skip_block_bloom_only(&blocks[i], pattern) {
            without += 1;
        }
        i += 1;
    }
    (with, without)
}

/// `a - b`, at least zero.
pub open spec fn surplus(a: nat, b: nat) -> nat {
    if a < b {
        0
    } else {
        (a - b) as nat
    }
}

/// Counts what a pattern lets a scan skip.
pub fn count_skips(segments: &Vec<SegmentMeta>, blocks: &Vec<Vec<SegmentBlockMeta>>, pattern: &GuidePattern) -> (r:
    SkipCounts)
    requires
        blocks_in_all(blocks@, blocks@.len()) <= usize::MAX,
    ensures
        ({
            let g = pattern@;
            let n = segments@.len();
            let m = blocks@.len();
            &&& r.segments == skipped_segments(segments@, g, true, n)
            &&& r.segments_by_dictionary == surplus(
                skipped_segments(segments@, g, true, n),
                skipped_segments(segments@, g, false, n),
            )
            &&& r.blocks == skipped_in_all(blocks@, g, true, m)
            &&& r.blocks_by_dictionary == surplus(
                skipped_in_all(blocks@, g, true, m),
                skipped_in_all(blocks@, g, false, m),
            )
        }),
{
    let mut with: usize = 0;
    let mut without: usize = 0;
    let mut i: usize = 0;
    while i < segments.len()
        invariant
            0 <= i <= segments@.len(),
            with == skipped_segments(segments@, pattern@, true, i as nat),
            without == skipped_segments(segments@, pattern@, false, i as nat),
            with <= i,
            without <= i,
        decreases segments@.len() - i,
    {
        if should_skip_segment(&segments[i], pattern) {
            with += 1;
        }
        if should_skip_segment_bloom_only(&segments[i], pattern) {
            without += 1;
        }
        i += 1;
    }
    let mut blocks_with: usize = 0;
    let mut blocks_without: usize = 0;
    let mut j: usize = 0;
    while j < blocks.len()
        invariant
            0 <= j <= blocks@.len(),
            blocks_in_all(blocks@, blocks@.len()) <= usize::MAX,
            blocks_with == skipped_in_all(blocks@, pattern@, true, j as nat),
            blocks_without == skipped_in_all(blocks@, pattern@, false, j as nat),
            blocks_with <= blocks_in_all(blocks@, j as nat),
            blocks_without <= blocks_in_all(blocks@, j as nat),
        decreases blocks@.len() - j,
    {
        let (a, b) = count_blocks(&blocks[j], pattern);
        proof {
            lemma_blocks_grow(blocks@, (j + 1) as nat, blocks@.len());
        }
        blocks_with += a;
        blocks_without += b;
        j += 1;
    }
    SkipCounts {
        segments: with,
        segments_by_dictionary: with.saturating_sub(without),
        blocks: blocks_with,
        blocks_by_dictionary: blocks_with.saturating_sub(blocks_without),
    }
}

/// Dictionaries only ever let a scan skip more.
pub proof fn law_dictionaries_only_add_skips(segments: Seq<SegmentMeta>, g: GuideView, n: nat)
    requires
        n <= segments.len(),
    ensures
        skipped_segments(segments, g, false, n) <= skipped_segments(segments, g, true, n),
    decreases n,
{
    if n > 0 {
        law_dictionaries_only_add_skips(segments, g, (n - 1) as nat);
        let m = segments[n - 1];
        if segment_skips(m, g, false) {
            let i = choose|i: int|
                0 <= i < g.clauses.len() && crate::query::segment::clause_skips(
                    m.field_stats@,
                    None,
                    #[trigger] g.clauses[i],
                );
            assert(crate::query::segment::clause_skips(
                m.field_stats@,
                Some(m.field_dictionaries@),
                g.clauses[i],
            ));
        }
    }
}

/// Why the projection pipeline failed.
#[derive(Debug)]
pub enum PipelineError {
    /// A frame cannot be read.
    Codec(CodecError),
    /// There are other strands than were expected; the text says how many.
    Count(String),
}

/// What is said of a pool with `count` strands where others were expected.
pub open spec fn count_fault(count: nat, expected: nat) -> Seq<char> {
    "projection pipeline: decoded "@ + decimal(count) + " strands, expected "@ + decimal(expected)
}

/// Decodes the strands of a pool and projects each onto its payload.
pub fn projection_pipeline_stream_decode(bytes: &[u8], expected: usize) -> (r: Result<Vec<ProjectedRow>, PipelineError>)
    ensures
        match r {
            Ok(rows) => exists|vs: Seq<StrandView>| #[trigger]
                pool_holds(bytes@, vs) && vs.len() == expected && rows@.len() == expected && (forall|i: int|
                    0 <= i < expected ==> projects(#[trigger] rows@[i], vs[i], set!["_payload"@])),
            Err(PipelineError::Count(text)) => exists|vs: Seq<StrandView>| #[trigger]
                pool_holds(bytes@, vs) && vs.len() != expected && text@ == count_fault(vs.len(), expected as nat),
            Err(PipelineError::Codec(e)) => exists|vs: Seq<StrandView>| #[trigger] pool_broken(bytes@, vs, e),
        },
        forall|ws: Seq<StrandView>| #[trigger]
            pool_holds(bytes@, ws) ==> if ws.len() == expected {
                r matches Ok(rows) && rows@.len() == expected && (forall|i: int|
                    0 <= i < expected ==> projects(#[trigger] rows@[i], ws[i], set!["_payload"@]))
            } else {
                r matches Err(PipelineError::Count(text)) && text@ == count_fault(ws.len(), expected as nat)
            },
{
    let strands = match decode_all_strands(bytes) {
        Ok(v) => v,
        Err(e) => {
            return Err(PipelineError::Codec(e));
        },
    };
    let ghost vs = strand_views(strands@);
    let mut required = StrSet::new();
    let _ = required.insert(owned("_payload"));
    proof {
        assert(required@ =~= set!["_payload"@]);
    }
    let mut rows: Vec<ProjectedRow> = Vec::new();
    let mut i: usize = 0;
    while i < strands.len()
        invariant
            0 <= i <= strands@.len(),
            vs == strand_views(strands@),
            required@ == set!["_payload"@],
            rows@.len() == i,
            forall|k: int| 0 <= k < i ==> projects(#[trigger] rows@[k], vs[k], set!["_payload"@]),
        decreases strands@.len() - i,
    {
        let one = [&strands[i]];
        let mut projected = project_rows(one.as_slice(), &required);
        match projected.pop() {
            Some(row) => {
                rows.push(row);
            },
            None => {},
        }
        i += 1;
    }
    if strands.len() != expected {
        let found = u64_text(strands.len() as u64);
        let wanted = u64_text(expected as u64);
        let mut text = join2("projection pipeline: decoded ", found.as_str());
        text.append(" strands, expected ");
        text.append(wanted.as_str());
        proof {
            assert(text@ =~= count_fault(vs.len(), expected as nat));
        }
        return Err(PipelineError::Count(text));
    }
    Ok(rows)
}

} // verus!
