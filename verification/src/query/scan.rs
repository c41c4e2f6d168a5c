//! Scans over strands: candidate ranges from segment and block metadata, then the intron
//! filter on every strand in them, on one thread or on rayon's pool.
use super::fast_match::{all_fast_match, guide_introns_fast_match};
use super::fields::{carries, has_value};
use super::guide::{ClauseView, GuidePattern, GuideView};
use super::index::{number_in_range, GlobalHashIndex, GlobalRangeIndex};
use super::literal::numeric_value;
use super::segment::{
    clause_skips, describes, law_exact_skip_is_sound, law_range_skip_is_sound_for_numbers,
    should_skip_block, should_skip_segment, skips, FieldCompressionDictionary, FieldStats,
    SegmentBlockMeta, SegmentMeta,
};
use crate::model::{strand_views, Strand, StrandView};
use crate::support::str_map::StrMap;
use crate::support::str_set::StrSet;
use rayon::iter::{IntoParallelRefIterator, ParallelIterator};
use vstd::prelude::*;

verus! {

/// From this many strands on a scan is parallel.
pub const PARALLEL_STRAND_THRESHOLD: usize = 32;

/// Smallest chunk of a parallel scan.
pub const PARALLEL_SCAN_CHUNK_MIN: usize = 512;

/// Largest chunk of a parallel scan.
pub const PARALLEL_SCAN_CHUNK_MAX: usize = 8192;

/// Chunks aimed at for each worker thread.
pub const PARALLEL_TASKS_PER_THREAD_TARGET: usize = 4;

/// Optional filters and hints of a scan.
#[derive(Debug)]
pub struct ScanConfig {
    /// When set, only strands of this collection count.
    pub collection_id: Option<u32>,
    /// Segment metadata, aligned with `segment_ranges`.
    pub segment_metas: Option<Vec<SegmentMeta>>,
    /// Strand index ranges (from, to) of the segments.
    pub segment_ranges: Option<Vec<(usize, usize)>>,
    /// Block metadata of each segment; the outer index is aligned with `segment_ranges`.
    pub segment_block_metas: Option<Vec<Vec<SegmentBlockMeta>>>,
    /// Block ranges of each segment, counted from the segment's start; the outer index is
    /// aligned with `segment_ranges`.
    pub segment_block_ranges: Option<Vec<Vec<(usize, usize)>>>,
    /// Fields that the planner may take an index for.
    pub indexed_fields: Option<StrSet>,
    /// Exact indexes by field name.
    pub global_hash_indexes: Option<StrMap<GlobalHashIndex>>,
    /// Numeric indexes by field name.
    pub global_range_indexes: Option<StrMap<GlobalRangeIndex>>,
}

impl Default for ScanConfig {
    fn default() -> (r: Self)
        ensures
            r.collection_id is None,
            r.segment_metas is None,
            r.segment_ranges is None,
            r.segment_block_metas is None,
            r.segment_block_ranges is None,
            r.indexed_fields is None,
            r.global_hash_indexes is None,
            r.global_range_indexes is None,
    {
        ScanConfig {
            collection_id: None,
            segment_metas: None,
            segment_ranges: None,
            segment_block_metas: None,
            segment_block_ranges: None,
            indexed_fields: None,
            global_hash_indexes: None,
            global_range_indexes: None,
        }
    }
}

/// Whether a strand belongs to the collection asked for.
pub open spec fn scoped(id: Option<u32>, v: StrandView) -> bool {
    match id {
        Some(c) => v.collection_id == c,
        None => true,
    }
}

fn strand_in_scope(s: &Strand, collection_id: Option<u32>) -> (r: bool)
    ensures
        r == scoped(collection_id, s@),
{
    match collection_id {
        Some(id) => s.collection_id == id,
        None => true,
    }
}

/// The smaller of a number and a bound.
pub open spec fn clip(x: int, bound: usize) -> usize {
    if x < bound {
        x as usize
    } else {
        bound
    }
}

/// `a + b`, but at most `bound`.
fn clipped_sum(a: usize, b: usize, bound: usize) -> (r: usize)
    ensures
        r == clip(a + b, bound),
{
    if a < bound && b < bound - a {
        a + b
    } else {
        bound
    }
}

fn clipped(a: usize, bound: usize) -> (r: usize)
    ensures
        r == clip(a as int, bound),
{
    if a < bound {
        a
    } else {
        bound
    }
}

/// The ranges of the first `k` blocks that cannot be skipped, within the segment `seg`.
pub open spec fn kept_blocks(
    metas: Seq<SegmentBlockMeta>,
    blocks: Seq<(usize, usize)>,
    g: GuideView,
    seg: (usize, usize),
    n: usize,
    k: nat,
) -> Seq<(usize, usize)>
    decreases k,
{
    if k == 0 {
        Seq::empty()
    } else {
        let before = kept_blocks(metas, blocks, g, seg, n, (k - 1) as nat);
        let i = k - 1;
        let from = clip(seg.0 as int, n);
        let to = clip(seg.1 as int, n);
        let range = (clip(from + blocks[i].0, to), clip(from + blocks[i].1, to));
        if i < metas.len() && !skips(metas[i].field_stats@, Some(metas[i].field_dictionaries@), g) && range.0
            < range.1 {
            before.push(range)
        } else {
            before
        }
    }
}

/// The segments of a scan; without ranges all strands are one segment.
pub open spec fn segments(cfg: ScanConfig, n: usize) -> Seq<(usize, usize)> {
    match cfg.segment_ranges {
        Some(v) => v@,
        None => seq![(0usize, n)],
    }
}

/// Whether the `i`-th segment can be skipped as a whole.
pub open spec fn segment_skipped(cfg: ScanConfig, g: GuideView, i: int) -> bool {
    match (cfg.segment_ranges, cfg.segment_metas) {
        (Some(_), Some(metas)) => i < metas@.len() && skips(
            metas@[i].field_stats@,
            Some(metas@[i].field_dictionaries@),
            g,
        ),
        _ => false,
    }
}

/// Whether the `i`-th segment is divided into blocks.
pub open spec fn has_blocks(cfg: ScanConfig, i: int) -> bool {
    match (cfg.segment_block_metas, cfg.segment_block_ranges) {
        (Some(metas), Some(ranges)) => i < metas@.len() && i < ranges@.len() && metas@[i]@.len() > 0
            && ranges@[i]@.len() > 0,
        _ => false,
    }
}

/// What is left to scan of the `i`-th segment.
pub open spec fn kept_of_segment(cfg: ScanConfig, g: GuideView, n: usize, i: int) -> Seq<(usize, usize)> {
    if segment_skipped(cfg, g, i) {
        Seq::empty()
    } else if has_blocks(cfg, i) {
        kept_blocks(
            cfg.segment_block_metas->0@[i]@,
            cfg.segment_block_ranges->0@[i]@,
            g,
            segments(cfg, n)[i],
            n,
            cfg.segment_block_ranges->0@[i]@.len(),
        )
    } else {
        seq![segments(cfg, n)[i]]
    }
}

/// What is left to scan of the first `k` segments.
pub open spec fn kept_segments(cfg: ScanConfig, g: GuideView, n: usize, k: nat) -> Seq<(usize, usize)>
    decreases k,
{
    if k == 0 {
        Seq::empty()
    } else {
        kept_segments(cfg, g, n, (k - 1) as nat) + kept_of_segment(cfg, g, n, k - 1)
    }
}

/// The ranges to scan.
pub open spec fn candidates(cfg: ScanConfig, g: GuideView, n: usize) -> Seq<(usize, usize)> {
    kept_segments(cfg, g, n, segments(cfg, n).len())
}

/// Adds the blocks of one segment that cannot be skipped.
fn push_blocks(
    out: &mut Vec<(usize, usize)>,
    metas: &Vec<SegmentBlockMeta>,
    blocks: &Vec<(usize, usize)>,
    pattern: &GuidePattern,
    seg: (usize, usize),
    n: usize,
)
    ensures
        final(out)@ == old(out)@ + kept_blocks(metas@, blocks@, pattern@, seg, n, blocks@.len()),
{
    let from: usize = clipped(seg.0, n);
    let to: usize = clipped(seg.1, n);
    let ghost base = out@;
    let mut i: usize = 0;
    proof {
        assert(base + kept_blocks(metas@, blocks@, pattern@, seg, n, 0) =~= base);
    }
    while i < blocks.len()
        invariant
            0 <= i <= blocks@.len(),
            from == clip(seg.0 as int, n),
            to == clip(seg.1 as int, n),
            out@ == base + kept_blocks(metas@, blocks@, pattern@, seg, n, i as nat),
        decreases blocks@.len() - i,
    {
        let ghost before = kept_blocks(metas@, blocks@, pattern@, seg, n, i as nat);
        if i < metas.len() && !should_skip_block(&metas[i], pattern) {
            let start: usize = clipped_sum(from, blocks[i].0, to);
            let end: usize = clipped_sum(from, blocks[i].1, to);
            if start < end {
                out.push((start, end));
                proof {
                    assert((base + before).push((start, end)) =~= base + before.push((start, end)));
                }
            }
        }
        i += 1;
    }
}

fn candidate_ranges_for_scan(pattern: &GuidePattern, strands_len: usize, config: &ScanConfig) -> (r: Vec<
    (usize, usize),
>)
    ensures
        r@ == candidates(*config, pattern@, strands_len),
{
    let whole: Vec<(usize, usize)> = vec![(0, strands_len)];
    let ranges: &Vec<(usize, usize)> = match &config.segment_ranges {
        Some(v) => v,
        None => &whole,
    };
    proof {
        assert(ranges@ =~= segments(*config, strands_len));
    }
    let mut out: Vec<(usize, usize)> = Vec::new();
    let mut i: usize = 0;
    while i < ranges.len()
        invariant
            0 <= i <= ranges@.len(),
            ranges@ == segments(*config, strands_len),
            out@ == kept_segments(*config, pattern@, strands_len, i as nat),
        decreases ranges@.len() - i,
    {
        let range: (usize, usize) = ranges[i];
        let ghost before = out@;
        let skip = match (&config.segment_ranges, &config.segment_metas) {
            (Some(_), Some(metas)) => i < metas.len() && should_skip_segment(&metas[i], pattern),
            _ => false,
        };
        if skip {
            proof {
                assert(before + kept_of_segment(*config, pattern@, strands_len, i as int) =~= before);
            }
        } else {
            match (&config.segment_block_metas, &config.segment_block_ranges) {
                (Some(metas), Some(blocks)) => {
                    if i < metas.len() && i < blocks.len() && metas[i].len() > 0 && blocks[i].len() > 0 {
                        push_blocks(&mut out, &metas[i], &blocks[i], pattern, range, strands_len);
                    } else {
                        out.push(range);
                        proof {
                            assert(before.push(range) =~= before + seq![range]);
                        }
                    }
                },
                _ => {
                    out.push(range);
                    proof {
                        assert(before.push(range) =~= before + seq![range]);
                    }
                },
            }
        }
        i += 1;
    }
    out
}

/// The pieces of at most `chunk` strands of a range.
pub open spec fn pieces(from: usize, to: usize, chunk: usize) -> Seq<(usize, usize)>
    decreases to - from,
{
    if from >= to || chunk == 0 {
        Seq::empty()
    } else {
        seq![(from, clip(from + chunk, to))] + pieces(clip(from + chunk, to), to, chunk)
    }
}

/// The pieces of the first `k` ranges, cut off at `n`.
pub open spec fn split(ranges: Seq<(usize, usize)>, chunk: usize, n: usize, k: nat) -> Seq<(usize, usize)>
    decreases k,
{
    if k == 0 {
        Seq::empty()
    } else {
        split(ranges, chunk, n, (k - 1) as nat) + pieces(
            clip(ranges[k - 1].0 as int, n),
            clip(ranges[k - 1].1 as int, n),
            if chunk == 0 {
                1
            } else {
                chunk
            },
        )
    }
}

/// Splits ranges into chunks for the workers.
pub fn split_ranges_for_parallel(ranges: &[(usize, usize)], chunk_size: usize, strands_len: usize) -> (r: Vec<
    (usize, usize),
>)
    ensures
        r@ == split(ranges@, chunk_size, strands_len, ranges@.len()),
{
    let chunk: usize = if chunk_size == 0 {
        1
    } else {
        chunk_size
    };
    let mut out: Vec<(usize, usize)> = Vec::new();
    let mut i: usize = 0;
    while i < ranges.len()
        invariant
            0 <= i <= ranges@.len(),
            chunk == (if chunk_size == 0 {
                1
            } else {
                chunk_size
            }),
            out@ == split(ranges@, chunk_size, strands_len, i as nat),
        decreases ranges@.len() - i,
    {
        let mut s: usize = clipped(ranges[i].0, strands_len);
        let e: usize = clipped(ranges[i].1, strands_len);
        let ghost goal = out@ + pieces(s, e, chunk);
        while s < e
            invariant
                chunk > 0,
                goal == out@ + pieces(s, e, chunk),
            decreases e - s,
        {
            let next: usize = clipped_sum(s, chunk, e);
            out.push((s, next));
            proof {
                let rest = pieces(next, e, chunk);
                assert(goal =~= out@ + rest);
            }
            s = next;
        }
        proof {
            assert(goal =~= out@);
        }
        i += 1;
    }
    out
}

/// The chunk size for a number of candidates and workers: about four chunks for each worker,
/// within the bounds.
pub open spec fn chunk_size_for(total: usize, threads: usize) -> int {
    let workers: int = if threads < 1 {
        1
    } else {
        threads as int
    };
    let share = total as int / (workers * PARALLEL_TASKS_PER_THREAD_TARGET);
    if share < PARALLEL_SCAN_CHUNK_MIN {
        PARALLEL_SCAN_CHUNK_MIN as int
    } else if share > PARALLEL_SCAN_CHUNK_MAX {
        PARALLEL_SCAN_CHUNK_MAX as int
    } else {
        share
    }
}

/// The chunk size for a parallel scan.
pub fn adaptive_parallel_chunk_size(total_candidates: usize, worker_threads: usize) -> (r: usize)
    ensures
        r as int == chunk_size_for(total_candidates, worker_threads),
        PARALLEL_SCAN_CHUNK_MIN <= r <= PARALLEL_SCAN_CHUNK_MAX,
{
    let threads: usize = if worker_threads < 1 {
        1
    } else {
        worker_threads
    };
    if threads > usize::MAX / PARALLEL_TASKS_PER_THREAD_TARGET {
        proof {
            let d = threads as int * 4;
            assert(total_candidates as int / d == 0) by (nonlinear_arith)
                requires
                    0 <= total_candidates < d,
            ;
        }
        return PARALLEL_SCAN_CHUNK_MIN;
    }
    let share: usize = total_candidates / (threads * PARALLEL_TASKS_PER_THREAD_TARGET);
    if share < PARALLEL_SCAN_CHUNK_MIN {
        PARALLEL_SCAN_CHUNK_MIN
    } else if share > PARALLEL_SCAN_CHUNK_MAX {
        PARALLEL_SCAN_CHUNK_MAX
    } else {
        share
    }
}

/// Whether a scan reports a strand.
pub open spec fn hit(g: GuideView, id: Option<u32>, v: StrandView) -> bool {
    scoped(id, v) && all_fast_match(g, v.introns)
}

/// The signatures of the strands from `from` to `to` that a scan reports.
pub open spec fn hits(g: GuideView, id: Option<u32>, strands: Seq<StrandView>, from: int, to: int) -> Seq<[u8; 8]>
    decreases to - from,
{
    if to <= from {
        Seq::empty()
    } else {
        let before = hits(g, id, strands, from, to - 1);
        if hit(g, id, strands[to - 1]) {
            before.push(strands[to - 1].signature)
        } else {
            before
        }
    }
}

/// What the first `k` ranges give.
pub open spec fn hits_in(
    g: GuideView,
    id: Option<u32>,
    strands: Seq<StrandView>,
    ranges: Seq<(usize, usize)>,
    k: nat,
) -> Seq<[u8; 8]>
    decreases k,
{
    if k == 0 {
        Seq::empty()
    } else {
        let n = strands.len() as usize;
        hits_in(g, id, strands, ranges, (k - 1) as nat) + hits(
            g,
            id,
            strands,
            clip(ranges[k - 1].0 as int, n) as int,
            clip(ranges[k - 1].1 as int, n) as int,
        )
    }
}

/// What a scan returns: the signatures of the reported strands, range by range.
pub open spec fn scanned(g: GuideView, strands: Seq<StrandView>, cfg: ScanConfig) -> Seq<[u8; 8]> {
    let ranges = candidates(cfg, g, strands.len() as usize);
    hits_in(g, cfg.collection_id, strands, ranges, ranges.len())
}

/// Scans one range of strands; a range that ends before it starts holds none.
fn scan_range(
    pattern: &GuidePattern,
    strands: &[Strand],
    collection_id: Option<u32>,
    range: (usize, usize),
) -> (r: Vec<[u8; 8]>)
    ensures
        r@ == hits(
            pattern@,
            collection_id,
            strand_views(strands@),
            clip(range.0 as int, strands@.len() as usize) as int,
            clip(range.1 as int, strands@.len() as usize) as int,
        ),
{
    let from: usize = clipped(range.0, strands.len());
    let to: usize = clipped(range.1, strands.len());
    let ghost views = strand_views(strands@);
    let mut out: Vec<[u8; 8]> = Vec::new();
    let mut i: usize = from;
    while i < to
        invariant
            from <= i,
            i <= to || i == from,
            to <= strands@.len(),
            views == strand_views(strands@),
            out@ == hits(pattern@, collection_id, views, from as int, i as int),
        decreases to - i,
    {
        let s = &strands[i];
        proof {
            assert(views[i as int] == s@);
        }
        if strand_in_scope(s, collection_id) && guide_introns_fast_match(pattern, s.introns.as_slice()) {
            out.push(s.signature);
        }
        i += 1;
    }
    out
}

/// Scan on one thread.
pub fn scan_strands_sequential(pattern: &GuidePattern, strands: &[Strand], config: &ScanConfig) -> (r: Vec<
    [u8; 8],
>)
    ensures
        r@ == scanned(pattern@, strand_views(strands@), *config),
{
    let ranges = candidate_ranges_for_scan(pattern, strands.len(), config);
    let ghost views = strand_views(strands@);
    let mut out: Vec<[u8; 8]> = Vec::new();
    let mut i: usize = 0;
    while i < ranges.len()
        invariant
            0 <= i <= ranges@.len(),
            views == strand_views(strands@),
            out@ == hits_in(pattern@, config.collection_id, views, ranges@, i as nat),
        decreases ranges@.len() - i,
    {
        let mut found = scan_range(pattern, strands, config.collection_id, ranges[i]);
        out.append(&mut found);
        i += 1;
    }
    out
}

/// `rayon::current_num_threads`: the size of the thread pool, whatever it is.
#[verifier::external_body]
fn pool_threads() -> (r: usize) {
    rayon::current_num_threads()
}

/// Rayon's `par_iter().flat_map_iter(..).collect()` over the ranges: every range is scanned by
/// [`scan_range`] on some thread, and the collected vector joins the results in the order of
/// the ranges.
#[verifier::external_body]
fn scan_ranges_on_pool(
    pattern: &GuidePattern,
    strands: &[Strand],
    collection_id: Option<u32>,
    ranges: &Vec<(usize, usize)>,
) -> (r: Vec<[u8; 8]>)
    ensures
        r@ == hits_in(pattern@, collection_id, strand_views(strands@), ranges@, ranges@.len()),
{
    ranges.par_iter().flat_map_iter(|range| scan_range(pattern, strands, collection_id, *range)).collect()
}

/// How many strands the first `k` ranges span together; inverted ranges span none.
pub open spec fn spanned(ranges: Seq<(usize, usize)>, k: nat) -> nat
    decreases k,
{
    if k == 0 {
        0
    } else {
        let (from, to) = ranges[k - 1];
        spanned(ranges, (k - 1) as nat) + (if to > from {
            (to - from) as nat
        } else {
            0
        })
    }
}

/// How many strands the ranges span together, saturating.
fn total_span(ranges: &Vec<(usize, usize)>) -> (r: usize)
    ensures
        r == clip(spanned(ranges@, ranges@.len()) as int, usize::MAX),
{
    let mut total: usize = 0;
    let mut i: usize = 0;
    while i < ranges.len()
        invariant
            0 <= i <= ranges@.len(),
            total == clip(spanned(ranges@, i as nat) as int, usize::MAX),
        decreases ranges@.len() - i,
    {
        let (from, to) = ranges[i];
        let span: usize = if to > from {
            to - from
        } else {
            0
        };
        total = if span > usize::MAX - total {
            usize::MAX
        } else {
            total + span
        };
        i += 1;
    }
    total
}

/// Scan on rayon's pool. The result is that of the sequential scan, in the same order.
pub fn scan_strands_parallel(pattern: &GuidePattern, strands: &[Strand], config: &ScanConfig) -> (r: Vec<
    [u8; 8],
>)
    ensures
        r@ == scanned(pattern@, strand_views(strands@), *config),
{
    let ranges = candidate_ranges_for_scan(pattern, strands.len(), config);
    let chunk: usize = adaptive_parallel_chunk_size(total_span(&ranges), pool_threads());
    let pieces = split_ranges_for_parallel(ranges.as_slice(), chunk, strands.len());
    proof {
        law_splitting_keeps_hits(
            pattern@,
            config.collection_id,
            strand_views(strands@),
            ranges@,
            chunk,
            ranges@.len(),
        );
    }
    scan_ranges_on_pool(pattern, strands, config.collection_id, &pieces)
}

/// Scan, parallel from [`PARALLEL_STRAND_THRESHOLD`] strands on.
pub fn scan_strands(pattern: &GuidePattern, strands: &[Strand], config: &ScanConfig) -> (r: Vec<[u8; 8]>)
    ensures
        r@ == scanned(pattern@, strand_views(strands@), *config),
{
    if strands.len() >= PARALLEL_STRAND_THRESHOLD {
        scan_strands_parallel(pattern, strands, config)
    } else {
        scan_strands_sequential(pattern, strands, config)
    }
}

proof fn lemma_hits_join(g: GuideView, id: Option<u32>, strands: Seq<StrandView>, a: int, b: int, c: int)
    requires
        a <= b <= c,
    ensures
        hits(g, id, strands, a, b) + hits(g, id, strands, b, c) == hits(g, id, strands, a, c),
    decreases c - b,
{
    if b == c {
        assert(hits(g, id, strands, a, b) + hits(g, id, strands, b, c) =~= hits(g, id, strands, a, c));
    } else {
        lemma_hits_join(g, id, strands, a, b, c - 1);
        assert(hits(g, id, strands, a, b) + hits(g, id, strands, b, c) =~= hits(g, id, strands, a, c));
    }
}

proof fn lemma_hits_in_append(
    g: GuideView,
    id: Option<u32>,
    strands: Seq<StrandView>,
    a: Seq<(usize, usize)>,
    b: Seq<(usize, usize)>,
    k: nat,
)
    requires
        k <= b.len(),
    ensures
        hits_in(g, id, strands, a + b, a.len() + k) == hits_in(g, id, strands, a, a.len()) + hits_in(
            g,
            id,
            strands,
            b,
            k,
        ),
    decreases k,
{
    if k == 0 {
        lemma_hits_in_prefix(g, id, strands, a, a + b, a.len());
        assert(hits_in(g, id, strands, a, a.len()) + hits_in(g, id, strands, b, 0) =~= hits_in(
            g,
            id,
            strands,
            a,
            a.len(),
        ));
    } else {
        lemma_hits_in_append(g, id, strands, a, b, (k - 1) as nat);
        assert((a + b)[a.len() + k - 1] == b[k - 1]);
        assert(hits_in(g, id, strands, a + b, a.len() + k) =~= hits_in(g, id, strands, a, a.len()) + hits_in(
            g,
            id,
            strands,
            b,
            k,
        ));
    }
}

proof fn lemma_hits_in_prefix(
    g: GuideView,
    id: Option<u32>,
    strands: Seq<StrandView>,
    a: Seq<(usize, usize)>,
    b: Seq<(usize, usize)>,
    k: nat,
)
    requires
        k <= a.len() <= b.len(),
        forall|i: int| 0 <= i < k ==> a[i] == b[i],
    ensures
        hits_in(g, id, strands, a, k) == hits_in(g, id, strands, b, k),
    decreases k,
{
    if k > 0 {
        lemma_hits_in_prefix(g, id, strands, a, b, (k - 1) as nat);
    }
}

proof fn lemma_pieces_keep_hits(
    g: GuideView,
    id: Option<u32>,
    strands: Seq<StrandView>,
    from: usize,
    to: usize,
    chunk: usize,
)
    requires
        chunk > 0,
        to <= strands.len() <= usize::MAX,
    ensures
        hits_in(g, id, strands, pieces(from, to, chunk), pieces(from, to, chunk).len()) == hits(
            g,
            id,
            strands,
            from as int,
            to as int,
        ),
    decreases to - from,
{
    if from < to {
        let next = clip(from + chunk, to);
        let rest = pieces(next, to, chunk);
        let first = seq![(from, next)];
        lemma_pieces_keep_hits(g, id, strands, next, to, chunk);
        lemma_hits_in_append(g, id, strands, first, rest, rest.len());
        lemma_hits_join(g, id, strands, from as int, next as int, to as int);
        assert(hits_in(g, id, strands, first, 0) =~= Seq::<[u8; 8]>::empty());
        assert(hits_in(g, id, strands, first, 1) =~= hits(g, id, strands, from as int, next as int)) by {
            assert(first[0] == (from, next));
            assert(hits_in(g, id, strands, first, 1) == hits_in(g, id, strands, first, 0) + hits(
                g,
                id,
                strands,
                clip(from as int, strands.len() as usize) as int,
                clip(next as int, strands.len() as usize) as int,
            ));
        }
    }
}

/// Scanning ranges in pieces of any size gives the same signatures in the same order.
pub proof fn law_splitting_keeps_hits(
    g: GuideView,
    id: Option<u32>,
    strands: Seq<StrandView>,
    ranges: Seq<(usize, usize)>,
    chunk: usize,
    k: nat,
)
    requires
        k <= ranges.len(),
        strands.len() <= usize::MAX,
    ensures
        hits_in(
            g,
            id,
            strands,
            split(ranges, chunk, strands.len() as usize, k),
            split(ranges, chunk, strands.len() as usize, k).len(),
        ) == hits_in(g, id, strands, ranges, k),
    decreases k,
{
    let n = strands.len() as usize;
    if k > 0 {
        let before = split(ranges, chunk, n, (k - 1) as nat);
        let more = pieces(
            clip(ranges[k - 1].0 as int, n),
            clip(ranges[k - 1].1 as int, n),
            if chunk == 0 {
                1
            } else {
                chunk
            },
        );
        law_splitting_keeps_hits(g, id, strands, ranges, chunk, (k - 1) as nat);
        lemma_hits_in_append(g, id, strands, before, more, more.len());
        lemma_pieces_keep_hits(
            g,
            id,
            strands,
            clip(ranges[k - 1].0 as int, n),
            clip(ranges[k - 1].1 as int, n),
            if chunk == 0 {
                1
            } else {
                chunk
            },
        );
    }
}

/// Whether statistics and codebooks describe some fields of the strands.
pub open spec fn honest(
    stats: Map<u64, FieldStats>,
    books: Map<u64, FieldCompressionDictionary>,
    strands: Seq<StrandView>,
) -> bool {
    exists|names: Seq<&str>, places: nat, hashes: nat| #[trigger]
        describes(stats, books, strands, names, places, hashes)
}

/// Whether a block lies in its segment, and its metadata was built from the strands in it.
pub open spec fn honest_block(cfg: ScanConfig, strands: Seq<StrandView>, i: int, j: int) -> bool {
    let n = strands.len() as usize;
    let seg = segments(cfg, n)[i];
    let block = cfg.segment_block_ranges->0@[i]@[j];
    &&& seg.0 + block.0 <= seg.0 + block.1 <= seg.1 <= n
    &&& honest(
        cfg.segment_block_metas->0@[i]@[j].field_stats@,
        cfg.segment_block_metas->0@[i]@[j].field_dictionaries@,
        strands.subrange(seg.0 + block.0, seg.0 + block.1),
    )
}

/// Whether the metadata of a scan was built from the strands that its ranges span.
pub open spec fn honest_config(cfg: ScanConfig, strands: Seq<StrandView>) -> bool {
    let n = strands.len() as usize;
    &&& (cfg.segment_ranges matches Some(ranges) ==> cfg.segment_metas matches Some(metas) ==> forall|i: int|
        0 <= i < ranges@.len() && i < metas@.len() ==> ranges@[i].0 <= ranges@[i].1 <= n && honest(
            (#[trigger] metas@[i]).field_stats@,
            metas@[i].field_dictionaries@,
            strands.subrange(ranges@[i].0 as int, ranges@[i].1 as int),
        ))
    &&& forall|i: int, j: int|
        #![trigger cfg.segment_block_metas->0@[i]@[j]]
        #![trigger honest_block(cfg, strands, i, j)]
        0 <= i < segments(cfg, n).len() && has_blocks(cfg, i) && 0 <= j < cfg.segment_block_ranges->0@[i]@.len()
            && j < cfg.segment_block_metas->0@[i]@.len() ==> honest_block(cfg, strands, i, j)
}

/// Whether a strand lies in the `i`-th segment and, where that has blocks, in one of them.
pub open spec fn covered(cfg: ScanConfig, n: usize, m: int, i: int) -> bool {
    &&& 0 <= i < segments(cfg, n).len()
    &&& segments(cfg, n)[i].0 <= m < segments(cfg, n)[i].1
    &&& has_blocks(cfg, i) ==> exists|j: int|
        0 <= j < cfg.segment_block_ranges->0@[i]@.len() && j < cfg.segment_block_metas->0@[i]@.len() && (
        #[trigger] cfg.segment_block_ranges->0@[i]@[j]).0 + segments(cfg, n)[i].0 <= m
            < cfg.segment_block_ranges->0@[i]@[j].1 + segments(cfg, n)[i].0
}

/// Whether a strand holds what a clause asks for, comparisons with a number taken as comparisons
/// of numbers.
pub open spec fn holds_by_number(v: StrandView, c: ClauseView) -> bool {
    match c {
        ClauseView::Exact { field, wire, .. } => has_value(v, field, wire),
        ClauseView::Range { field, op, wire, .. } => numeric_value(wire) is Some ==> exists|i: int, value: Seq<u8>|
            #[trigger]
            carries(v, field, i, value) && numeric_value(value) is Some && number_in_range(
                numeric_value(value)->0,
                op,
                numeric_value(wire)->0,
            ),
        ClauseView::Like { .. } => true,
    }
}

/// Metadata built from a run of strands never skips one that passes the filter and holds what
/// every clause asks for.
pub proof fn law_honest_metadata_skips_no_match(
    stats: Map<u64, FieldStats>,
    books: Map<u64, FieldCompressionDictionary>,
    strands: Seq<StrandView>,
    g: GuideView,
    m: int,
)
    requires
        honest(stats, books, strands),
        0 <= m < strands.len(),
        all_fast_match(g, strands[m].introns),
        forall|i: int| 0 <= i < g.clauses.len() ==> holds_by_number(strands[m], #[trigger] g.clauses[i]),
    ensures
        !skips(stats, Some(books), g),
{
    let (names, places, hashes) = choose|names: Seq<&str>, places: nat, hashes: nat| #[trigger]
        describes(stats, books, strands, names, places, hashes);
    if skips(stats, Some(books), g) {
        let i = choose|i: int| 0 <= i < g.clauses.len() && clause_skips(stats, Some(books), #[trigger] g.clauses[i]);
        let c = g.clauses[i];
        assert(holds_by_number(strands[m], c));
        assert(super::fast_match::fast_match(c, strands[m].introns));
        match c {
            ClauseView::Exact { field, wire, .. } => {
                law_exact_skip_is_sound(stats, books, strands, names, places, hashes, c, true, m);
            },
            ClauseView::Range { field, op, wire, .. } => {
                assert(numeric_value(wire) is Some);
                let (k, value) = choose|k: int, value: Seq<u8>| #[trigger]
                    carries(strands[m], field, k, value) && numeric_value(value) is Some && number_in_range(
                        numeric_value(value)->0,
                        op,
                        numeric_value(wire)->0,
                    );
                law_range_skip_is_sound_for_numbers(
                    stats,
                    books,
                    strands,
                    names,
                    places,
                    hashes,
                    c,
                    m,
                    k,
                    value,
                );
            },
            ClauseView::Like { .. } => {},
        }
    }
}

proof fn lemma_block_kept(
    metas: Seq<SegmentBlockMeta>,
    blocks: Seq<(usize, usize)>,
    g: GuideView,
    seg: (usize, usize),
    n: usize,
    k: nat,
    j: int,
)
    requires
        0 <= j < k <= blocks.len(),
        j < metas.len(),
        !skips(metas[j].field_stats@, Some(metas[j].field_dictionaries@), g),
        seg.1 <= n,
        seg.0 + blocks[j].0 < seg.0 + blocks[j].1 <= seg.1,
    ensures
        kept_blocks(metas, blocks, g, seg, n, k).contains(
            ((seg.0 + blocks[j].0) as usize, (seg.0 + blocks[j].1) as usize),
        ),
    decreases k,
{
    let want = ((seg.0 + blocks[j].0) as usize, (seg.0 + blocks[j].1) as usize);
    let before = kept_blocks(metas, blocks, g, seg, n, (k - 1) as nat);
    let now = kept_blocks(metas, blocks, g, seg, n, k);
    if j == k - 1 {
        assert(now == before.push(want));
        assert(now[before.len() as int] == want);
    } else {
        lemma_block_kept(metas, blocks, g, seg, n, (k - 1) as nat, j);
        let q = before.index_of(want);
        assert(now[q] == want);
    }
}

proof fn lemma_segment_kept(cfg: ScanConfig, g: GuideView, n: usize, k: nat, i: int, range: (usize, usize))
    requires
        0 <= i < k,
        kept_of_segment(cfg, g, n, i).contains(range),
    ensures
        kept_segments(cfg, g, n, k).contains(range),
    decreases k,
{
    let before = kept_segments(cfg, g, n, (k - 1) as nat);
    let more = kept_of_segment(cfg, g, n, k - 1);
    let now = kept_segments(cfg, g, n, k);
    if i == k - 1 {
        let q = more.index_of(range);
        assert(now[before.len() + q] == range);
    } else {
        lemma_segment_kept(cfg, g, n, (k - 1) as nat, i, range);
        let q = before.index_of(range);
        assert(now[q] == range);
    }
}

proof fn lemma_hit_reported(g: GuideView, id: Option<u32>, strands: Seq<StrandView>, from: int, to: int, m: int)
    requires
        from <= m < to,
        hit(g, id, strands[m]),
    ensures
        hits(g, id, strands, from, to).contains(strands[m].signature),
    decreases to - from,
{
    let before = hits(g, id, strands, from, to - 1);
    let now = hits(g, id, strands, from, to);
    if m == to - 1 {
        assert(now[before.len() as int] == strands[m].signature);
    } else {
        lemma_hit_reported(g, id, strands, from, to - 1, m);
        let q = before.index_of(strands[m].signature);
        assert(now[q] == strands[m].signature);
    }
}

proof fn lemma_range_reported(
    g: GuideView,
    id: Option<u32>,
    strands: Seq<StrandView>,
    ranges: Seq<(usize, usize)>,
    k: nat,
    q: int,
    sig: [u8; 8],
)
    requires
        0 <= q < k <= ranges.len(),
        strands.len() <= usize::MAX,
        hits(
            g,
            id,
            strands,
            clip(ranges[q].0 as int, strands.len() as usize) as int,
            clip(ranges[q].1 as int, strands.len() as usize) as int,
        ).contains(sig),
    ensures
        hits_in(g, id, strands, ranges, k).contains(sig),
    decreases k,
{
    let before = hits_in(g, id, strands, ranges, (k - 1) as nat);
    let now = hits_in(g, id, strands, ranges, k);
    let more = hits(
        g,
        id,
        strands,
        clip(ranges[k - 1].0 as int, strands.len() as usize) as int,
        clip(ranges[k - 1].1 as int, strands.len() as usize) as int,
    );
    if q == k - 1 {
        let x = more.index_of(sig);
        assert(now[before.len() + x] == sig);
    } else {
        lemma_range_reported(g, id, strands, ranges, (k - 1) as nat, q, sig);
        let x = before.index_of(sig);
        assert(now[x] == sig);
    }
}

/// Whether a scan is given metadata to skip by.
pub open spec fn has_metadata(cfg: ScanConfig) -> bool {
    (cfg.segment_ranges is Some && cfg.segment_metas is Some) || (cfg.segment_block_metas is Some
        && cfg.segment_block_ranges is Some)
}

/// A scan whose metadata, if it has any, was built from the strands themselves reports every
/// covered strand of the collection that passes the filter and, where there is metadata, holds
/// what every clause asks for.
pub proof fn law_scan_reports_every_match(
    g: GuideView,
    strands: Seq<StrandView>,
    cfg: ScanConfig,
    m: int,
    i: int,
)
    requires
        strands.len() <= usize::MAX,
        honest_config(cfg, strands),
        0 <= m < strands.len(),
        covered(cfg, strands.len() as usize, m, i),
        hit(g, cfg.collection_id, strands[m]),
        has_metadata(cfg) ==> forall|j: int|
            0 <= j < g.clauses.len() ==> holds_by_number(strands[m], #[trigger] g.clauses[j]),
    ensures
        scanned(g, strands, cfg).contains(strands[m].signature),
{
    let n = strands.len() as usize;
    let id = cfg.collection_id;
    let seg = segments(cfg, n)[i];
    if cfg.segment_ranges is Some && cfg.segment_metas is Some && i < cfg.segment_metas->0@.len() {
        let meta = cfg.segment_metas->0@[i];
        let part = strands.subrange(seg.0 as int, seg.1 as int);
        assert(part[m - seg.0] == strands[m]);
        law_honest_metadata_skips_no_match(
            meta.field_stats@,
            meta.field_dictionaries@,
            part,
            g,
            m - seg.0,
        );
    }
    assert(!segment_skipped(cfg, g, i));
    let kept = kept_of_segment(cfg, g, n, i);
    let range = if has_blocks(cfg, i) {
        let metas = cfg.segment_block_metas->0@[i]@;
        let blocks = cfg.segment_block_ranges->0@[i]@;
        let j = choose|j: int|
            0 <= j < blocks.len() && j < metas.len() && (#[trigger] blocks[j]).0 + seg.0 <= m < blocks[j].1 + seg.0;
        let meta = cfg.segment_block_metas->0@[i]@[j];
        let part = strands.subrange(seg.0 + blocks[j].0, seg.0 + blocks[j].1);
        assert(part[m - seg.0 - blocks[j].0] == strands[m]);
        law_honest_metadata_skips_no_match(
            meta.field_stats@,
            meta.field_dictionaries@,
            part,
            g,
            m - seg.0 - blocks[j].0,
        );
        lemma_block_kept(metas, blocks, g, seg, n, blocks.len(), j);
        ((seg.0 + blocks[j].0) as usize, (seg.0 + blocks[j].1) as usize)
    } else {
        assert(kept[0] == seg);
        seg
    };
    assert(kept.contains(range));
    lemma_segment_kept(cfg, g, n, segments(cfg, n).len(), i, range);
    let ranges = candidates(cfg, g, n);
    let q = ranges.index_of(range);
    lemma_hit_reported(g, id, strands, clip(range.0 as int, n) as int, clip(range.1 as int, n) as int, m);
    lemma_range_reported(g, id, strands, ranges, ranges.len(), q, strands[m].signature);
}

proof fn lemma_hits_come_from_strands(
    g: GuideView,
    id: Option<u32>,
    strands: Seq<StrandView>,
    from: int,
    to: int,
    sig: [u8; 8],
)
    requires
        0 <= from,
        to <= strands.len(),
        hits(g, id, strands, from, to).contains(sig),
    ensures
        exists|m: int|
            from <= m < to && hit(g, id, #[trigger] strands[m]) && strands[m].signature == sig,
    decreases to - from,
{
    if from < to {
        let before = hits(g, id, strands, from, to - 1);
        if before.contains(sig) {
            lemma_hits_come_from_strands(g, id, strands, from, to - 1, sig);
        } else {
            assert(strands[to - 1].signature == sig);
        }
    }
}

proof fn lemma_range_hits_come_from_strands(
    g: GuideView,
    id: Option<u32>,
    strands: Seq<StrandView>,
    ranges: Seq<(usize, usize)>,
    k: nat,
    sig: [u8; 8],
)
    requires
        k <= ranges.len(),
        strands.len() <= usize::MAX,
        hits_in(g, id, strands, ranges, k).contains(sig),
    ensures
        exists|m: int|
            0 <= m < strands.len() && hit(g, id, #[trigger] strands[m]) && strands[m].signature == sig,
    decreases k,
{
    if k > 0 {
        let n = strands.len() as usize;
        let before = hits_in(g, id, strands, ranges, (k - 1) as nat);
        let from = clip(ranges[k - 1].0 as int, n) as int;
        let to = clip(ranges[k - 1].1 as int, n) as int;
        if before.contains(sig) {
            lemma_range_hits_come_from_strands(g, id, strands, ranges, (k - 1) as nat, sig);
        } else {
            let now = hits_in(g, id, strands, ranges, k);
            let q = now.index_of(sig);
            if q < before.len() {
                assert(before[q] == sig);
            }
            assert(hits(g, id, strands, from, to)[q - before.len()] == sig);
            lemma_hits_come_from_strands(g, id, strands, from, to, sig);
        }
    }
}

/// A scan reports only strands of the collection that pass the filter.
pub proof fn law_scan_reports_only_hits(g: GuideView, strands: Seq<StrandView>, cfg: ScanConfig, sig: [u8; 8])
    requires
        strands.len() <= usize::MAX,
        scanned(g, strands, cfg).contains(sig),
    ensures
        exists|m: int|
            0 <= m < strands.len() && hit(g, cfg.collection_id, #[trigger] strands[m]) && strands[m].signature
                == sig,
{
    let ranges = candidates(cfg, g, strands.len() as usize);
    lemma_range_hits_come_from_strands(g, cfg.collection_id, strands, ranges, ranges.len(), sig);
}

} // verus!
