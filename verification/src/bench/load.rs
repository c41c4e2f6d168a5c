//! What the load benchmark writes and builds: payloads, prepared records, and the segments and
//! blocks of what it has written.
use crate::clock::clock_read;
use crate::codec::{strand_frame, BincodeStrandCodec, StrandCodec};
use crate::model::{strand_views, Strand, StrandView};
use crate::processor::{
    complement_blob, encode_complement_blob, is_wal_strand, strand_from_wal_payload,
    ProcessorError,
};
use crate::query::scan::{
    clip, covered, has_blocks, honest, honest_block, honest_config, pieces, segments,
    ScanConfig,
};
use crate::query::segment::{countable, describes, seen, tracks, SegmentBlockMeta, SegmentMeta};
use crate::support::num_text::{decimal, u64_text};
use crate::support::text::join2;
use rayon::iter::{IntoParallelIterator, ParallelIterator};
use vstd::prelude::*;
use vstd::utf8::encode_utf8;

verus! {

/// The region of the `i`-th record.
pub open spec fn region(i: int) -> Seq<char> {
    if i % 4 == 0 {
        "us-east"@
    } else if i % 4 == 1 {
        "us-west"@
    } else if i % 4 == 2 {
        "eu-central"@
    } else {
        "ap-south"@
    }
}

/// The payload of the `i`-th record, a JSON object.
pub open spec fn payload_text(i: usize) -> Seq<char> {
    "{\"id\":"@ + decimal(i as nat) + ",\"email\":\"user"@ + decimal(i as nat) + "@example.com\",\"region\":\""@ + region(
        i as int,
    ) + "\",\"score\":"@ + decimal((i % 1000) as nat) + ",\"active\":"@ + (if i % 3 == 0 {
        "true"@
    } else {
        "false"@
    }) + "}"@
}

/// The payload of the `i`-th record.
pub fn make_payload(i: usize) -> (r: String)
    ensures
        r@ == payload_text(i),
{
    let number = u64_text(i as u64);
    let score = u64_text((i % 1000) as u64);
    let mut s = join2("{\"id\":", number.as_str());
    s.append(",\"email\":\"user");
    s.append(number.as_str());
    s.append("@example.com\",\"region\":\"");
    s.append(
        if i % 4 == 0 {
            "us-east"
        } else if i % 4 == 1 {
            "us-west"
        } else if i % 4 == 2 {
            "eu-central"
        } else {
            "ap-south"
        },
    );
    s.append("\",\"score\":");
    s.append(score.as_str());
    s.append(",\"active\":");
    s.append(
        if i % 3 == 0 {
            "true"
        } else {
            "false"
        },
    );
    s.append("}");
    s
}

/// A record that is ready to be appended.
#[derive(Debug)]
pub struct PreparedRecord {
    pub sequence: u64,
    pub payload: String,
    pub strand_bytes: Vec<u8>,
    pub complement_blob: Vec<u8>,
}

/// Whether `p` is the `i`-th record, prepared at some time.
pub open spec fn prepared(p: PreparedRecord, i: usize, collection_id: u32, sequence: u64) -> bool {
    &&& p.sequence == sequence
    &&& p.payload@ == payload_text(i)
    &&& exists|v: StrandView, now: u64| #[trigger]
        is_wal_strand(v, collection_id, sequence, encode_utf8(payload_text(i)), now) && clock_read(now)
            && p.strand_bytes@ == strand_frame(v) && p.complement_blob@ == complement_blob(v.complement)
}

/// Whether records from `start` on, numbered from `start_seq` on, are prepared in order.
pub open spec fn all_prepared(v: Seq<PreparedRecord>, start: usize, collection_id: u32, start_seq: u64) -> bool {
    forall|k: int|
        0 <= k < v.len() ==> prepared(
            #[trigger] v[k],
            (start + k) as usize,
            collection_id,
            (start_seq + k) as u64,
        )
}

/// Prepares one record.
fn prepare_record(i: usize, start: usize, collection_id: u32, start_seq: u64, codec: &BincodeStrandCodec) -> (r: Result<
    PreparedRecord,
    ProcessorError,
>)
    requires
        start <= i,
        start_seq + (i - start) <= u64::MAX,
    ensures
        r matches Ok(p) && prepared(p, i, collection_id, (start_seq + (i - start)) as u64),
{
    let payload = make_payload(i);
    let sequence: u64 = start_seq + (i - start) as u64;
    let strand = strand_from_wal_payload(collection_id, sequence, payload.as_str().as_bytes());
    let strand_bytes = match codec.encode_strand(&strand) {
        Ok(b) => b,
        Err(e) => {
            return Err(ProcessorError::Codec(e));
        },
    };
    let blob = match encode_complement_blob(strand.complement.as_slice()) {
        Ok(b) => b,
        Err(e) => {
            return Err(ProcessorError::Bincode(e));
        },
    };
    let p = PreparedRecord { sequence, payload, strand_bytes, complement_blob: blob };
    let r = Ok(p);
    proof {
        assert(is_wal_strand(strand@, collection_id, sequence, encode_utf8(payload_text(i)), strand.created_at));
        assert(prepared(r->Ok_0, i, collection_id, sequence));
    }
    r
}

/// `rayon::ThreadPool`.
#[verifier::external_type_specification]
#[verifier::external_body]
pub struct ExThreadPool(rayon::ThreadPool);

/// `ThreadPool::install` around `into_par_iter().map(..).collect()`: every record is prepared
/// by [`prepare_record`] on some thread of the pool, and the results stand in order.
#[verifier::external_body]
fn prepare_on_pool(
    pool: &rayon::ThreadPool,
    start: usize,
    end: usize,
    collection_id: u32,
    start_seq: u64,
    codec: &BincodeStrandCodec,
) -> (r: Result<Vec<PreparedRecord>, ProcessorError>)
    requires
        start <= end,
        start_seq + (end - start) <= u64::MAX,
    ensures
        r is Ok,
        r->Ok_0@.len() == end - start,
        all_prepared(r->Ok_0@, start, collection_id, start_seq),
{
    pool.install(
        ||
            (start..end).into_par_iter().map(|i| prepare_record(i, start, collection_id, start_seq, codec)).collect(),
    )
}

/// Prepares the records from `start_idx` to `end_idx`, on a pool where one is given.
pub fn prepare_records_chunk(
    start_idx: usize,
    end_idx: usize,
    collection_id: u32,
    start_seq: u64,
    pool: Option<&rayon::ThreadPool>,
    codec: &BincodeStrandCodec,
) -> (r: Result<Vec<PreparedRecord>, ProcessorError>)
    requires
        start_idx <= end_idx,
        start_seq + (end_idx - start_idx) <= u64::MAX,
    ensures
        r matches Ok(v) && v@.len() == end_idx - start_idx && all_prepared(v@, start_idx, collection_id, start_seq),
{
    match pool {
        Some(p) => prepare_on_pool(p, start_idx, end_idx, collection_id, start_seq, codec),
        None => {
            let mut out: Vec<PreparedRecord> = Vec::new();
            let mut i: usize = start_idx;
            while i < end_idx
                invariant
                    start_idx <= i <= end_idx,
                    start_seq + (end_idx - start_idx) <= u64::MAX,
                    out@.len() == i - start_idx,
                    all_prepared(out@, start_idx, collection_id, start_seq),
                decreases end_idx - i,
            {
                let ghost before = out@;
                match prepare_record(i, start_idx, collection_id, start_seq, codec) {
                    Ok(p) => {
                        out.push(p);
                        proof {
                            assert forall|k: int| 0 <= k < out@.len() implies prepared(
                                #[trigger] out@[k],
                                (start_idx + k) as usize,
                                collection_id,
                                (start_seq + k) as u64,
                            ) by {
                                if k < before.len() {
                                    assert(out@[k] == before[k]);
                                }
                            }
                        }
                    },
                    Err(e) => {
                        return Err(e);
                    },
                }
                i += 1;
            }
            Ok(out)
        },
    }
}

/// Places and hashes of a segment's filters.
pub const SEGMENT_BLOOM_BITS: usize = 8192;

/// Hashes of a segment's filters.
pub const SEGMENT_BLOOM_HASHES: u8 = 4;

/// Places of a block's filters.
pub const BLOCK_BLOOM_BITS: usize = 2048;

/// Hashes of a block's filters.
pub const BLOCK_BLOOM_HASHES: u8 = 3;

/// Segments and blocks of strands with what is known of them. Block ranges count from the
/// start of their segment.
#[derive(Debug)]
pub struct SegmentLayout {
    pub ranges: Vec<(usize, usize)>,
    pub metas: Vec<SegmentMeta>,
    pub block_ranges: Vec<Vec<(usize, usize)>>,
    pub block_metas: Vec<Vec<SegmentBlockMeta>>,
}

/// Whether blocks count and describe the strands of a segment that they span.
pub open spec fn blocks_describe(
    ranges: Seq<(usize, usize)>,
    metas: Seq<SegmentBlockMeta>,
    strands: Seq<StrandView>,
    start: int,
    names: Seq<&str>,
) -> bool {
    &&& metas.len() == ranges.len()
    &&& forall|j: int|
        0 <= j < ranges.len() ==> (#[trigger] metas[j]).block_id == j && metas[j].record_count == ranges[j].1
            - ranges[j].0 && describes(
            metas[j].field_stats@,
            metas[j].field_dictionaries@,
            strands.subrange(start + ranges[j].0, start + ranges[j].1),
            names,
            BLOCK_BLOOM_BITS as nat,
            BLOCK_BLOOM_HASHES as nat,
        )
}

/// Whether the first `n` segments of a layout count and describe the strands that they span.
pub open spec fn segments_describe(
    l: SegmentLayout,
    strands: Seq<StrandView>,
    block_size: usize,
    names: Seq<&str>,
    n: int,
) -> bool {
    &&& l.ranges@.len() == n
    &&& l.metas@.len() == n
    &&& l.block_ranges@.len() == n
    &&& l.block_metas@.len() == n
    &&& forall|i: int|
        0 <= i < n ==> (#[trigger] l.metas@[i]).segment_id == i && l.metas@[i].record_count == l.ranges@[i].1
            - l.ranges@[i].0 && describes(
            l.metas@[i].field_stats@,
            l.metas@[i].field_dictionaries@,
            strands.subrange(l.ranges@[i].0 as int, l.ranges@[i].1 as int),
            names,
            SEGMENT_BLOOM_BITS as nat,
            SEGMENT_BLOOM_HASHES as nat,
        )
    &&& forall|i: int|
        0 <= i < n ==> (#[trigger] l.block_ranges@[i])@ == pieces(
            0,
            (l.ranges@[i].1 - l.ranges@[i].0) as usize,
            block_size,
        ) && blocks_describe(
            l.block_ranges@[i]@,
            l.block_metas@[i]@,
            strands,
            l.ranges@[i].0 as int,
            names,
        )
}

proof fn lemma_seen_in_part(strands: Seq<StrandView>, key: u64, a: int, b: int)
    requires
        0 <= a <= b <= strands.len(),
    ensures
        seen(strands.subrange(a, b), key, (b - a) as nat).len() <= seen(strands, key, b as nat).len(),
    decreases b - a,
{
    if a < b {
        lemma_seen_in_part(strands, key, a, b - 1);
        let part = strands.subrange(a, b);
        let front = strands.subrange(a, b - 1);
        lemma_seen_prefix(part, front, key, (b - a - 1) as nat);
        assert(part[b - a - 1] == strands[b - 1]);
    }
}

proof fn lemma_seen_prefix(x: Seq<StrandView>, y: Seq<StrandView>, key: u64, n: nat)
    requires
        n <= x.len(),
        n <= y.len(),
        forall|i: int| 0 <= i < n ==> #[trigger] x[i] == y[i],
    ensures
        seen(x, key, n) == seen(y, key, n),
    decreases n,
{
    if n > 0 {
        lemma_seen_prefix(x, y, key, (n - 1) as nat);
        assert(x[n - 1] == y[n - 1]);
    }
}

proof fn lemma_seen_grows(strands: Seq<StrandView>, key: u64, n: nat, m: nat)
    requires
        n <= m <= strands.len(),
    ensures
        seen(strands, key, n).len() <= seen(strands, key, m).len(),
    decreases m,
{
    if n < m {
        lemma_seen_grows(strands, key, n, (m - 1) as nat);
    }
}

proof fn lemma_part_is_countable(strands: Seq<StrandView>, names: Seq<&str>, a: int, b: int)
    requires
        0 <= a <= b <= strands.len(),
        countable(strands, names),
    ensures
        countable(strands.subrange(a, b), names),
{
    let part = strands.subrange(a, b);
    assert forall|key: u64| #[trigger] tracks(names, key) implies seen(part, key, part.len()).len() <= u32::MAX by {
        lemma_seen_in_part(strands, key, a, b);
        lemma_seen_grows(strands, key, b as nat, strands.len());
    }
}

fn build_blocks(strands: &[Strand], start: usize, end: usize, block_size: usize, tracked_fields: &[&str]) -> (r: (
    Vec<(usize, usize)>,
    Vec<SegmentBlockMeta>,
))
    requires
        start <= end <= strands@.len(),
        strands@.len() <= u32::MAX,
        block_size > 0,
        countable(strand_views(strands@), tracked_fields@),
    ensures
        r.0@ == pieces(0, (end - start) as usize, block_size),
        blocks_describe(r.0@, r.1@, strand_views(strands@), start as int, tracked_fields@),
{
    let ghost views = strand_views(strands@);
    let mut ranges: Vec<(usize, usize)> = Vec::new();
    let mut metas: Vec<SegmentBlockMeta> = Vec::new();
    let mut block_id: u32 = 0;
    let mut at: usize = start;
    let ghost goal = pieces(0, (end - start) as usize, block_size);
    proof {
        assert(goal =~= ranges@ + pieces(0, (end - start) as usize, block_size));
    }
    while at < end
        invariant
            start <= at <= end <= strands@.len(),
            strands@.len() <= u32::MAX,
            block_size > 0,
            views == strand_views(strands@),
            countable(views, tracked_fields@),
            block_id == ranges@.len(),
            block_id <= at,
            goal == ranges@ + pieces((at - start) as usize, (end - start) as usize, block_size),
            blocks_describe(ranges@, metas@, views, start as int, tracked_fields@),
        decreases end - at,
    {
        let next: usize = if block_size < end - at {
            at + block_size
        } else {
            end
        };
        let part = vstd::slice::slice_subrange(strands, at, next);
        proof {
            assert(strand_views(part@) =~= views.subrange(at as int, next as int));
            lemma_part_is_countable(views, tracked_fields@, at as int, next as int);
        }
        let ghost old_ranges = ranges@;
        let ghost old_metas = metas@;
        let range = (at - start, next - start);
        metas.push(SegmentBlockMeta::build(block_id, part, tracked_fields, BLOCK_BLOOM_BITS, BLOCK_BLOOM_HASHES));
        ranges.push(range);
        proof {
            let rest = pieces((next - start) as usize, (end - start) as usize, block_size);
            assert(clip((at - start) + block_size, (end - start) as usize) == (next - start) as usize);
            assert(old_ranges + (seq![range] + rest) =~= ranges@ + rest);
            assert forall|j: int| 0 <= j < ranges@.len() implies (#[trigger] metas@[j]).block_id == j
                && metas@[j].record_count == ranges@[j].1 - ranges@[j].0 && describes(
                metas@[j].field_stats@,
                metas@[j].field_dictionaries@,
                views.subrange(start + ranges@[j].0, start + ranges@[j].1),
                tracked_fields@,
                BLOCK_BLOOM_BITS as nat,
                BLOCK_BLOOM_HASHES as nat,
            ) by {
                if j < old_metas.len() {
                    assert(metas@[j] == old_metas[j] && ranges@[j] == old_ranges[j]);
                }
            }
        }
        block_id += 1;
        at = next;
    }
    proof {
        assert(ranges@ + pieces((at - start) as usize, (end - start) as usize, block_size) =~= ranges@);
    }
    (ranges, metas)
}

/// Divides strands into segments of `segment_size` and these into blocks of `block_size` (at
/// least one), and sums each of them up.
pub fn build_segment_and_block_metadata(
    strands: &[Strand],
    segment_size: usize,
    block_size: usize,
    tracked_fields: &[&str],
) -> (r: SegmentLayout)
    requires
        segment_size > 0,
        strands@.len() <= u32::MAX,
        countable(strand_views(strands@), tracked_fields@),
    ensures
        r.ranges@ == pieces(0, strands@.len() as usize, segment_size),
        segments_describe(
            r,
            strand_views(strands@),
            if block_size < 1 {
                1
            } else {
                block_size
            },
            tracked_fields@,
            r.ranges@.len() as int,
        ),
{
    let ghost views = strand_views(strands@);
    let total: usize = strands.len();
    let block: usize = if block_size < 1 {
        1
    } else {
        block_size
    };
    let mut l = SegmentLayout {
        ranges: Vec::new(),
        metas: Vec::new(),
        block_ranges: Vec::new(),
        block_metas: Vec::new(),
    };
    let mut segment_id: u32 = 0;
    let mut start: usize = 0;
    let ghost goal = pieces(0, total, segment_size);
    proof {
        assert(goal =~= l.ranges@ + pieces(0, total, segment_size));
    }
    while start < total
        invariant
            0 <= start <= total,
            total == strands@.len(),
            total <= u32::MAX,
            segment_size > 0,
            block > 0,
            views == strand_views(strands@),
            countable(views, tracked_fields@),
            segment_id == l.ranges@.len(),
            segment_id <= start,
            goal == l.ranges@ + pieces(start, total, segment_size),
            forall|i: int| 0 <= i < l.ranges@.len() ==> (#[trigger] l.ranges@[i]).0 <= l.ranges@[i].1 <= total,
            segments_describe(l, views, block, tracked_fields@, l.ranges@.len() as int),
        decreases total - start,
    {
        let end: usize = if segment_size < total - start {
            start + segment_size
        } else {
            total
        };
        let part = vstd::slice::slice_subrange(strands, start, end);
        proof {
            assert(strand_views(part@) =~= views.subrange(start as int, end as int));
            lemma_part_is_countable(views, tracked_fields@, start as int, end as int);
        }
        let ghost before = l;
        let meta = SegmentMeta::build(segment_id, part, tracked_fields, SEGMENT_BLOOM_BITS, SEGMENT_BLOOM_HASHES);
        let (block_ranges, block_metas) = build_blocks(strands, start, end, block, tracked_fields);
        let range = (start, end);
        l.ranges.push(range);
        l.metas.push(meta);
        l.block_ranges.push(block_ranges);
        l.block_metas.push(block_metas);
        proof {
            let n = before.ranges@.len() as int;
            let rest = pieces(end, total, segment_size);
            assert(clip(start + segment_size, total) == end);
            assert(before.ranges@ + (seq![range] + rest) =~= l.ranges@ + rest);
            assert forall|i: int| 0 <= i < n + 1 implies (#[trigger] l.metas@[i]).segment_id == i
                && l.metas@[i].record_count == l.ranges@[i].1 - l.ranges@[i].0 && describes(
                l.metas@[i].field_stats@,
                l.metas@[i].field_dictionaries@,
                views.subrange(l.ranges@[i].0 as int, l.ranges@[i].1 as int),
                tracked_fields@,
                SEGMENT_BLOOM_BITS as nat,
                SEGMENT_BLOOM_HASHES as nat,
            ) by {
                if i < n {
                    assert(l.metas@[i] == before.metas@[i] && l.ranges@[i] == before.ranges@[i]);
                }
            }
            assert forall|i: int| 0 <= i < n + 1 implies (#[trigger] l.block_ranges@[i])@ == pieces(
                0,
                (l.ranges@[i].1 - l.ranges@[i].0) as usize,
                block,
            ) && blocks_describe(
                l.block_ranges@[i]@,
                l.block_metas@[i]@,
                views,
                l.ranges@[i].0 as int,
                tracked_fields@,
            ) by {
                if i < n {
                    assert(l.block_ranges@[i] == before.block_ranges@[i] && l.block_metas@[i] == before.block_metas@[i]
                        && l.ranges@[i] == before.ranges@[i]);
                }
            }
            assert forall|i: int| 0 <= i < l.ranges@.len() implies (#[trigger] l.ranges@[i]).0 <= l.ranges@[i].1
                <= total by {
                if i < n {
                    assert(l.ranges@[i] == before.ranges@[i]);
                }
            }
        }
        segment_id += 1;
        start = end;
    }
    proof {
        assert(l.ranges@ + pieces(start, total, segment_size) =~= l.ranges@);
    }
    l
}

proof fn lemma_pieces_in_order(from: usize, to: usize, chunk: usize, i: int)
    requires
        chunk > 0,
        0 <= i < pieces(from, to, chunk).len(),
    ensures
        from <= pieces(from, to, chunk)[i].0 < pieces(from, to, chunk)[i].1 <= to,
    decreases to - from,
{
    if from < to {
        let next = clip(from + chunk, to);
        if i > 0 {
            lemma_pieces_in_order(next, to, chunk, i - 1);
            assert(pieces(from, to, chunk)[i] == pieces(next, to, chunk)[i - 1]);
        }
    }
}

proof fn lemma_pieces_cover(from: usize, to: usize, chunk: usize, m: int) -> (i: int)
    requires
        chunk > 0,
        from <= m < to,
    ensures
        0 <= i < pieces(from, to, chunk).len(),
        pieces(from, to, chunk)[i].0 <= m < pieces(from, to, chunk)[i].1,
    decreases to - from,
{
    let next = clip(from + chunk, to);
    if m < next {
        assert(pieces(from, to, chunk)[0] == (from, next));
        0
    } else {
        let k = lemma_pieces_cover(next, to, chunk, m);
        assert(pieces(from, to, chunk)[k + 1] == pieces(next, to, chunk)[k]);
        k + 1
    }
}

/// Whether a scan is set up with a layout.
pub open spec fn uses_layout(cfg: ScanConfig, l: SegmentLayout) -> bool {
    &&& cfg.segment_ranges matches Some(r) && r@ == l.ranges@
    &&& cfg.segment_metas matches Some(m) && m@ == l.metas@
    &&& cfg.segment_block_ranges matches Some(br) && br@ == l.block_ranges@
    &&& cfg.segment_block_metas matches Some(bm) && bm@ == l.block_metas@
}

/// A layout built from strands can be relied on: its metadata is honest, and every strand lies
/// in one of its segments and blocks, so that a scan with it misses no match.
pub proof fn law_layout_is_honest_and_covers(
    l: SegmentLayout,
    strands: Seq<StrandView>,
    segment_size: usize,
    block_size: usize,
    names: Seq<&str>,
    cfg: ScanConfig,
    m: int,
) -> (seg: int)
    requires
        strands.len() <= u32::MAX,
        segment_size > 0,
        block_size > 0,
        l.ranges@ == pieces(0, strands.len() as usize, segment_size),
        segments_describe(l, strands, block_size, names, l.ranges@.len() as int),
        uses_layout(cfg, l),
        0 <= m < strands.len(),
    ensures
        honest_config(cfg, strands),
        covered(cfg, strands.len() as usize, m, seg),
{
    let n = strands.len() as usize;
    assert forall|i: int| 0 <= i < l.ranges@.len() implies (#[trigger] l.ranges@[i]).0 < l.ranges@[i].1 <= n by {
        lemma_pieces_in_order(0, n, segment_size, i);
    }
    let metas = cfg.segment_metas->0;
    let ranges = cfg.segment_ranges->0;
    assert forall|i: int| 0 <= i < ranges@.len() && i < metas@.len() implies ranges@[i].0 <= ranges@[i].1 <= n && honest(
        (#[trigger] metas@[i]).field_stats@,
        metas@[i].field_dictionaries@,
        strands.subrange(ranges@[i].0 as int, ranges@[i].1 as int),
    ) by {
        assert(ranges@[i] == l.ranges@[i]);
        assert(metas@[i] == l.metas@[i]);
        assert(describes(
            metas@[i].field_stats@,
            metas@[i].field_dictionaries@,
            strands.subrange(l.ranges@[i].0 as int, l.ranges@[i].1 as int),
            names,
            SEGMENT_BLOOM_BITS as nat,
            SEGMENT_BLOOM_HASHES as nat,
        ));
    }
    assert forall|i: int, j: int|
        #![trigger cfg.segment_block_metas->0@[i]@[j]]
        #![trigger honest_block(cfg, strands, i, j)]
        0 <= i < segments(cfg, n).len() && has_blocks(cfg, i) && 0 <= j < cfg.segment_block_ranges->0@[i]@.len()
            && j < cfg.segment_block_metas->0@[i]@.len() implies honest_block(cfg, strands, i, j) by {
        let seg = l.ranges@[i];
        assert(segments(cfg, n)[i] == seg);
        assert(l.block_ranges@[i] == cfg.segment_block_ranges->0@[i]);
        assert(l.block_metas@[i] == cfg.segment_block_metas->0@[i]);
        let width = (seg.1 - seg.0) as usize;
        lemma_pieces_in_order(0, width, block_size, j);
        let block = l.block_ranges@[i]@[j];
        let meta = l.block_metas@[i]@[j];
        assert(blocks_describe(l.block_ranges@[i]@, l.block_metas@[i]@, strands, seg.0 as int, names));
        assert(describes(
            meta.field_stats@,
            meta.field_dictionaries@,
            strands.subrange(seg.0 + block.0, seg.0 + block.1),
            names,
            BLOCK_BLOOM_BITS as nat,
            BLOCK_BLOOM_HASHES as nat,
        ));
    }
    let i = lemma_pieces_cover(0, n, segment_size, m);
    let seg = l.ranges@[i];
    assert(l.block_ranges@[i] == cfg.segment_block_ranges->0@[i]);
    assert(l.block_metas@[i] == cfg.segment_block_metas->0@[i]);
    let width = (seg.1 - seg.0) as usize;
    let j = lemma_pieces_cover(0, width, block_size, m - seg.0);
    assert(blocks_describe(l.block_ranges@[i]@, l.block_metas@[i]@, strands, seg.0 as int, names));
    let block = cfg.segment_block_ranges->0@[i]@[j];
    assert(block.0 + seg.0 <= m < block.1 + seg.0);
    i
}

} // verus!
