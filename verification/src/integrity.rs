//! Checksums of strand frames, written beside them, and the scrubber that compares the two.
use crate::codec::{strand_frame, BincodeStrandCodec, CodecError, StrandCodec, STRAND_FORMAT_MAGIC};
use crate::digest::{crc32, crc32_of};
use crate::model::StrandView;
use crate::storage::{
    frames, is_meta_end, lemma_broken_frame, lemma_end, lemma_next_frame, pool_broken,
    pool_holds, scan_meta_tail, starts_frame,
};
use crate::support::bytes::{
    bytes_eq, from_le, le_bytes, lemma_le_bytes_len, lemma_le_round_trip, lemma_pow256_values,
    u32_from_le_at, u32_le, u64_from_le_at, u64_le,
};
use crate::support::int_map::IntMap;
use vstd::prelude::*;

verus! {

/// Size of a checksum entry: a sequence in eight bytes and a checksum in four.
pub const CRC_ENTRY_SIZE: usize = 12;

/// What a scrub found.
#[derive(Debug, Clone, Copy, PartialEq, Eq, Structural)]
pub struct ScrubReport {
    pub checked: usize,
    pub missing_crc: usize,
    pub mismatched_crc: usize,
}

/// The CRC-32 checksum of `bytes`.
pub fn compute_crc32(bytes: &[u8]) -> (r: u32)
    ensures
        r == crc32_of(bytes@),
{
    crc32(bytes)
}

/// The entry for a sequence and its checksum.
pub open spec fn crc_entry(sequence: u64, crc: u32) -> Seq<u8> {
    le_bytes(sequence as nat, 8) + le_bytes(crc as nat, 4)
}

/// The entry for a sequence and its checksum.
pub fn encode_crc_entry(sequence: u64, crc: u32) -> (r: [u8; CRC_ENTRY_SIZE])
    ensures
        r@ == crc_entry(sequence, crc),
{
    let s = u64_le(sequence);
    let c = u32_le(crc);
    let r: [u8; CRC_ENTRY_SIZE] = [s[0], s[1], s[2], s[3], s[4], s[5], s[6], s[7], c[0], c[1], c[2], c[3]];
    proof {
        assert(r@ =~= crc_entry(sequence, crc));
    }
    r
}

/// The checksums by sequence in the first `k` entries; of two for one sequence the later
/// counts.
pub open spec fn crc_map(b: Seq<u8>, k: nat) -> Map<u64, u32>
    decreases k,
{
    if k == 0 {
        Map::empty()
    } else {
        let at = 12 * (k - 1);
        crc_map(b, (k - 1) as nat).insert(
            from_le(b.subrange(at, at + 8)) as u64,
            from_le(b.subrange(at + 8, at + 12)) as u32,
        )
    }
}

/// Whether `m` is what a metadata pool says: its whole entries up to the last byte that is not
/// zero.
pub open spec fn crc_entries(m: Map<u64, u32>, meta: Seq<u8>) -> bool {
    exists|n: int| #[trigger] is_meta_end(meta, n) && m == crc_map(meta, (n / 12) as nat)
}

/// The checksums by sequence in a metadata pool.
pub fn decode_crc_entries(meta_bytes: &[u8]) -> (r: IntMap<u32>)
    ensures
        crc_entries(r@, meta_bytes@),
{
    let end: usize = scan_meta_tail(meta_bytes);
    let mut out: IntMap<u32> = IntMap::new();
    let mut k: usize = 0;
    let mut pos: usize = 0;
    while end - pos >= CRC_ENTRY_SIZE
        invariant
            end <= meta_bytes@.len(),
            pos == 12 * k,
            pos <= end,
            out@ == crc_map(meta_bytes@, k as nat),
        decreases end - pos,
    {
        let sequence: u64 = u64_from_le_at(meta_bytes, pos);
        let crc: u32 = u32_from_le_at(meta_bytes, pos + 8);
        let _ = out.insert(sequence, crc);
        pos = pos + CRC_ENTRY_SIZE;
        k += 1;
    }
    proof {
        assert(k as int == end as int / 12) by (nonlinear_arith)
            requires
                pos == 12 * k,
                pos <= end,
                end - pos < 12,
        ;
        assert(is_meta_end(meta_bytes@, end as int));
    }
    out
}

/// The entries of sequences and checksums, one behind the other.
pub open spec fn crc_bytes(entries: Seq<(u64, u32)>) -> Seq<u8>
    decreases entries.len(),
{
    if entries.len() == 0 {
        Seq::empty()
    } else {
        crc_bytes(entries.drop_last()) + crc_entry(entries.last().0, entries.last().1)
    }
}

/// The checksums by sequence that entries stand for.
pub open spec fn entry_map(entries: Seq<(u64, u32)>) -> Map<u64, u32>
    decreases entries.len(),
{
    if entries.len() == 0 {
        Map::empty()
    } else {
        entry_map(entries.drop_last()).insert(entries.last().0, entries.last().1)
    }
}

proof fn lemma_entry_len(sequence: u64, crc: u32)
    ensures
        crc_entry(sequence, crc).len() == 12,
        crc_entry(sequence, crc).subrange(0, 8) == le_bytes(sequence as nat, 8),
        crc_entry(sequence, crc).subrange(8, 12) == le_bytes(crc as nat, 4),
        from_le(le_bytes(sequence as nat, 8)) == sequence,
        from_le(le_bytes(crc as nat, 4)) == crc,
{
    lemma_le_bytes_len(sequence as nat, 8);
    lemma_le_bytes_len(crc as nat, 4);
    lemma_pow256_values();
    lemma_le_round_trip(sequence as nat, 8);
    lemma_le_round_trip(crc as nat, 4);
    assert(crc_entry(sequence, crc).subrange(0, 8) =~= le_bytes(sequence as nat, 8));
    assert(crc_entry(sequence, crc).subrange(8, 12) =~= le_bytes(crc as nat, 4));
}

proof fn lemma_crc_map(b: Seq<u8>, entries: Seq<(u64, u32)>)
    requires
        crc_bytes(entries).is_prefix_of(b),
    ensures
        crc_bytes(entries).len() == 12 * entries.len(),
        crc_map(b, entries.len()) == entry_map(entries),
    decreases entries.len(),
{
    if entries.len() > 0 {
        let front = entries.drop_last();
        let all = crc_bytes(entries);
        let head = crc_bytes(front);
        let (s, c) = entries.last();
        lemma_entry_len(s, c);
        assert(all =~= b.subrange(0, all.len() as int));
        assert(head =~= b.subrange(0, head.len() as int));
        lemma_crc_map(b, front);
        let at = 12 * (entries.len() - 1);
        let e = crc_entry(s, c);
        assert(b.subrange(at, at + 8) =~= e.subrange(0, 8)) by {
            assert forall|i: int| 0 <= i < 8 implies b[at + i] == e[i] by {
                assert(all[at + i] == e[i]);
            }
        }
        assert(b.subrange(at + 8, at + 12) =~= e.subrange(8, 12)) by {
            assert forall|i: int| 8 <= i < 12 implies b[at + i] == e[i] by {
                assert(all[at + i] == e[i]);
            }
        }
    }
}

/// Entries that were written are read back, with only zeros behind them and unless the last
/// checksum ends in a zero byte, which cannot be told from them.
pub proof fn law_crc_entries_round_trip(entries: Seq<(u64, u32)>, meta: Seq<u8>, m: Map<u64, u32>)
    requires
        crc_bytes(entries).is_prefix_of(meta),
        forall|i: int| crc_bytes(entries).len() <= i < meta.len() ==> #[trigger] meta[i] == 0,
        entries.len() > 0 ==> entries.last().1 >= 0x100_0000,
        crc_entries(m, meta),
    ensures
        m == entry_map(entries),
{
    let n = choose|n: int| #[trigger] is_meta_end(meta, n) && m == crc_map(meta, (n / 12) as nat);
    lemma_crc_map(meta, entries);
    let len = crc_bytes(entries).len() as int;
    if entries.len() > 0 {
        let (s, c) = entries.last();
        lemma_entry_len(s, c);
        let b = le_bytes(c as nat, 4);
        lemma_top_byte(b);
        let all = crc_bytes(entries);
        assert(all =~= meta.subrange(0, len));
        assert(all[len - 1] == crc_entry(s, c)[11]);
        assert(meta[len - 1] == b[3]);
        assert(meta[len - 1] != 0);
        assert(n >= len);
    }
    if n > len {
        assert(meta[n - 1] == 0);
    }
    assert(n == len);
    assert(len / 12 == entries.len());
}

proof fn lemma_top_byte(b: Seq<u8>)
    requires
        b.len() == 4,
        from_le(b) >= 0x100_0000,
    ensures
        b[3] != 0,
{
    reveal_with_fuel(from_le, 5);
    assert(b.skip(1).skip(1).skip(1).skip(1).len() == 0);
    let x = b.skip(1);
    let y = x.skip(1);
    let z = y.skip(1);
    assert(z[0] == b[3]);
    assert(from_le(z) == z[0] as nat);
    assert(from_le(y) == y[0] as nat + 256 * from_le(z));
    assert(from_le(x) == x[0] as nat + 256 * from_le(y));
}

/// How many of the strands have no checksum.
pub open spec fn missing(m: Map<u64, u32>, vs: Seq<StrandView>) -> nat
    decreases vs.len(),
{
    if vs.len() == 0 {
        0
    } else {
        missing(m, vs.drop_last()) + (if m.dom().contains(vs.last().version) {
            0nat
        } else {
            1
        })
    }
}

/// How many of the strands have another checksum than their frame.
pub open spec fn mismatched(m: Map<u64, u32>, vs: Seq<StrandView>) -> nat
    decreases vs.len(),
{
    if vs.len() == 0 {
        0
    } else {
        mismatched(m, vs.drop_last()) + (if m.dom().contains(vs.last().version) && m[vs.last().version]
            != crc32_of(strand_frame(vs.last())) {
            1nat
        } else {
            0
        })
    }
}

/// Whether a report is what scrubbing the strands against the checksums gives.
pub open spec fn reports(r: ScrubReport, m: Map<u64, u32>, vs: Seq<StrandView>) -> bool {
    &&& r.checked == vs.len()
    &&& r.missing_crc == missing(m, vs)
    &&& r.mismatched_crc == mismatched(m, vs)
}

/// How a scrub ends: with a report on all frames, or at the first that cannot be read.
pub open spec fn scrubbed(r: Result<ScrubReport, CodecError>, strands: Seq<u8>, m: Map<u64, u32>) -> bool {
    &&& match r {
        Ok(report) => exists|vs: Seq<StrandView>| #[trigger] pool_holds(strands, vs) && reports(report, m, vs),
        Err(e) => exists|vs: Seq<StrandView>| #[trigger] pool_broken(strands, vs, e),
    }
    &&& forall|ws: Seq<StrandView>| #[trigger]
        pool_holds(strands, ws) ==> (r matches Ok(report) && reports(report, m, ws))
}

/// Compares the checksum of every strand frame with the stored one.
pub fn scrub_pools(strands_bytes: &[u8], meta_bytes: &[u8]) -> (r: Result<ScrubReport, CodecError>)
    ensures
        exists|m: Map<u64, u32>| #[trigger] crc_entries(m, meta_bytes@) && scrubbed(r, strands_bytes@, m),
{
    let known = decode_crc_entries(meta_bytes);
    let codec = BincodeStrandCodec;
    let magic = STRAND_FORMAT_MAGIC;
    let mut pos: usize = 0;
    let mut checked: usize = 0;
    let mut missing_crc: usize = 0;
    let mut mismatched_crc: usize = 0;
    let ghost mut vs: Seq<StrandView> = Seq::empty();
    proof {
        assert(frames(vs) =~= strands_bytes@.subrange(0, 0));
    }
    while strands_bytes.len() - pos >= 6
        invariant
            0 <= pos <= strands_bytes@.len(),
            magic@ == STRAND_FORMAT_MAGIC@,
            crc_entries(known@, meta_bytes@),
            pos == frames(vs).len(),
            frames(vs).is_prefix_of(strands_bytes@),
            vs.len() <= pos,
            checked == vs.len(),
            missing_crc == missing(known@, vs),
            mismatched_crc == mismatched(known@, vs),
            missing_crc + mismatched_crc <= checked,
            forall|ws: Seq<StrandView>| #[trigger]
                pool_holds(strands_bytes@, ws) ==> vs.len() <= ws.len() && vs == ws.take(vs.len() as int),
        decreases strands_bytes@.len() - pos,
    {
        let head = vstd::slice::slice_subrange(strands_bytes, pos, pos + 4);
        let rest = vstd::slice::slice_subrange(strands_bytes, pos, strands_bytes.len());
        proof {
            assert(rest@ =~= strands_bytes@.skip(pos as int));
            assert(head@ =~= rest@.take(4));
        }
        if !bytes_eq(head, magic.as_slice()) {
            let report = ScrubReport { checked, missing_crc, mismatched_crc };
            let r = Ok(report);
            proof {
                lemma_end(strands_bytes@, vs);
                assert(pool_holds(strands_bytes@, vs) && reports(report, known@, vs));
                assert(scrubbed(r, strands_bytes@, known@));
            }
            return r;
        }
        let (strand, len) = match codec.decode_strand_with_len(rest) {
            Ok(x) => x,
            Err(e) => {
                let r = Err(e);
                proof {
                    lemma_broken_frame(strands_bytes@, vs);
                    assert(pool_broken(strands_bytes@, vs, r->Err_0));
                    assert(scrubbed(r, strands_bytes@, known@));
                }
                return r;
            },
        };
        let frame = vstd::slice::slice_subrange(rest, 0, len);
        proof {
            assert(frame@ =~= strand_frame(strand@));
            lemma_next_frame(strands_bytes@, vs, strand@);
            assert(vs.push(strand@).drop_last() =~= vs);
            vs = vs.push(strand@);
        }
        let actual: u32 = compute_crc32(frame);
        match known.get(strand.version) {
            Some(expected) => {
                if *expected != actual {
                    mismatched_crc += 1;
                }
            },
            None => {
                missing_crc += 1;
            },
        }
        checked += 1;
        pos = pos + len;
    }
    let report = ScrubReport { checked, missing_crc, mismatched_crc };
    let r = Ok(report);
    proof {
        assert(!starts_frame(strands_bytes@.skip(pos as int)));
        lemma_end(strands_bytes@, vs);
        assert(pool_holds(strands_bytes@, vs) && reports(report, known@, vs));
        assert(scrubbed(r, strands_bytes@, known@));
    }
    r
}

/// The entries that are written beside strands: version and checksum of each.
pub open spec fn written_entries(vs: Seq<StrandView>) -> Seq<(u64, u32)> {
    Seq::new(vs.len(), |i: int| (vs[i].version, crc32_of(strand_frame(vs[i]))))
}

proof fn lemma_entry_map(entries: Seq<(u64, u32)>, i: int)
    requires
        0 <= i < entries.len(),
        forall|a: int, b: int|
            0 <= a < entries.len() && 0 <= b < entries.len() && (#[trigger] entries[a]).0 == (
            #[trigger] entries[b]).0 ==> a == b,
    ensures
        entry_map(entries).dom().contains(entries[i].0),
        entry_map(entries)[entries[i].0] == entries[i].1,
    decreases entries.len(),
{
    let front = entries.drop_last();
    if i < entries.len() - 1 {
        assert forall|a: int, b: int|
            0 <= a < front.len() && 0 <= b < front.len() && (#[trigger] front[a]).0 == (
            #[trigger] front[b]).0 implies a == b by {
            assert(entries[a].0 == entries[b].0);
        }
        lemma_entry_map(front, i);
        assert(front[i] == entries[i]);
        assert(entries[i].0 != entries[entries.len() - 1].0);
    }
}

proof fn lemma_clean(m: Map<u64, u32>, vs: Seq<StrandView>)
    requires
        forall|i: int|
            0 <= i < vs.len() ==> m.dom().contains((#[trigger] vs[i]).version) && m[vs[i].version] == crc32_of(
                strand_frame(vs[i]),
            ),
    ensures
        missing(m, vs) == 0,
        mismatched(m, vs) == 0,
    decreases vs.len(),
{
    if vs.len() > 0 {
        let front = vs.drop_last();
        assert forall|i: int| 0 <= i < front.len() implies m.dom().contains((#[trigger] front[i]).version)
            && m[front[i].version] == crc32_of(strand_frame(front[i])) by {
            assert(front[i] == vs[i]);
        }
        lemma_clean(m, front);
        assert(vs[vs.len() - 1] == vs.last());
    }
}

/// A collection as it was written is clean: every frame is checked, no checksum is missing and
/// none differs.
pub proof fn law_written_collection_is_clean(vs: Seq<StrandView>, meta: Seq<u8>, m: Map<u64, u32>, r: ScrubReport)
    requires
        forall|i: int, j: int|
            0 <= i < vs.len() && 0 <= j < vs.len() && (#[trigger] vs[i]).version == (#[trigger] vs[j]).version ==> i
                == j,
        crc_bytes(written_entries(vs)).is_prefix_of(meta),
        forall|i: int| crc_bytes(written_entries(vs)).len() <= i < meta.len() ==> #[trigger] meta[i] == 0,
        vs.len() > 0 ==> crc32_of(strand_frame(vs.last())) >= 0x100_0000,
        crc_entries(m, meta),
        reports(r, m, vs),
    ensures
        r == (ScrubReport { checked: vs.len() as usize, missing_crc: 0, mismatched_crc: 0 }),
{
    let entries = written_entries(vs);
    law_crc_entries_round_trip(entries, meta, m);
    assert forall|a: int, b: int|
        0 <= a < entries.len() && 0 <= b < entries.len() && (#[trigger] entries[a]).0 == (
        #[trigger] entries[b]).0 implies a == b by {
        assert(vs[a].version == vs[b].version);
    }
    assert forall|i: int| 0 <= i < vs.len() implies m.dom().contains((#[trigger] vs[i]).version)
        && m[vs[i].version] == crc32_of(strand_frame(vs[i])) by {
        lemma_entry_map(entries, i);
        assert(entries[i] == (vs[i].version, crc32_of(strand_frame(vs[i]))));
    }
    lemma_clean(m, vs);
}

} // verus!
