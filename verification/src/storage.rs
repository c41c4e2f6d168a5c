//! The pools of a collection: where an entry goes, when a pool grows, and how far a pool that
//! is opened again is filled. The files themselves stay with the caller.
use crate::codec::{
    decode_frame, frame_header, strand_frame, BincodeStrandCodec, CodecError,
    STRAND_FORMAT_MAGIC, STRAND_FORMAT_VERSION,
};
use crate::model::{strand_views, Codon, Strand, StrandView};
use crate::processor::complement_blob;
use crate::support::bytes::{bytes_eq, from_le, le_bytes, lemma_le_bytes_len, u32_from_le_at};
use crate::support::text::join2;
use crate::wire_format::{holds_triples, triples_readable};
use vstd::prelude::*;

verus! {

/// Size of a new pool: 1 MiB.
pub const DEFAULT_FILE_SIZE: usize = 1_048_576;

/// Why an entry could not be stored or a pool not be opened.
#[derive(Debug, PartialEq, Eq)]
pub enum StorageError {
    /// The entry does not fit.
    BufferFull,
    /// A frame of the strand pool cannot be read.
    StrandScan(CodecError),
}

/// The file names of a collection's pools: strands, complements, metadata.
pub fn pool_file_names(collection: &str) -> (r: (String, String, String))
    ensures
        r.0@ == collection@ + ".strands"@,
        r.1@ == collection@ + ".complement"@,
        r.2@ == collection@ + ".meta"@,
{
    (join2(collection, ".strands"), join2(collection, ".complement"), join2(collection, ".meta"))
}

/// `size` doubled until it is at least `required`, or as large as a size can be.
pub open spec fn doubled(size: nat, required: nat) -> nat
    decreases (if size < required { required - size } else { 0 }),
{
    if size >= required || size == 0 {
        size
    } else if 2 * size > usize::MAX {
        usize::MAX as nat
    } else {
        doubled(2 * size, required)
    }
}

/// The capacity that a pool needs for `required` bytes: its own where that is enough, else at
/// least the default size, doubled until it is.
pub open spec fn capacity_for(capacity: nat, required: nat) -> nat {
    if required <= capacity {
        capacity
    } else {
        doubled(
            if capacity < DEFAULT_FILE_SIZE {
                DEFAULT_FILE_SIZE as nat
            } else {
                capacity
            },
            required,
        )
    }
}

proof fn lemma_doubled(size: nat, required: nat)
    requires
        0 < size <= usize::MAX,
        required <= usize::MAX,
    ensures
        required <= doubled(size, required) <= usize::MAX,
        size <= doubled(size, required),
    decreases (if size < required { required - size } else { 0 }),
{
    if size < required && 2 * size <= usize::MAX {
        lemma_doubled(2 * size, required);
    }
}

/// The capacity that a pool needs for `required` bytes.
pub fn grown_capacity(capacity: usize, required: usize) -> (r: usize)
    ensures
        r as nat == capacity_for(capacity as nat, required as nat),
        r >= required,
        r >= capacity,
{
    if required <= capacity {
        return capacity;
    }
    let start: usize = if capacity < DEFAULT_FILE_SIZE {
        DEFAULT_FILE_SIZE
    } else {
        capacity
    };
    let mut size: usize = start;
    proof {
        lemma_doubled(start as nat, required as nat);
    }
    while size < required
        invariant
            0 < size,
            doubled(size as nat, required as nat) == doubled(start as nat, required as nat),
            required <= doubled(start as nat, required as nat),
            start <= doubled(start as nat, required as nat),
            size >= required ==> size == doubled(size as nat, required as nat),
        decreases (if size < required { required - size } else { 0 }),
    {
        if size > usize::MAX / 2 {
            size = usize::MAX;
        } else {
            size = size * 2;
        }
    }
    size
}

/// Where an entry goes: its first byte, the end of the filled part after it, and the capacity
/// that the pool must grow to before, if it must.
#[derive(Debug, Clone, Copy, PartialEq, Eq, Structural)]
pub struct AppendPlan {
    pub offset: usize,
    pub end: usize,
    pub grow_to: Option<usize>,
}

/// How far a pool is filled, its capacity, and how often it grew.
#[derive(Debug, Clone, Copy, PartialEq, Eq, Structural)]
pub struct PoolState {
    pub len: usize,
    pub capacity: usize,
    pub grow_events: u64,
}

impl PoolState {
    /// Whether the filled part lies within the capacity.
    pub open spec fn wf(self) -> bool {
        self.len <= self.capacity
    }

    /// Takes room for an entry of `append_len` bytes behind the filled part.
    pub fn append(&mut self, append_len: usize) -> (r: AppendPlan)
        requires
            old(self).wf(),
            old(self).len + append_len <= usize::MAX,
            old(self).grow_events < u64::MAX,
        ensures
            final(self).wf(),
            r.offset == old(self).len,
            r.end == old(self).len + append_len,
            final(self).len == r.end,
            final(self).capacity as nat == capacity_for(old(self).capacity as nat, r.end as nat),
            r.grow_to == (if r.end > old(self).capacity {
                Some(final(self).capacity)
            } else {
                None
            }),
            final(self).grow_events == old(self).grow_events + (if r.end > old(self).capacity {
                1int
            } else {
                0
            }),
    {
        let offset: usize = self.len;
        let end: usize = offset + append_len;
        let mut grow_to: Option<usize> = None;
        if end > self.capacity {
            let size: usize = grown_capacity(self.capacity, end);
            self.capacity = size;
            self.grow_events = self.grow_events + 1;
            grow_to = Some(size);
        }
        self.len = end;
        AppendPlan { offset, end, grow_to }
    }
}

/// The three pools of a collection, and the highest version among its strands.
#[derive(Debug, Clone, Copy, PartialEq, Eq, Structural)]
pub struct CollectionState {
    pub strands: PoolState,
    pub complement: PoolState,
    pub meta: PoolState,
    pub materialized_high_water_sequence: u64,
}

impl CollectionState {
    /// Notes that the entry with this sequence has been materialized.
    pub fn record_materialized_sequence(&mut self, sequence: u64)
        ensures
            final(self).materialized_high_water_sequence == (if old(self).materialized_high_water_sequence < sequence {
                sequence
            } else {
                old(self).materialized_high_water_sequence
            }),
            final(self).strands == old(self).strands,
            final(self).complement == old(self).complement,
            final(self).meta == old(self).meta,
    {
        if self.materialized_high_water_sequence < sequence {
            self.materialized_high_water_sequence = sequence;
        }
    }

    /// How many bytes of strand frames there are.
    pub fn strand_bytes_written(&self) -> (r: usize)
        ensures
            r == self.strands.len,
    {
        self.strands.len
    }

    /// How often each pool grew.
    pub fn grow_events(&self) -> (r: (u64, u64, u64))
        ensures
            r == (self.strands.grow_events, self.complement.grow_events, self.meta.grow_events),
    {
        (self.strands.grow_events, self.complement.grow_events, self.meta.grow_events)
    }

    /// The capacity of each pool.
    pub fn map_capacities(&self) -> (r: (usize, usize, usize))
        ensures
            r == (self.strands.capacity, self.complement.capacity, self.meta.capacity),
    {
        (self.strands.capacity, self.complement.capacity, self.meta.capacity)
    }

    /// The state of pools with these contents.
    pub fn open(strands: &[u8], complement: &[u8], meta: &[u8]) -> (r: Result<Self, StorageError>)
        ensures
            match r {
                Ok(s) => {
                    &&& exists|vs: Seq<StrandView>| #[trigger]
                        pool_holds(strands@, vs) && s.strands.len == frames(vs).len()
                            && s.materialized_high_water_sequence == top_version(vs)
                    &&& s.complement.len as nat == complement_end(complement@, 0)
                    &&& is_meta_end(meta@, s.meta.len as int)
                    &&& s.strands.capacity == strands@.len()
                    &&& s.complement.capacity == complement@.len()
                    &&& s.meta.capacity == meta@.len()
                    &&& s.strands.grow_events == 0
                    &&& s.complement.grow_events == 0
                    &&& s.meta.grow_events == 0
                    &&& s.strands.wf()
                    &&& s.complement.wf()
                    &&& s.meta.wf()
                },
                Err(StorageError::StrandScan(e)) => exists|vs: Seq<StrandView>| #[trigger] pool_broken(strands@, vs, e),
                Err(_) => false,
            },
            forall|ws: Seq<StrandView>| #[trigger]
                pool_holds(strands@, ws) ==> (r matches Ok(s) && s.strands.len == frames(ws).len()
                    && s.materialized_high_water_sequence == top_version(ws)),
    {
        let (len, version) = match scan_strands_tail(strands) {
            Ok(x) => x,
            Err(e) => {
                let r = Err(StorageError::StrandScan(e));
                return r;
            },
        };
        let complement_len: usize = scan_complement_tail(complement);
        let meta_len: usize = scan_meta_tail(meta);
        let s = CollectionState {
            strands: PoolState { len, capacity: strands.len(), grow_events: 0 },
            complement: PoolState { len: complement_len, capacity: complement.len(), grow_events: 0 },
            meta: PoolState { len: meta_len, capacity: meta.len(), grow_events: 0 },
            materialized_high_water_sequence: version,
        };
        proof {
            let vs = choose|vs: Seq<StrandView>| #[trigger]
                pool_holds(strands@, vs) && len == frames(vs).len() && version == top_version(vs);
            assert(pool_holds(strands@, vs));
        }
        Ok(s)
    }
}

/// The frames of strands, one behind the other.
pub open spec fn frames(vs: Seq<StrandView>) -> Seq<u8>
    decreases vs.len(),
{
    if vs.len() == 0 {
        Seq::empty()
    } else {
        frames(vs.drop_last()) + strand_frame(vs.last())
    }
}

/// The highest version; 0 without strands.
pub open spec fn top_version(vs: Seq<StrandView>) -> u64
    decreases vs.len(),
{
    if vs.len() == 0 {
        0
    } else {
        let before = top_version(vs.drop_last());
        if before < vs.last().version {
            vs.last().version
        } else {
            before
        }
    }
}

/// Whether bytes start like a frame.
pub open spec fn starts_frame(bytes: Seq<u8>) -> bool {
    bytes.len() >= 6 && bytes.take(4) == STRAND_FORMAT_MAGIC@
}

/// Whether a pool holds the frames of exactly these strands, with no frame behind them.
pub open spec fn pool_holds(bytes: Seq<u8>, vs: Seq<StrandView>) -> bool {
    frames(vs).is_prefix_of(bytes) && !starts_frame(bytes.skip(frames(vs).len() as int))
}

/// Whether a pool holds the frames of these strands and then one that cannot be read.
pub open spec fn pool_broken(bytes: Seq<u8>, vs: Seq<StrandView>, e: CodecError) -> bool {
    &&& frames(vs).is_prefix_of(bytes)
    &&& starts_frame(bytes.skip(frames(vs).len() as int))
    &&& decode_frame(bytes.skip(frames(vs).len() as int)) == Err::<StrandView, crate::codec::CodecFailure>(e.kind())
}

proof fn lemma_frames_split(ws: Seq<StrandView>, k: int)
    requires
        0 <= k < ws.len(),
    ensures
        (frames(ws.take(k)) + strand_frame(ws[k])).is_prefix_of(frames(ws)),
    decreases ws.len(),
{
    let front = ws.drop_last();
    if k == ws.len() - 1 {
        assert(ws.take(k) =~= front);
        assert(frames(ws) =~= frames(ws).subrange(0, frames(ws).len() as int));
    } else {
        lemma_frames_split(front, k);
        assert(front.take(k) =~= ws.take(k));
        let a = frames(ws.take(k)) + strand_frame(ws[k]);
        assert(a =~= frames(front).subrange(0, a.len() as int));
        assert(a =~= frames(ws).subrange(0, a.len() as int));
    }
}

/// Reads a strand pool: how many bytes of frames it holds, and the highest version among them.
/// What was written is found again: from the frames of any strands with no frame behind them,
/// it finds their length and their highest version.
pub fn scan_strands_tail(bytes: &[u8]) -> (r: Result<(usize, u64), CodecError>)
    ensures
        match r {
            Ok((n, top)) => n <= bytes@.len() && exists|vs: Seq<StrandView>| #[trigger]
                pool_holds(bytes@, vs) && n == frames(vs).len() && top == top_version(vs),
            Err(e) => exists|vs: Seq<StrandView>| #[trigger] pool_broken(bytes@, vs, e),
        },
        forall|ws: Seq<StrandView>| #[trigger]
            pool_holds(bytes@, ws) ==> (r matches Ok((n, top)) && n == frames(ws).len() && top == top_version(ws)),
{
    let codec = BincodeStrandCodec;
    let magic = STRAND_FORMAT_MAGIC;
    let mut pos: usize = 0;
    let mut top: u64 = 0;
    let ghost mut vs: Seq<StrandView> = Seq::empty();
    proof {
        assert(frames(vs) =~= bytes@.subrange(0, 0));
    }
    while bytes.len() - pos >= 6
        invariant
            0 <= pos <= bytes@.len(),
            magic@ == STRAND_FORMAT_MAGIC@,
            pos == frames(vs).len(),
            frames(vs).is_prefix_of(bytes@),
            top == top_version(vs),
            forall|ws: Seq<StrandView>| #[trigger]
                pool_holds(bytes@, ws) ==> vs.len() <= ws.len() && vs == ws.take(vs.len() as int),
        decreases bytes@.len() - pos,
    {
        let head = vstd::slice::slice_subrange(bytes, pos, pos + 4);
        let rest = vstd::slice::slice_subrange(bytes, pos, bytes.len());
        proof {
            assert(rest@ =~= bytes@.skip(pos as int));
            assert(head@ =~= rest@.take(4));
        }
        if !bytes_eq(head, magic.as_slice()) {
            proof {
                lemma_end(bytes@, vs);
            }
            return Ok((pos, top));
        }
        match codec.decode_strand_with_len(rest) {
            Ok((strand, n)) => {
                proof {
                    lemma_next_frame(bytes@, vs, strand@);
                    vs = vs.push(strand@);
                }
                if strand.version > top {
                    top = strand.version;
                }
                pos = pos + n;
            },
            Err(e) => {
                let r = Err(e);
                proof {
                    lemma_broken_frame(bytes@, vs);
                    assert(pool_broken(bytes@, vs, r->Err_0));
                }
                return r;
            },
        }
    }
    proof {
        assert(!starts_frame(bytes@.skip(pos as int)));
        lemma_end(bytes@, vs);
    }
    Ok((pos, top))
}

/// One frame more of a pool has been read.
pub proof fn lemma_next_frame(bytes: Seq<u8>, vs: Seq<StrandView>, v: StrandView)
    requires
        frames(vs).is_prefix_of(bytes),
        starts_frame(bytes.skip(frames(vs).len() as int)),
        strand_frame(v).is_prefix_of(bytes.skip(frames(vs).len() as int)),
        forall|w: StrandView|
            (#[trigger] strand_frame(w)).is_prefix_of(bytes.skip(frames(vs).len() as int)) ==> w == v,
        forall|ws: Seq<StrandView>| #[trigger]
            pool_holds(bytes, ws) ==> vs.len() <= ws.len() && vs == ws.take(vs.len() as int),
    ensures
        frames(vs.push(v)).is_prefix_of(bytes),
        frames(vs.push(v)).len() == frames(vs).len() + strand_frame(v).len(),
        top_version(vs.push(v)) == (if top_version(vs) < v.version {
            v.version
        } else {
            top_version(vs)
        }),
        forall|ws: Seq<StrandView>| #[trigger]
            pool_holds(bytes, ws) ==> vs.push(v).len() <= ws.len() && vs.push(v) == ws.take(
                vs.push(v).len() as int,
            ),
{
    let pos = frames(vs).len() as int;
    let rest = bytes.skip(pos);
    let next = vs.push(v);
    assert(next.drop_last() =~= vs);
    let f = strand_frame(v);
    assert(f =~= rest.subrange(0, f.len() as int));
    assert(frames(vs) =~= bytes.subrange(0, pos));
    assert(frames(next) =~= bytes.subrange(0, pos + f.len()));
    assert forall|ws: Seq<StrandView>| #[trigger] pool_holds(bytes, ws) implies next.len() <= ws.len() && next
        == ws.take(next.len() as int) by {
        let k = vs.len() as int;
        assert(vs == ws.take(k));
        lemma_frame_at(bytes, vs, ws);
        assert(ws.take(k + 1) =~= ws.take(k).push(ws[k]));
    }
}

/// Where a pool goes on with something like a frame, any strands that it holds go on too.
proof fn lemma_frame_at(bytes: Seq<u8>, vs: Seq<StrandView>, ws: Seq<StrandView>)
    requires
        starts_frame(bytes.skip(frames(vs).len() as int)),
        pool_holds(bytes, ws),
        vs.len() <= ws.len(),
        vs == ws.take(vs.len() as int),
    ensures
        vs.len() < ws.len(),
        strand_frame(ws[vs.len() as int]).is_prefix_of(bytes.skip(frames(vs).len() as int)),
{
    let k = vs.len() as int;
    let pos = frames(vs).len() as int;
    let rest = bytes.skip(pos);
    if ws.len() == k {
        assert(ws.take(k) =~= ws);
        assert(false);
    }
    lemma_frames_split(ws, k);
    let g = strand_frame(ws[k]);
    let a = frames(vs) + g;
    let all = frames(ws);
    assert(a =~= all.subrange(0, a.len() as int));
    assert(all =~= bytes.subrange(0, all.len() as int));
    assert(g =~= rest.subrange(0, g.len() as int)) by {
        assert forall|i: int| 0 <= i < g.len() implies g[i] == rest[i] by {
            assert(g[i] == a[pos + i]);
            assert(a[pos + i] == all[pos + i]);
        }
    }
}

/// A pool that goes on with a frame that cannot be read holds no whole number of strands.
pub proof fn lemma_broken_frame(bytes: Seq<u8>, vs: Seq<StrandView>)
    requires
        frames(vs).is_prefix_of(bytes),
        starts_frame(bytes.skip(frames(vs).len() as int)),
        forall|w: StrandView|
            !(#[trigger] strand_frame(w)).is_prefix_of(bytes.skip(frames(vs).len() as int)),
        forall|ws: Seq<StrandView>| #[trigger]
            pool_holds(bytes, ws) ==> vs.len() <= ws.len() && vs == ws.take(vs.len() as int),
    ensures
        forall|ws: Seq<StrandView>| !#[trigger] pool_holds(bytes, ws),
{
    assert forall|ws: Seq<StrandView>| !#[trigger] pool_holds(bytes, ws) by {
        if pool_holds(bytes, ws) {
            lemma_frame_at(bytes, vs, ws);
        }
    }
}

/// A pool has been read to its end.
pub proof fn lemma_end(bytes: Seq<u8>, vs: Seq<StrandView>)
    requires
        frames(vs).is_prefix_of(bytes),
        !starts_frame(bytes.skip(frames(vs).len() as int)),
        forall|ws: Seq<StrandView>| #[trigger]
            pool_holds(bytes, ws) ==> vs.len() <= ws.len() && vs == ws.take(vs.len() as int),
    ensures
        pool_holds(bytes, vs),
        forall|ws: Seq<StrandView>| #[trigger] pool_holds(bytes, ws) ==> ws == vs,
{
    assert forall|ws: Seq<StrandView>| #[trigger] pool_holds(bytes, ws) implies ws == vs by {
        let k = vs.len() as int;
        if ws.len() > k {
            lemma_frames_split(ws, k);
            let a = frames(vs) + strand_frame(ws[k]);
            let all = frames(ws);
            let pos = frames(vs).len() as int;
            assert(a =~= all.subrange(0, a.len() as int));
            assert(all =~= bytes.subrange(0, all.len() as int));
            lemma_le_bytes_len(STRAND_FORMAT_VERSION as nat, 2);
            let g = strand_frame(ws[k]);
            assert(frame_header().len() == 6);
            let rest = bytes.skip(pos);
            assert(rest.take(4) =~= STRAND_FORMAT_MAGIC@) by {
                assert forall|i: int| 0 <= i < 4 implies rest[i] == STRAND_FORMAT_MAGIC@[i] by {
                    assert(g[i] == a[pos + i]);
                    assert(a[pos + i] == all[pos + i]);
                    assert(g[i] == frame_header()[i]);
                }
            }
            assert(starts_frame(rest));
        } else {
            assert(ws.take(k) =~= ws);
        }
    }
}

/// All strands of a pool. What was written is what is read.
pub fn decode_all_strands(bytes: &[u8]) -> (r: Result<Vec<Strand>, CodecError>)
    ensures
        match r {
            Ok(v) => pool_holds(bytes@, strand_views(v@)),
            Err(e) => exists|vs: Seq<StrandView>| #[trigger] pool_broken(bytes@, vs, e),
        },
        forall|ws: Seq<StrandView>| #[trigger] pool_holds(bytes@, ws) ==> (r matches Ok(v) && strand_views(v@) == ws),
{
    let codec = BincodeStrandCodec;
    let magic = STRAND_FORMAT_MAGIC;
    let mut out: Vec<Strand> = Vec::new();
    let mut pos: usize = 0;
    proof {
        assert(strand_views(out@) =~= Seq::<StrandView>::empty());
        assert(frames(strand_views(out@)) =~= bytes@.subrange(0, 0));
    }
    while bytes.len() - pos >= 6
        invariant
            0 <= pos <= bytes@.len(),
            magic@ == STRAND_FORMAT_MAGIC@,
            pos == frames(strand_views(out@)).len(),
            frames(strand_views(out@)).is_prefix_of(bytes@),
            forall|ws: Seq<StrandView>| #[trigger]
                pool_holds(bytes@, ws) ==> strand_views(out@).len() <= ws.len() && strand_views(out@) == ws.take(
                    strand_views(out@).len() as int,
                ),
        decreases bytes@.len() - pos,
    {
        let ghost vs = strand_views(out@);
        let head = vstd::slice::slice_subrange(bytes, pos, pos + 4);
        let rest = vstd::slice::slice_subrange(bytes, pos, bytes.len());
        proof {
            assert(rest@ =~= bytes@.skip(pos as int));
            assert(head@ =~= rest@.take(4));
        }
        if !bytes_eq(head, magic.as_slice()) {
            proof {
                lemma_end(bytes@, vs);
            }
            return Ok(out);
        }
        match codec.decode_strand_with_len(rest) {
            Ok((strand, n)) => {
                let ghost v = strand@;
                proof {
                    lemma_next_frame(bytes@, vs, v);
                }
                out.push(strand);
                proof {
                    assert(strand_views(out@) =~= vs.push(v));
                }
                pos = pos + n;
            },
            Err(e) => {
                let r = Err(e);
                proof {
                    lemma_broken_frame(bytes@, vs);
                    assert(pool_broken(bytes@, vs, r->Err_0));
                }
                return r;
            },
        }
    }
    proof {
        assert(!starts_frame(bytes@.skip(pos as int)));
        lemma_end(bytes@, strand_views(out@));
    }
    Ok(out)
}

/// Whether a complement entry stands at `pos`: a byte count, and within that many bytes a
/// codon list.
pub open spec fn complement_at(bytes: Seq<u8>, pos: int) -> bool {
    &&& 0 <= pos
    &&& pos + 4 <= bytes.len()
    &&& pos + 4 + from_le(bytes.subrange(pos, pos + 4)) <= bytes.len()
    &&& holds_triples(bytes.subrange(pos + 4, pos + 4 + from_le(bytes.subrange(pos, pos + 4))))
}

/// The end of the complement entries from `pos` on.
pub open spec fn complement_end(bytes: Seq<u8>, pos: nat) -> nat
    decreases bytes.len() - pos,
{
    if complement_at(bytes, pos as int) {
        complement_end(bytes, pos + 4 + from_le(bytes.subrange(pos as int, pos as int + 4)))
    } else {
        pos
    }
}

/// How many bytes of a complement pool are filled.
pub fn scan_complement_tail(bytes: &[u8]) -> (r: usize)
    ensures
        r as nat == complement_end(bytes@, 0),
        r <= bytes@.len(),
{
    let size: usize = bytes.len();
    let mut pos: usize = 0;
    while size - pos >= 4
        invariant
            size == bytes@.len(),
            0 <= pos <= size,
            complement_end(bytes@, pos as nat) == complement_end(bytes@, 0),
        decreases size - pos,
    {
        let len: u32 = u32_from_le_at(bytes, pos);
        if len as usize > size - pos - 4 {
            return pos;
        }
        let end: usize = pos + 4 + len as usize;
        let chunk = vstd::slice::slice_subrange(bytes, pos + 4, end);
        if !triples_readable(chunk) {
            return pos;
        }
        pos = end;
    }
    pos
}

/// Whether the bytes before `n` are the filled part: what follows is zero, and the last one is
/// not.
pub open spec fn is_meta_end(bytes: Seq<u8>, n: int) -> bool {
    &&& 0 <= n <= bytes.len()
    &&& forall|i: int| n <= i < bytes.len() ==> #[trigger] bytes[i] == 0
    &&& n > 0 ==> bytes[n - 1] != 0
}

/// How many bytes of a metadata pool are filled: all up to the last that is not zero.
pub fn scan_meta_tail(bytes: &[u8]) -> (r: usize)
    ensures
        is_meta_end(bytes@, r as int),
{
    let mut n: usize = bytes.len();
    while n > 0
        invariant
            0 <= n <= bytes@.len(),
            forall|i: int| n <= i < bytes@.len() ==> #[trigger] bytes@[i] == 0,
        decreases n,
    {
        if bytes[n - 1] != 0 {
            return n;
        }
        n -= 1;
    }
    n
}

/// The bytes from where to where an entry of `append_len` bytes takes in a pool of `capacity`
/// bytes, behind its filled part.
pub fn append_to_map(capacity: usize, current_len: usize, append_len: usize) -> (r: Result<(usize, usize), StorageError>)
    ensures
        match r {
            Ok((start, end)) => start == current_len && end == current_len + append_len && end <= capacity,
            Err(e) => e is BufferFull && current_len + append_len > capacity,
        },
{
    if current_len > capacity || append_len > capacity - current_len {
        return Err(StorageError::BufferFull);
    }
    Ok((current_len, current_len + append_len))
}

/// The complement entries of codon lists, one behind the other.
pub open spec fn blobs(lists: Seq<Seq<Codon>>) -> Seq<u8>
    decreases lists.len(),
{
    if lists.len() == 0 {
        Seq::empty()
    } else {
        complement_blob(lists[0]) + blobs(lists.skip(1))
    }
}

/// What was written to a complement pool is found again: behind entries that each fit 32 bits
/// and before bytes that start no entry, the filled part ends where the entries do.
pub proof fn law_complement_pool_reopens(front: Seq<u8>, lists: Seq<Seq<Codon>>, tail: Seq<u8>)
    requires
        forall|i: int| 0 <= i < lists.len() ==> 8 + 3 * (#[trigger] lists[i]).len() <= u32::MAX,
        !complement_at(front + blobs(lists) + tail, (front.len() + blobs(lists).len()) as int),
    ensures
        complement_end(front + blobs(lists) + tail, front.len()) == front.len() + blobs(lists).len(),
    decreases lists.len(),
{
    let all = front + blobs(lists) + tail;
    if lists.len() > 0 {
        let codons = lists[0];
        let b = complement_blob(codons);
        let rest = lists.skip(1);
        let n = (8 + 3 * codons.len()) as nat;
        lemma_le_bytes_len(n, 4);
        lemma_le_bytes_len(codons.len(), 8);
        crate::support::bytes::lemma_pow256_values();
        crate::support::bytes::lemma_le_round_trip(n, 4);
        assert(n % 0x1_0000_0000 == n) by (nonlinear_arith)
            requires
                0 <= n <= u32::MAX,
        ;
        assert(b.len() == 4 + n);
        let pos = front.len() as int;
        assert(all.subrange(pos, pos + 4) =~= le_bytes(n, 4));
        let chunk = all.subrange(pos + 4, pos + 4 + n);
        assert(chunk.take(8) =~= le_bytes(codons.len(), 8));
        lemma_count_fits(codons.len());
        crate::support::bytes::lemma_le_round_trip(codons.len(), 8);
        assert(holds_triples(chunk));
        assert(complement_at(all, pos));
        let next = front + b;
        assert(next + blobs(rest) + tail =~= all);
        assert forall|i: int| 0 <= i < rest.len() implies 8 + 3 * (#[trigger] rest[i]).len() <= u32::MAX by {
            assert(rest[i] == lists[i + 1]);
        }
        assert(next.len() + blobs(rest).len() == front.len() + blobs(lists).len());
        law_complement_pool_reopens(next, rest, tail);
    }
}

proof fn lemma_count_fits(n: nat)
    requires
        8 + 3 * n <= u32::MAX,
    ensures
        n < crate::support::bytes::pow256(8),
{
    crate::support::bytes::lemma_pow256_values();
}

} // verus!
