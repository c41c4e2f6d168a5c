//! From a log payload to a strand: encode, complement, weave introns.
use crate::clock::{clock_read, now_ns};
use crate::codec::{
    codon_triples, strand_frame, triples, BincodeStrandCodec, CodecError, StrandCodec,
};
use crate::complement::{complement_spec, generate_complement};
use crate::encoding::{codons_of, encode_bytes_to_codons, lemma_codons_valid};
use crate::digest::crc32_of;
use crate::integrity::{compute_crc32, crc_entry, encode_crc_entry, CRC_ENTRY_SIZE};
use crate::model::{
    Codon, Intron, IntronView, RefreshPolicy, Strand, StrandView, Tag, TagView, Telomere,
};
use crate::support::bytes::{le_bytes, push_bytes, u32_le, u64_le};
use crate::support::num_text::{decimal, u64_text};
use crate::support::text::owned;
use crate::wire_format::{flat_triples, write_triples};
use vstd::prelude::*;

verus! {

/// Where the FNV-1a hash starts.
pub const FNV_OFFSET: u64 = 14695981039346656037;

/// What the FNV-1a hash multiplies by.
pub const FNV_PRIME: u64 = 1099511628211;

/// One step of the FNV-1a hash.
pub open spec fn fnv_step(h: u64, b: u8) -> u64 {
    (h ^ (b as u64)).wrapping_mul(FNV_PRIME)
}

/// The 64-bit FNV-1a hash of a byte string.
pub open spec fn fnv1a64_spec(data: Seq<u8>) -> u64
    decreases data.len(),
{
    if data.len() == 0 {
        FNV_OFFSET
    } else {
        fnv_step(fnv1a64_spec(data.drop_last()), data.last())
    }
}

/// The 64-bit FNV-1a hash over `data`.
pub fn fnv1a64(data: &[u8]) -> (r: u64)
    ensures
        r == fnv1a64_spec(data@),
{
    let mut hash: u64 = FNV_OFFSET;
    let mut i: usize = 0;
    while i < data.len()
        invariant
            0 <= i <= data@.len(),
            hash == fnv1a64_spec(data@.take(i as int)),
        decreases data@.len() - i,
    {
        proof {
            assert(data@.take(i + 1).drop_last() =~= data@.take(i as int));
        }
        hash = (hash ^ (data[i] as u64)).wrapping_mul(FNV_PRIME);
        i += 1;
    }
    proof {
        assert(data@.take(data@.len() as int) =~= data@);
    }
    hash
}

/// The signature of the strand that comes from log entry `sequence`.
pub fn strand_signature(sequence: u64) -> (r: [u8; 8])
    ensures
        r@ == le_bytes(sequence as nat, 8),
{
    u64_le(sequence)
}

/// The codon count that an intron can state: at most 65535.
pub open spec fn stated_length(n: nat) -> u16 {
    if n <= u16::MAX {
        n as u16
    } else {
        u16::MAX
    }
}

/// Whether `v` is the strand of a log entry, stamped with the time `now`.
pub open spec fn is_wal_strand(
    v: StrandView,
    collection_id: u32,
    sequence: u64,
    payload: Seq<u8>,
    now: u64,
) -> bool {
    &&& v.signature@ == le_bytes(sequence as nat, 8)
    &&& v.collection_id == collection_id
    &&& v.codons == codons_of(payload)
    &&& v.complement == complement_spec(codons_of(payload))
    &&& v.introns == seq![
        IntronView {
            field_name: "_payload"@,
            codon_offset: 0,
            codon_length: stated_length(codons_of(payload).len()),
            value_hash: fnv1a64_spec(payload),
            references_strand: None,
        },
    ]
    &&& v.telomere == Telomere {
        count: 0,
        immortal: true,
        last_refresh: now,
        refresh_policy: RefreshPolicy::Immortal,
    }
    &&& v.epigenetic_tags == seq![TagView { key: "wal_sequence"@, value: decimal(sequence as nat) }]
    &&& v.version == sequence
    &&& v.created_at == now
    &&& v.updated_at == now
}

/// The strand of a log entry, stamped with the time `now`.
pub fn strand_from_wal_payload_at(
    collection_id: u32,
    sequence: u64,
    raw_payload: &[u8],
    now: u64,
) -> (r: Strand)
    ensures
        is_wal_strand(r@, collection_id, sequence, raw_payload@, now),
{
    let encoded = encode_bytes_to_codons(raw_payload);
    let codons = encoded.codons;
    proof {
        lemma_codons_valid(raw_payload@);
    }
    let complement = generate_complement(codons.as_slice());
    let codon_len: u16 = if codons.len() <= 65535 {
        codons.len() as u16
    } else {
        65535
    };
    let mut introns: Vec<Intron> = Vec::new();
    introns.push(
        Intron {
            field_name: owned("_payload"),
            codon_offset: 0,
            codon_length: codon_len,
            value_hash: fnv1a64(raw_payload),
            references_strand: None,
        },
    );
    let mut tags: Vec<Tag> = Vec::new();
    tags.push(Tag { key: owned("wal_sequence"), value: u64_text(sequence) });
    let r = Strand {
        signature: strand_signature(sequence),
        collection_id,
        codons,
        complement,
        introns,
        telomere: Telomere {
            count: 0,
            immortal: true,
            last_refresh: now,
            refresh_policy: RefreshPolicy::Immortal,
        },
        epigenetic_tags: tags,
        version: sequence,
        created_at: now,
        updated_at: now,
    };
    proof {
        assert(r@.introns =~= seq![r.introns@[0]@]);
        assert(r@.epigenetic_tags =~= seq![r.epigenetic_tags@[0]@]);
    }
    r
}

/// The strand of a log entry, stamped with the wall-clock time.
pub fn strand_from_wal_payload(collection_id: u32, sequence: u64, raw_payload: &[u8]) -> (r: Strand)
    ensures
        is_wal_strand(r@, collection_id, sequence, raw_payload@, r.created_at),
        clock_read(r.created_at),
{
    let now: u64 = now_ns();
    strand_from_wal_payload_at(collection_id, sequence, raw_payload, now)
}

/// The complement pool entry of a codon list: the byte count of what follows (its low 32
/// bits), the codon count, the symbols.
pub open spec fn complement_blob(codons: Seq<Codon>) -> Seq<u8> {
    le_bytes(((8 + 3 * codons.len()) % 0x1_0000_0000) as nat, 4) + le_bytes(codons.len(), 8) + flat_triples(
        triples(codons),
    )
}

/// The entry that the complement pool holds for `codons`.
pub fn encode_complement_blob(codons: &[Codon]) -> (r: Result<Vec<u8>, bincode::Error>)
    ensures
        r is Ok,
        r->Ok_0@ == complement_blob(codons@),
{
    let plain = codon_triples(codons);
    let inner = write_triples(&plain)?;
    let mut out: Vec<u8> = Vec::new();
    let n: u32 = (inner.len() as u64 % 0x1_0000_0000) as u32;
    proof {
        crate::support::bytes::lemma_le_bytes_len(codons@.len(), 8);
    }
    let head = u32_le(n);
    push_bytes(&mut out, head.as_slice());
    push_bytes(&mut out, inner.as_slice());
    proof {
        assert(out@ =~= complement_blob(codons@));
    }
    Ok(out)
}

/// How eagerly materialized entries are forced to disk.
#[derive(Debug, Clone, Copy, PartialEq, Eq, Structural)]
pub enum PersistMode {
    /// Flush maps and files after every entry.
    SyncEveryWrite,
    /// Leave flushing to the caller, once per batch.
    Buffered,
}

/// Why an entry could not be materialized.
#[derive(Debug)]
pub enum ProcessorError {
    Codec(CodecError),
    Bincode(bincode::Error),
}

/// What a log entry adds to the pools of its collection.
#[derive(Debug)]
pub struct MaterializedEntry {
    /// The frame for the strand pool.
    pub strand_bytes: Vec<u8>,
    /// The checksum entry for the metadata pool.
    pub crc_entry: [u8; CRC_ENTRY_SIZE],
    /// The entry for the complement pool.
    pub complement_bytes: Vec<u8>,
}

/// Whether `e` is what the strand `v` of the log entry `sequence` adds to the pools: its
/// frame, the checksum of that, and its complement.
pub open spec fn materializes(e: MaterializedEntry, v: StrandView, sequence: u64) -> bool {
    &&& e.strand_bytes@ == strand_frame(v)
    &&& e.crc_entry@ == crc_entry(sequence, crc32_of(strand_frame(v)))
    &&& e.complement_bytes@ == complement_blob(v.complement)
}

/// Turns a log entry into what it adds to the pools, at the time `now`.
pub fn materialize_entry_at(
    codec: &BincodeStrandCodec,
    collection_id: u32,
    sequence: u64,
    raw_payload: &[u8],
    now: u64,
) -> (r: Result<MaterializedEntry, ProcessorError>)
    ensures
        r matches Ok(e) && exists|v: StrandView| #[trigger]
            is_wal_strand(v, collection_id, sequence, raw_payload@, now) && materializes(e, v, sequence),
{
    let strand = strand_from_wal_payload_at(collection_id, sequence, raw_payload, now);
    let strand_bytes = match codec.encode_strand(&strand) {
        Ok(b) => b,
        Err(e) => {
            return Err(ProcessorError::Codec(e));
        },
    };
    let crc: u32 = compute_crc32(strand_bytes.as_slice());
    let entry = encode_crc_entry(sequence, crc);
    let complement_bytes = match encode_complement_blob(strand.complement.as_slice()) {
        Ok(b) => b,
        Err(e) => {
            return Err(ProcessorError::Bincode(e));
        },
    };
    let e = MaterializedEntry { strand_bytes, crc_entry: entry, complement_bytes };
    let r = Ok(e);
    proof {
        assert(is_wal_strand(strand@, collection_id, sequence, raw_payload@, now));
        assert(materializes(r->Ok_0, strand@, sequence));
    }
    r
}

/// Turns a log entry into what it adds to the pools, at the present time.
pub fn materialize_entry(codec: &BincodeStrandCodec, collection_id: u32, sequence: u64, raw_payload: &[u8]) -> (r: Result<
    MaterializedEntry,
    ProcessorError,
>)
    ensures
        r matches Ok(e) && exists|v: StrandView, now: u64| #[trigger]
            is_wal_strand(v, collection_id, sequence, raw_payload@, now) && clock_read(now) && materializes(
                e,
                v,
                sequence,
            ),
{
    let now: u64 = now_ns();
    materialize_entry_at(codec, collection_id, sequence, raw_payload, now)
}

} // verus!
