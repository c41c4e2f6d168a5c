//! Strand frames: a magic word, a format version, and the serialized strand.
use crate::model::{
    copy_codons, Codon, Intron, IntronView, RefreshPolicy, Strand, StrandView, Tag, Telomere,
};
use crate::support::bytes::{from_le, le_bytes, lemma_le_canonical, push_bytes, u16_le};
use crate::wire_format::{
    bincode_strand, plain_introns, plain_parts, plain_tags, read_strand, strand_size,
    write_strand, PlainParts, PlainStrand,
};
use vstd::prelude::*;

verus! {

/// The four bytes with which every strand frame starts: `DNAS`.
pub const STRAND_FORMAT_MAGIC: [u8; 4] = [0x44, 0x4e, 0x41, 0x53];

/// The format version written into every frame.
pub const STRAND_FORMAT_VERSION: u16 = 1;

/// Why a frame could not be written or read.
#[derive(Debug, PartialEq, Eq)]
pub enum CodecError {
    InvalidMagic,
    UnsupportedVersion(u16),
    PayloadTooShort,
    /// The payload is no serialized strand; the text says what was wrong.
    Serialize(String),
}

/// The kind of a [`CodecError`], without its text.
pub enum CodecFailure {
    InvalidMagic,
    UnsupportedVersion(u16),
    PayloadTooShort,
    Serialize,
}

impl CodecError {
    /// The kind of the error.
    pub open spec fn kind(&self) -> CodecFailure {
        match self {
            CodecError::InvalidMagic => CodecFailure::InvalidMagic,
            CodecError::UnsupportedVersion(v) => CodecFailure::UnsupportedVersion(*v),
            CodecError::PayloadTooShort => CodecFailure::PayloadTooShort,
            CodecError::Serialize(_) => CodecFailure::Serialize,
        }
    }
}

/// The position of a refresh policy among the policies.
pub open spec fn policy_index(p: RefreshPolicy) -> u32 {
    match p {
        RefreshPolicy::AutoOnRead => 0,
        RefreshPolicy::Manual => 1,
        RefreshPolicy::Immortal => 2,
    }
}

/// The symbols of a codon list as triples.
pub open spec fn triples(s: Seq<Codon>) -> Seq<(u8, u8, u8)> {
    Seq::new(s.len(), |i: int| (s[i].0, s[i].1, s[i].2))
}

/// An intron as plain values.
pub open spec fn intron_parts(i: IntronView) -> (Seq<char>, u32, u16, u64, Option<[u8; 8]>) {
    (i.field_name, i.codon_offset, i.codon_length, i.value_hash, i.references_strand)
}

/// A strand as plain values.
pub open spec fn strand_parts(v: StrandView) -> PlainParts {
    (
        v.signature,
        v.collection_id,
        triples(v.codons),
        triples(v.complement),
        Seq::new(v.introns.len(), |i: int| intron_parts(v.introns[i])),
        (
            v.telomere.count,
            v.telomere.immortal,
            v.telomere.last_refresh,
            policy_index(v.telomere.refresh_policy),
        ),
        Seq::new(v.epigenetic_tags.len(), |i: int| (v.epigenetic_tags[i].key, v.epigenetic_tags[i].value)),
        v.version,
        v.created_at,
        v.updated_at,
    )
}

/// The serialized strand.
pub open spec fn strand_payload(v: StrandView) -> Seq<u8> {
    bincode_strand(strand_parts(v))
}

/// The six bytes in front of the payload.
pub open spec fn frame_header() -> Seq<u8> {
    STRAND_FORMAT_MAGIC@ + le_bytes(STRAND_FORMAT_VERSION as nat, 2)
}

/// A whole strand frame.
pub open spec fn strand_frame(v: StrandView) -> Seq<u8> {
    frame_header() + strand_payload(v)
}

/// Whether the payload behind the header starts with the strand `v`.
pub open spec fn holds_strand(bytes: Seq<u8>, v: StrandView) -> bool {
    strand_payload(v).is_prefix_of(bytes.skip(6))
}

/// What reading a frame off the front of `bytes` gives.
pub open spec fn decode_frame(bytes: Seq<u8>) -> Result<StrandView, CodecFailure> {
    if bytes.len() < 6 {
        Err(CodecFailure::PayloadTooShort)
    } else if bytes.take(4) != STRAND_FORMAT_MAGIC@ {
        Err(CodecFailure::InvalidMagic)
    } else if from_le(bytes.subrange(4, 6)) != STRAND_FORMAT_VERSION {
        Err(CodecFailure::UnsupportedVersion(from_le(bytes.subrange(4, 6)) as u16))
    } else if exists|v: StrandView| holds_strand(bytes, v) {
        Ok(choose|v: StrandView| holds_strand(bytes, v))
    } else {
        Err(CodecFailure::Serialize)
    }
}

/// How an executed reading relates to [`decode_frame`].
pub open spec fn reads_as(r: Result<Strand, CodecError>, s: Result<StrandView, CodecFailure>) -> bool {
    match (r, s) {
        (Ok(a), Ok(b)) => a@ == b,
        (Err(a), Err(b)) => a.kind() == b,
        _ => false,
    }
}

fn to_triples(codons: &Vec<Codon>) -> (r: Vec<(u8, u8, u8)>)
    ensures
        r@ == triples(codons@),
{
    let mut out: Vec<(u8, u8, u8)> = Vec::new();
    let mut i: usize = 0;
    while i < codons.len()
        invariant
            0 <= i <= codons@.len(),
            out@ == triples(codons@).take(i as int),
        decreases codons@.len() - i,
    {
        let c = codons[i];
        out.push((c.0, c.1, c.2));
        proof {
            assert(triples(codons@).take(i + 1) =~= triples(codons@).take(i as int).push(
                triples(codons@)[i as int],
            ));
        }
        i += 1;
    }
    proof {
        assert(triples(codons@).take(codons@.len() as int) =~= triples(codons@));
    }
    out
}

/// The codons of a slice as triples of symbols.
pub(crate) fn codon_triples(codons: &[Codon]) -> (r: Vec<(u8, u8, u8)>)
    ensures
        r@ == triples(codons@),
{
    let v = copy_codons(codons, 0, codons.len());
    proof {
        assert(v@ =~= codons@);
    }
    to_triples(&v)
}

fn from_triples(t: &Vec<(u8, u8, u8)>) -> (r: Vec<Codon>)
    ensures
        triples(r@) == t@,
{
    let mut out: Vec<Codon> = Vec::new();
    let mut i: usize = 0;
    while i < t.len()
        invariant
            0 <= i <= t@.len(),
            triples(out@) == t@.take(i as int),
        decreases t@.len() - i,
    {
        let c = t[i];
        out.push(Codon(c.0, c.1, c.2));
        proof {
            assert(t@.take(i + 1) =~= t@.take(i as int).push(t@[i as int]));
            assert(triples(out@) =~= t@.take(i + 1));
        }
        i += 1;
    }
    proof {
        assert(t@.take(t@.len() as int) =~= t@);
    }
    out
}

fn to_plain(s: &Strand) -> (r: PlainStrand)
    ensures
        plain_parts(r) == strand_parts(s@),
{
    let mut introns: Vec<(String, u32, u16, u64, Option<[u8; 8]>)> = Vec::new();
    let ghost want_introns = strand_parts(s@).4;
    let mut i: usize = 0;
    while i < s.introns.len()
        invariant
            0 <= i <= s.introns@.len(),
            introns@.len() == i,
            want_introns == strand_parts(s@).4,
            forall|k: int| 0 <= k < i ==> plain_introns(introns@)[k] == #[trigger] want_introns[k],
        decreases s.introns@.len() - i,
    {
        let x = &s.introns[i];
        introns.push(
            (
                x.field_name.clone(),
                x.codon_offset,
                x.codon_length,
                x.value_hash,
                x.references_strand,
            ),
        );
        proof {
            assert(want_introns[i as int] == intron_parts(x@));
        }
        i += 1;
    }
    let mut tags: Vec<(String, String)> = Vec::new();
    let ghost want_tags = strand_parts(s@).6;
    let mut j: usize = 0;
    while j < s.epigenetic_tags.len()
        invariant
            0 <= j <= s.epigenetic_tags@.len(),
            tags@.len() == j,
            want_tags == strand_parts(s@).6,
            forall|k: int| 0 <= k < j ==> plain_tags(tags@)[k] == #[trigger] want_tags[k],
        decreases s.epigenetic_tags@.len() - j,
    {
        let x = &s.epigenetic_tags[j];
        tags.push((x.key.clone(), x.value.clone()));
        proof {
            assert(want_tags[j as int] == (x@.key, x@.value));
        }
        j += 1;
    }
    let policy: u32 = match s.telomere.refresh_policy {
        RefreshPolicy::AutoOnRead => 0,
        RefreshPolicy::Manual => 1,
        RefreshPolicy::Immortal => 2,
    };
    let r = (
        s.signature,
        s.collection_id,
        to_triples(&s.codons),
        to_triples(&s.complement),
        introns,
        (s.telomere.count, s.telomere.immortal, s.telomere.last_refresh, policy),
        tags,
        s.version,
        s.created_at,
        s.updated_at,
    );
    proof {
        assert(plain_introns(r.4@) =~= want_introns);
        assert(plain_tags(r.6@) =~= want_tags);
    }
    r
}

/// The strand that plain values describe; nothing where the refresh policy is none of the three.
fn from_plain(p: PlainStrand) -> (r: Option<Strand>)
    ensures
        match r {
            Some(s) => strand_parts(s@) == plain_parts(p),
            None => forall|v: StrandView| strand_parts(v) != plain_parts(p),
        },
{
    let ghost parts = plain_parts(p);
    let telo = p.5;
    let policy: RefreshPolicy = if telo.3 == 0 {
        RefreshPolicy::AutoOnRead
    } else if telo.3 == 1 {
        RefreshPolicy::Manual
    } else if telo.3 == 2 {
        RefreshPolicy::Immortal
    } else {
        proof {
            assert forall|v: StrandView| strand_parts(v) != plain_parts(p) by {
                let w = strand_parts(v).5;
                assert(w.3 <= 2);
            }
        }
        return None;
    };
    let mut introns: Vec<Intron> = Vec::new();
    let mut i: usize = 0;
    while i < p.4.len()
        invariant
            0 <= i <= p.4@.len(),
            introns@.len() == i,
            forall|k: int| 0 <= k < i ==> intron_parts((#[trigger] introns@[k])@) == plain_introns(p.4@)[k],
        decreases p.4@.len() - i,
    {
        let x = &p.4[i];
        introns.push(
            Intron {
                field_name: x.0.clone(),
                codon_offset: x.1,
                codon_length: x.2,
                value_hash: x.3,
                references_strand: x.4,
            },
        );
        i += 1;
    }
    let mut tags: Vec<Tag> = Vec::new();
    let mut j: usize = 0;
    while j < p.6.len()
        invariant
            0 <= j <= p.6@.len(),
            tags@.len() == j,
            forall|k: int|
                0 <= k < j ==> ((#[trigger] tags@[k])@.key, tags@[k]@.value) == plain_tags(p.6@)[k],
        decreases p.6@.len() - j,
    {
        let x = &p.6[j];
        tags.push(Tag { key: x.0.clone(), value: x.1.clone() });
        j += 1;
    }
    let s = Strand {
        signature: p.0,
        collection_id: p.1,
        codons: from_triples(&p.2),
        complement: from_triples(&p.3),
        introns,
        telomere: Telomere {
            count: telo.0,
            immortal: telo.1,
            last_refresh: telo.2,
            refresh_policy: policy,
        },
        epigenetic_tags: tags,
        version: p.7,
        created_at: p.8,
        updated_at: p.9,
    };
    proof {
        assert(strand_parts(s@).4 =~= parts.4);
        assert(strand_parts(s@).6 =~= parts.6);
        assert(strand_parts(s@).5 == parts.5);
    }
    Some(s)
}

/// Different strands have different plain values.
pub proof fn lemma_parts_injective(a: StrandView, b: StrandView)
    requires
        strand_parts(a) == strand_parts(b),
    ensures
        a == b,
{
    let pa = strand_parts(a);
    let pb = strand_parts(b);
    lemma_triples_injective(a.codons, b.codons);
    lemma_triples_injective(a.complement, b.complement);
    assert(pa.4.len() == a.introns.len() && pb.4.len() == b.introns.len());
    assert forall|i: int| 0 <= i < a.introns.len() implies a.introns[i] == b.introns[i] by {
        assert(pa.4[i] == intron_parts(a.introns[i]));
        assert(pb.4[i] == intron_parts(b.introns[i]));
    }
    assert(a.introns =~= b.introns);
    assert(pa.6.len() == a.epigenetic_tags.len() && pb.6.len() == b.epigenetic_tags.len());
    assert forall|i: int| 0 <= i < a.epigenetic_tags.len() implies a.epigenetic_tags[i]
        == b.epigenetic_tags[i] by {
        assert(pa.6[i] == (a.epigenetic_tags[i].key, a.epigenetic_tags[i].value));
        assert(pb.6[i] == (b.epigenetic_tags[i].key, b.epigenetic_tags[i].value));
    }
    assert(a.epigenetic_tags =~= b.epigenetic_tags);
    assert(pa.5 == pb.5);
}

proof fn lemma_triples_injective(a: Seq<Codon>, b: Seq<Codon>)
    requires
        triples(a) == triples(b),
    ensures
        a == b,
{
    assert(triples(a).len() == a.len() && triples(b).len() == b.len());
    assert forall|i: int| 0 <= i < a.len() implies a[i] == b[i] by {
        assert(triples(a)[i] == (a[i].0, a[i].1, a[i].2));
        assert(triples(b)[i] == (b[i].0, b[i].1, b[i].2));
    }
    assert(a =~= b);
}

/// Writes strands into frames and reads them back.
pub trait StrandCodec {
    /// The frame of a strand.
    fn encode_strand(&self, strand: &Strand) -> (r: Result<Vec<u8>, CodecError>)
        ensures
            r is Ok,
            r->Ok_0@ == strand_frame(strand@),
    ;

    /// The strand whose frame stands at the front of `bytes`. Bytes past the frame are
    /// ignored, and what was written is what is read: the frame of a strand at the front
    /// gives that strand.
    fn decode_strand(&self, bytes: &[u8]) -> (r: Result<Strand, CodecError>)
        ensures
            reads_as(r, decode_frame(bytes@)),
            r matches Ok(s) ==> strand_frame(s@).is_prefix_of(bytes@),
            forall|v: StrandView|
                (#[trigger] strand_frame(v)).is_prefix_of(bytes@) ==> (r matches Ok(s) && s@ == v),
    ;
}

/// The codec built on `bincode`.
#[derive(Debug, Default, Clone, Copy)]
pub struct BincodeStrandCodec;

proof fn lemma_header_split(bytes: Seq<u8>)
    requires
        bytes.len() >= 6,
        bytes.take(4) == STRAND_FORMAT_MAGIC@,
        from_le(bytes.subrange(4, 6)) == STRAND_FORMAT_VERSION,
    ensures
        bytes.take(6) == frame_header(),
{
    lemma_le_canonical(bytes.subrange(4, 6));
    assert(bytes.take(6) =~= bytes.take(4) + bytes.subrange(4, 6));
}

proof fn lemma_frame_prefix(bytes: Seq<u8>, v: StrandView)
    requires
        strand_frame(v).is_prefix_of(bytes),
    ensures
        bytes.len() >= 6,
        bytes.take(4) == STRAND_FORMAT_MAGIC@,
        from_le(bytes.subrange(4, 6)) == STRAND_FORMAT_VERSION,
        holds_strand(bytes, v),
{
    crate::support::bytes::lemma_le_bytes_len(STRAND_FORMAT_VERSION as nat, 2);
    crate::support::bytes::lemma_pow256_values();
    crate::support::bytes::lemma_le_round_trip(STRAND_FORMAT_VERSION as nat, 2);
    let f = strand_frame(v);
    assert(frame_header().len() == 6);
    assert(f =~= bytes.subrange(0, f.len() as int));
    assert forall|i: int| 0 <= i < 4 implies bytes[i] == STRAND_FORMAT_MAGIC@[i] by {
        assert(f[i] == bytes[i]);
    }
    assert(bytes.take(4) =~= STRAND_FORMAT_MAGIC@);
    assert forall|i: int| 0 <= i < 2 implies bytes[4 + i] == le_bytes(
        STRAND_FORMAT_VERSION as nat,
        2,
    )[i] by {
        assert(f[4 + i] == bytes[4 + i]);
    }
    assert(bytes.subrange(4, 6) =~= le_bytes(STRAND_FORMAT_VERSION as nat, 2));
    let p = strand_payload(v);
    assert forall|i: int| 0 <= i < p.len() implies p[i] == bytes.skip(6)[i] by {
        assert(f[6 + i] == bytes[6 + i]);
    }
    assert(p =~= bytes.skip(6).subrange(0, p.len() as int));
}

impl StrandCodec for BincodeStrandCodec {
    fn encode_strand(&self, strand: &Strand) -> (r: Result<Vec<u8>, CodecError>) {
        let plain = to_plain(strand);
        let payload = match write_strand(&plain) {
            Ok(p) => p,
            Err(e) => {
                return Err(CodecError::Serialize(e.to_string()));
            },
        };
        let mut out: Vec<u8> = Vec::new();
        let magic = STRAND_FORMAT_MAGIC;
        let version = u16_le(STRAND_FORMAT_VERSION);
        push_bytes(&mut out, magic.as_slice());
        push_bytes(&mut out, version.as_slice());
        push_bytes(&mut out, payload.as_slice());
        proof {
            assert(out@ =~= strand_frame(strand@));
        }
        Ok(out)
    }

    fn decode_strand(&self, bytes: &[u8]) -> (r: Result<Strand, CodecError>) {
        proof {
            assert forall|v: StrandView| (#[trigger] strand_frame(v)).is_prefix_of(bytes@) implies bytes@.len()
                >= 6 && bytes@.take(4) == STRAND_FORMAT_MAGIC@ && from_le(bytes@.subrange(4, 6))
                == STRAND_FORMAT_VERSION && holds_strand(bytes@, v) by {
                lemma_frame_prefix(bytes@, v);
            }
        }
        if bytes.len() < 6 {
            return Err(CodecError::PayloadTooShort);
        }
        let magic = STRAND_FORMAT_MAGIC;
        let front = vstd::slice::slice_subrange(bytes, 0, 4);
        proof {
            assert(front@ =~= bytes@.take(4));
        }
        if !crate::support::bytes::bytes_eq(front, magic.as_slice()) {
            return Err(CodecError::InvalidMagic);
        }
        let version: u16 = bytes[4] as u16 + 256 * (bytes[5] as u16);
        proof {
            reveal_with_fuel(from_le, 3);
            let w = bytes@.subrange(4, 6);
            assert(w.skip(1).skip(1).len() == 0);
            assert(from_le(w) == w[0] as nat + 256 * (w[1] as nat));
        }
        if version != STRAND_FORMAT_VERSION {
            return Err(CodecError::UnsupportedVersion(version));
        }
        let rest = vstd::slice::slice_subrange(bytes, 6, bytes.len());
        proof {
            assert(rest@ =~= bytes@.skip(6));
        }
        let plain = match read_strand(rest) {
            Ok(p) => p,
            Err(e) => {
                return Err(CodecError::Serialize(e.to_string()));
            },
        };
        let ghost parts = plain_parts(plain);
        match from_plain(plain) {
            Some(s) => {
                proof {
                    assert(holds_strand(bytes@, s@));
                    let v = choose|v: StrandView| holds_strand(bytes@, v);
                    assert(holds_strand(bytes@, v));
                    lemma_parts_injective(v, s@);
                    assert forall|w: StrandView| holds_strand(bytes@, w) implies s@ == w by {
                        lemma_parts_injective(w, s@);
                    }
                    lemma_header_split(bytes@);
                    let f = strand_frame(s@);
                    assert(f =~= bytes@.subrange(0, f.len() as int)) by {
                        let p = strand_payload(s@);
                        assert(p =~= bytes@.skip(6).subrange(0, p.len() as int));
                        assert(bytes@.take(6) + p =~= bytes@.subrange(0, (6 + p.len()) as int));
                    }
                }
                Ok(s)
            },
            None => Err(CodecError::Serialize("unknown refresh policy".to_string())),
        }
    }
}

impl BincodeStrandCodec {
    /// Reads one strand frame and says how many bytes it takes.
    pub fn decode_strand_with_len(&self, bytes: &[u8]) -> (r: Result<(Strand, usize), CodecError>)
        ensures
            match (r, decode_frame(bytes@)) {
                (Ok((s, n)), Ok(v)) => s@ == v && n as nat == strand_frame(v).len(),
                (Err(a), Err(b)) => a.kind() == b,
                _ => false,
            },
            r matches Ok((s, n)) ==> strand_frame(s@).is_prefix_of(bytes@) && 6 <= n <= bytes@.len(),
            forall|v: StrandView|
                (#[trigger] strand_frame(v)).is_prefix_of(bytes@) ==> (r matches Ok((s, n)) && s@ == v),
    {
        let strand = self.decode_strand(bytes)?;
        let plain = to_plain(&strand);
        match strand_size(&plain) {
            Ok(n) => {
                proof {
                    crate::support::bytes::lemma_le_bytes_len(STRAND_FORMAT_VERSION as nat, 2);
                }
                let size: usize = bytes.len();
                Ok((strand, 6 + n as usize))
            },
            Err(e) => Err(CodecError::Serialize(e.to_string())),
        }
    }
}

} // verus!
