//! Field values of a strand: the codons of an intron, decoded.
use crate::encoding::{
    codons_of, decode_codons_to_bytes, decode_spec, law_decode_inverts_encode,
    law_length_from_codon_count, EncodedPayload, EncodingError,
};
use crate::model::{copy_codons, Codon, Intron, IntronView, Strand, StrandView};
use crate::processor::is_wal_strand;
use vstd::prelude::*;

verus! {

/// The bytes that an intron's codons spell; nothing where they lie outside the strand or
/// cannot be decoded. The byte count is three quarters of the codon count, rounded down.
pub open spec fn field_bytes(codons: Seq<Codon>, intron: IntronView) -> Option<Seq<u8>> {
    let start = intron.codon_offset as int;
    let end = start + intron.codon_length;
    if end > codons.len() {
        None
    } else {
        match decode_spec(codons.subrange(start, end), ((intron.codon_length * 3) / 4) as nat) {
            Ok(b) => Some(b),
            Err(_) => None,
        }
    }
}

/// The bytes of the field that `intron` marks in `strand`.
pub fn intron_payload_bytes(strand: &Strand, intron: &Intron) -> (r: Option<Vec<u8>>)
    ensures
        match r {
            Some(b) => field_bytes(strand@.codons, intron@) == Some(b@),
            None => field_bytes(strand@.codons, intron@) is None,
        },
{
    let start: usize = intron.codon_offset as usize;
    let len: usize = intron.codon_length as usize;
    let n: usize = strand.codons.len();
    if start > n || len > n - start {
        return None;
    }
    let end: usize = start + len;
    let payload = EncodedPayload {
        codons: copy_codons(strand.codons.as_slice(), start, end),
        original_len: (len * 3) / 4,
    };
    match decode_codons_to_bytes(&payload) {
        Ok(b) => Some(b),
        Err(_) => None,
    }
}

/// Whether intron `i` of a strand carries the field `field` with the value `value`.
pub open spec fn carries(v: StrandView, field: Seq<char>, i: int, value: Seq<u8>) -> bool {
    &&& 0 <= i < v.introns.len()
    &&& v.introns[i].field_name == field
    &&& field_bytes(v.codons, v.introns[i]) == Some(value)
}

/// Whether some intron of the strand carries `field` with `value`.
pub open spec fn has_value(v: StrandView, field: Seq<char>, value: Seq<u8>) -> bool {
    exists|i: int| carries(v, field, i, value)
}

/// The payload of a log entry can be read back out of its strand, as long as its codon count
/// fits the intron.
pub proof fn law_wal_payload_is_readable(
    v: StrandView,
    collection_id: u32,
    sequence: u64,
    payload: Seq<u8>,
    now: u64,
)
    requires
        is_wal_strand(v, collection_id, sequence, payload, now),
        codons_of(payload).len() <= u16::MAX,
    ensures
        field_bytes(v.codons, v.introns[0]) == Some(payload),
        has_value(v, "_payload"@, payload),
        forall|value: Seq<u8>| has_value(v, "_payload"@, value) ==> value == payload,
{
    let intron = v.introns[0];
    let codons = codons_of(payload);
    let n = codons.len();
    assert(intron.codon_offset == 0 && intron.codon_length as nat == n && v.introns.len() == 1);
    assert((n * 3) / 4 == payload.len()) by {
        law_length_from_codon_count(payload);
    }
    assert(decode_spec(codons, payload.len()) == Ok::<Seq<u8>, EncodingError>(payload)) by {
        law_decode_inverts_encode(payload);
    }
    lemma_field_of_whole(codons, intron, payload);
    assert(carries(v, "_payload"@, 0, payload));
}

proof fn lemma_field_of_whole(codons: Seq<Codon>, intron: IntronView, payload: Seq<u8>)
    requires
        intron.codon_offset == 0,
        intron.codon_length as nat == codons.len(),
        (codons.len() * 3) / 4 == payload.len(),
        decode_spec(codons, payload.len()) == Ok::<Seq<u8>, EncodingError>(payload),
    ensures
        field_bytes(codons, intron) == Some(payload),
{
    assert(codons.subrange(0, codons.len() as int) =~= codons);
}

} // verus!
