//! The `bincode` crate at work: plain values to bytes and back.
//!
//! The functions here are the only ones that call `bincode`. Each names the shape of the
//! value it hands over; what the crate makes of it is stated in the contract.
use crate::support::bytes::{from_le, le_bytes};
use crate::support::text::texts;
use vstd::prelude::*;
use vstd::utf8::{decode_utf8, encode_utf8, valid_utf8};

verus! {

/// What went wrong inside `bincode`; `bincode::Error` is a box of it.
#[verifier::external_type_specification]
#[verifier::external_body]
pub struct ExBincodeErrorKind(bincode::ErrorKind);

/// The byte layout of a text behind a four-byte tag: tag, eight-byte length, UTF-8.
pub open spec fn tagged_text(tag: u32, s: Seq<char>) -> Seq<u8> {
    le_bytes(tag as nat, 4) + le_bytes(encode_utf8(s).len(), 8) + encode_utf8(s)
}

/// The byte layout of a text: eight-byte length, UTF-8.
pub open spec fn written_text(s: Seq<char>) -> Seq<u8> {
    le_bytes(encode_utf8(s).len(), 8) + encode_utf8(s)
}

/// The byte layout of a list whose items are laid out as given: eight-byte count, the items.
pub open spec fn list_bytes(items: Seq<Seq<u8>>) -> Seq<u8> {
    le_bytes(items.len(), 8) + items.flatten()
}

/// The byte layout of a list of texts.
pub open spec fn text_list_bytes(s: Seq<Seq<char>>) -> Seq<u8> {
    list_bytes(Seq::new(s.len(), |i: int| written_text(s[i])))
}

/// The byte layout of a value with its signatures: the value behind its eight-byte length,
/// then the list of signatures.
pub open spec fn posting_bytes(value: Seq<u8>, signatures: Seq<[u8; 8]>) -> Seq<u8> {
    le_bytes(value.len(), 8) + value + list_bytes(Seq::new(signatures.len(), |i: int| signatures[i]@))
}

/// The 64-bit pattern of a signed number (two's complement).
pub open spec fn i64_bits(v: i64) -> nat {
    if v >= 0 {
        v as nat
    } else {
        (v + 0x1_0000_0000_0000_0000) as nat
    }
}

/// `bincode::serialize` on a pair of a 32-bit and a 64-bit number: both in little-endian
/// bytes, four and then eight, and the call succeeds.
#[verifier::external_body]
pub(crate) fn write_tagged_u64(tag: u32, v: u64) -> (r: Result<Vec<u8>, bincode::Error>)
    ensures
        r is Ok,
        r->Ok_0@ == le_bytes(tag as nat, 4) + le_bytes(v as nat, 8),
{
    bincode::serialize(&(tag, v))
}

/// `bincode::serialize` on a pair of a 32-bit number and a signed 64-bit number: the
/// two's complement pattern in eight little-endian bytes behind the tag, and the call
/// succeeds.
#[verifier::external_body]
pub(crate) fn write_tagged_i64(tag: u32, v: i64) -> (r: Result<Vec<u8>, bincode::Error>)
    ensures
        r is Ok,
        r->Ok_0@ == le_bytes(tag as nat, 4) + le_bytes(i64_bits(v), 8),
{
    bincode::serialize(&(tag, v))
}

/// `bincode::serialize` on a pair of a 32-bit number and a truth value: one byte, 1 or 0,
/// behind the tag, and the call succeeds.
#[verifier::external_body]
pub(crate) fn write_tagged_bool(tag: u32, v: bool) -> (r: Result<Vec<u8>, bincode::Error>)
    ensures
        r is Ok,
        r->Ok_0@ == le_bytes(tag as nat, 4) + seq![if v { 1u8 } else { 0u8 }],
{
    bincode::serialize(&(tag, v))
}

/// `bincode::serialize` on a pair of a 32-bit number and a text: the length in bytes as
/// eight little-endian bytes and the UTF-8 behind the tag, and the call succeeds.
#[verifier::external_body]
pub(crate) fn write_tagged_text(tag: u32, v: &str) -> (r: Result<Vec<u8>, bincode::Error>)
    ensures
        r is Ok,
        r->Ok_0@ == tagged_text(tag, v@),
{
    bincode::serialize(&(tag, v))
}

/// `bincode::deserialize` into a 32-bit number: the first four bytes, little-endian; it
/// fails exactly when there are fewer. Bytes past them are ignored.
#[verifier::external_body]
pub(crate) fn read_u32(b: &[u8]) -> (r: Option<u32>)
    ensures
        match r {
            Some(v) => b@.len() >= 4 && v as nat == from_le(b@.take(4)),
            None => b@.len() < 4,
        },
{
    bincode::deserialize::<u32>(b).ok()
}

/// `bincode::deserialize` into a pair of a 32-bit and a 64-bit number: the first twelve
/// bytes, little-endian; it fails exactly when there are fewer.
#[verifier::external_body]
pub(crate) fn read_tagged_u64(b: &[u8]) -> (r: Option<(u32, u64)>)
    ensures
        match r {
            Some((tag, v)) => b@.len() >= 12 && tag as nat == from_le(b@.take(4)) && v as nat == from_le(
                b@.subrange(4, 12),
            ),
            None => b@.len() < 12,
        },
{
    bincode::deserialize::<(u32, u64)>(b).ok()
}

/// `bincode::deserialize` into a pair of a 32-bit number and a signed 64-bit number: as for
/// the unsigned pair, with the eight bytes read as two's complement.
#[verifier::external_body]
pub(crate) fn read_tagged_i64(b: &[u8]) -> (r: Option<(u32, i64)>)
    ensures
        match r {
            Some((tag, v)) => b@.len() >= 12 && tag as nat == from_le(b@.take(4)) && i64_bits(v)
                == from_le(b@.subrange(4, 12)),
            None => b@.len() < 12,
        },
{
    bincode::deserialize::<(u32, i64)>(b).ok()
}

/// `bincode::deserialize` into a pair of a 32-bit number and a truth value: it fails
/// exactly when there are fewer than five bytes or the fifth is neither 0 nor 1.
#[verifier::external_body]
pub(crate) fn read_tagged_bool(b: &[u8]) -> (r: Option<(u32, bool)>)
    ensures
        match r {
            Some((tag, v)) => b@.len() >= 5 && b@[4] <= 1 && tag as nat == from_le(b@.take(4)) && v == (
            b@[4] == 1),
            None => b@.len() < 5 || b@[4] > 1,
        },
{
    bincode::deserialize::<(u32, bool)>(b).ok()
}

/// The bytes that the length field behind a tag covers.
pub open spec fn text_bytes(b: Seq<u8>) -> Seq<u8> {
    b.subrange(12, (12 + from_le(b.subrange(4, 12))) as int)
}

/// Whether a tag, a length and that many bytes of UTF-8 stand at the front of `b`.
pub open spec fn holds_tagged_text(b: Seq<u8>) -> bool {
    &&& b.len() >= 12
    &&& from_le(b.subrange(4, 12)) <= b.len() - 12
    &&& valid_utf8(text_bytes(b))
}

/// `bincode::deserialize` into a pair of a 32-bit number and a text: it fails exactly when
/// the length field is cut off or runs past the end, or the bytes it covers are no UTF-8.
#[verifier::external_body]
pub(crate) fn read_tagged_text(b: &[u8]) -> (r: Option<(u32, String)>)
    ensures
        match r {
            Some((tag, v)) => holds_tagged_text(b@) && tag as nat == from_le(b@.take(4)) && v@
                == decode_utf8(text_bytes(b@)),
            None => !holds_tagged_text(b@),
        },
{
    bincode::deserialize::<(u32, String)>(b).ok()
}

/// The bytes of a list of symbol triples, one after the other.
pub open spec fn flat_triples(s: Seq<(u8, u8, u8)>) -> Seq<u8> {
    Seq::new(
        3 * s.len(),
        |i: int|
            if i % 3 == 0 {
                s[i / 3].0
            } else if i % 3 == 1 {
                s[i / 3].1
            } else {
                s[i / 3].2
            },
    )
}

/// `bincode::serialize` on a list of byte triples: the length in eight little-endian bytes,
/// then the triples, and the call succeeds.
#[verifier::external_body]
pub(crate) fn write_triples(v: &Vec<(u8, u8, u8)>) -> (r: Result<Vec<u8>, bincode::Error>)
    ensures
        r is Ok,
        r->Ok_0@ == le_bytes(v@.len(), 8) + flat_triples(v@),
{
    bincode::serialize(v)
}

/// Whether `b` starts with a length and that many byte triples.
pub open spec fn holds_triples(b: Seq<u8>) -> bool {
    b.len() >= 8 && 3 * from_le(b.take(8)) <= b.len() - 8
}

/// `bincode::deserialize` into a list of byte triples, asked only whether it succeeds: it
/// does exactly when the length field is there and the bytes reach far enough.
#[verifier::external_body]
pub(crate) fn triples_readable(b: &[u8]) -> (r: bool)
    ensures
        r == holds_triples(b@),
{
    bincode::deserialize::<Vec<(u8, u8, u8)>>(b).is_ok()
}

/// A strand as plain values, in the order in which they are written: signature, collection,
/// codons, complement, introns, telomere (with the refresh policy as its position among the
/// policies), tags, version, creation time, update time.
pub type PlainStrand = (
    [u8; 8],
    u32,
    Vec<(u8, u8, u8)>,
    Vec<(u8, u8, u8)>,
    Vec<(String, u32, u16, u64, Option<[u8; 8]>)>,
    (u16, bool, u64, u32),
    Vec<(String, String)>,
    u64,
    u64,
    u64,
);

/// What a [`PlainStrand`] holds.
pub type PlainParts = (
    [u8; 8],
    u32,
    Seq<(u8, u8, u8)>,
    Seq<(u8, u8, u8)>,
    Seq<(Seq<char>, u32, u16, u64, Option<[u8; 8]>)>,
    (u16, bool, u64, u32),
    Seq<(Seq<char>, Seq<char>)>,
    u64,
    u64,
    u64,
);

/// What a list of plain introns holds.
pub open spec fn plain_introns(s: Seq<(String, u32, u16, u64, Option<[u8; 8]>)>) -> Seq<
    (Seq<char>, u32, u16, u64, Option<[u8; 8]>),
> {
    Seq::new(s.len(), |i: int| (s[i].0@, s[i].1, s[i].2, s[i].3, s[i].4))
}

/// What a list of plain tags holds.
pub open spec fn plain_tags(s: Seq<(String, String)>) -> Seq<(Seq<char>, Seq<char>)> {
    Seq::new(s.len(), |i: int| (s[i].0@, s[i].1@))
}

/// What a plain strand holds.
pub open spec fn plain_parts(p: PlainStrand) -> PlainParts {
    (p.0, p.1, p.2@, p.3@, plain_introns(p.4@), p.5, plain_tags(p.6@), p.7, p.8, p.9)
}

/// The bytes that `bincode` writes for a strand.
pub uninterp spec fn bincode_strand(parts: PlainParts) -> Seq<u8>;

/// `bincode::serialize` on a plain strand. The bytes are a function of the values alone, and
/// the call succeeds: nothing in the strand is of unknown length and no limit is set.
#[verifier::external_body]
pub(crate) fn write_strand(p: &PlainStrand) -> (r: Result<Vec<u8>, bincode::Error>)
    ensures
        r is Ok,
        r->Ok_0@ == bincode_strand(plain_parts(*p)),
{
    bincode::serialize(p)
}

/// `bincode::serialized_size` on a plain strand: how many bytes `bincode::serialize` writes
/// for it. The call succeeds.
#[verifier::external_body]
pub(crate) fn strand_size(p: &PlainStrand) -> (r: Result<u64, bincode::Error>)
    ensures
        r is Ok,
        r->Ok_0 as nat == bincode_strand(plain_parts(*p)).len(),
{
    bincode::serialized_size(p)
}

/// Whether `r` is the strand whose bytes stand at the front of `b`, and an error exactly
/// where there is none.
pub open spec fn reads_back(r: Result<PlainStrand, bincode::Error>, b: Seq<u8>) -> bool {
    &&& r matches Ok(p) ==> bincode_strand(plain_parts(p)).is_prefix_of(b)
    &&& forall|q: PlainParts|
        (#[trigger] bincode_strand(q)).is_prefix_of(b) ==> (r matches Ok(p) && plain_parts(p) == q)
}

/// `bincode::deserialize` into a plain strand. It reads what `bincode::serialize` wrote: a
/// strand whose bytes stand at the front of `b` comes back, bytes past them are ignored, and
/// a strand comes back only where its bytes stand at the front.
#[verifier::external_body]
pub(crate) fn read_strand(b: &[u8]) -> (r: Result<PlainStrand, bincode::Error>)
    ensures
        reads_back(r, b@),
{
    bincode::deserialize::<PlainStrand>(b)
}

/// An exact-match index as plain values: the field, then each value with its signatures.
pub type PlainHashIndex = (String, Vec<(Vec<u8>, Vec<[u8; 8]>)>);

/// What a list of values with their signatures holds.
pub open spec fn plain_postings(s: Seq<(Vec<u8>, Vec<[u8; 8]>)>) -> Seq<(Seq<u8>, Seq<[u8; 8]>)> {
    Seq::new(s.len(), |i: int| (s[i].0@, s[i].1@))
}

/// The byte layout of an exact-match index: the field, the list of values with their
/// signatures.
pub open spec fn bincode_hash_index(field: Seq<char>, postings: Seq<(Seq<u8>, Seq<[u8; 8]>)>) -> Seq<u8> {
    written_text(field) + list_bytes(Seq::new(postings.len(), |i: int| posting_bytes(postings[i].0, postings[i].1)))
}

/// `bincode::serialize` on an exact-match index: the field and the list, one behind the other
/// in the layout that [`bincode_hash_index`] gives, and the call succeeds.
#[verifier::external_body]
pub(crate) fn write_hash_index(p: &PlainHashIndex) -> (r: Result<Vec<u8>, bincode::Error>)
    ensures
        r is Ok,
        r->Ok_0@ == bincode_hash_index(p.0@, plain_postings(p.1@)),
{
    bincode::serialize(p)
}

/// Whether `r` is the index whose bytes stand at the front of `b`, and an error exactly where
/// there is none.
pub open spec fn reads_hash_index(r: Result<PlainHashIndex, bincode::Error>, b: Seq<u8>) -> bool {
    &&& r matches Ok(p) ==> bincode_hash_index(p.0@, plain_postings(p.1@)).is_prefix_of(b)
    &&& forall|f: Seq<char>, q: Seq<(Seq<u8>, Seq<[u8; 8]>)>|
        (#[trigger] bincode_hash_index(f, q)).is_prefix_of(b) ==> (r matches Ok(p) && p.0@ == f
            && plain_postings(p.1@) == q)
}

/// `bincode::deserialize` into an exact-match index: what was written is what is read, and
/// bytes past it are ignored.
#[verifier::external_body]
pub(crate) fn read_hash_index(b: &[u8]) -> (r: Result<PlainHashIndex, bincode::Error>)
    ensures
        reads_hash_index(r, b@),
{
    bincode::deserialize::<PlainHashIndex>(b)
}

/// A range index as plain values: the field, then each number with a signature.
pub type PlainRangeIndex = (String, Vec<(u64, [u8; 8])>);

/// The byte layout of a range index: the field, the list of numbers (eight bytes each), each
/// with its signature.
pub open spec fn bincode_range_index(field: Seq<char>, entries: Seq<(u64, [u8; 8])>) -> Seq<u8> {
    written_text(field) + list_bytes(
        Seq::new(entries.len(), |i: int| le_bytes(entries[i].0 as nat, 8) + entries[i].1@),
    )
}

/// `bincode::serialize` on a range index: the field and the list, one behind the other in the
/// layout that [`bincode_range_index`] gives, and the call succeeds.
#[verifier::external_body]
pub(crate) fn write_range_index(p: &PlainRangeIndex) -> (r: Result<Vec<u8>, bincode::Error>)
    ensures
        r is Ok,
        r->Ok_0@ == bincode_range_index(p.0@, p.1@),
{
    bincode::serialize(p)
}

/// Whether `r` is the index whose bytes stand at the front of `b`, and an error exactly where
/// there is none.
pub open spec fn reads_range_index(r: Result<PlainRangeIndex, bincode::Error>, b: Seq<u8>) -> bool {
    &&& r matches Ok(p) ==> bincode_range_index(p.0@, p.1@).is_prefix_of(b)
    &&& forall|f: Seq<char>, q: Seq<(u64, [u8; 8])>|
        (#[trigger] bincode_range_index(f, q)).is_prefix_of(b) ==> (r matches Ok(p) && p.0@ == f
            && p.1@ == q)
}

/// `bincode::deserialize` into a range index: what was written is what is read, and bytes
/// past it are ignored.
#[verifier::external_body]
pub(crate) fn read_range_index(b: &[u8]) -> (r: Result<PlainRangeIndex, bincode::Error>)
    ensures
        reads_range_index(r, b@),
{
    bincode::deserialize::<PlainRangeIndex>(b)
}

/// The byte layout of two lists of texts.
pub open spec fn bincode_text_lists(a: Seq<Seq<char>>, b: Seq<Seq<char>>) -> Seq<u8> {
    text_list_bytes(a) + text_list_bytes(b)
}

/// `bincode::serialize` on two lists of texts: one behind the other, each a count and the
/// texts behind their lengths, and the call succeeds.
#[verifier::external_body]
pub(crate) fn write_text_lists(p: &(Vec<String>, Vec<String>)) -> (r: Result<Vec<u8>, bincode::Error>)
    ensures
        r is Ok,
        r->Ok_0@ == bincode_text_lists(texts(p.0@), texts(p.1@)),
{
    bincode::serialize(p)
}

/// Whether `r` is the pair of lists whose bytes stand at the front of `b`, and an error
/// exactly where there is none.
pub open spec fn reads_text_lists(r: Result<(Vec<String>, Vec<String>), bincode::Error>, b: Seq<u8>) -> bool {
    &&& r matches Ok(p) ==> bincode_text_lists(texts(p.0@), texts(p.1@)).is_prefix_of(b)
    &&& forall|x: Seq<Seq<char>>, y: Seq<Seq<char>>|
        (#[trigger] bincode_text_lists(x, y)).is_prefix_of(b) ==> (r matches Ok(p) && texts(p.0@) == x
            && texts(p.1@) == y)
}

/// `bincode::deserialize` into two lists of texts: what was written is what is read, and
/// bytes past it are ignored.
#[verifier::external_body]
pub(crate) fn read_text_lists(b: &[u8]) -> (r: Result<(Vec<String>, Vec<String>), bincode::Error>)
    ensures
        reads_text_lists(r, b@),
{
    bincode::deserialize::<(Vec<String>, Vec<String>)>(b)
}

} // verus!
