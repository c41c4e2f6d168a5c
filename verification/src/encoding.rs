//! Base-4 codon encoding: four symbols to a byte, three symbols to a codon.
use crate::model::{codons_valid, copy_codons, Codon};
use vstd::prelude::*;

verus! {

/// Codons together with the length of the byte string they encode.
#[derive(Debug, PartialEq, Eq)]
pub struct EncodedPayload {
    pub codons: Vec<Codon>,
    pub original_len: usize,
}

impl EncodedPayload {
    /// Whether the payload is the encoding of `bytes`.
    pub open spec fn encodes(&self, bytes: Seq<u8>) -> bool {
        self.codons@ == codons_of(bytes) && self.original_len == bytes.len()
    }
}

impl Clone for EncodedPayload {
    fn clone(&self) -> (r: Self)
        ensures
            r.codons@ == self.codons@,
            r.original_len == self.original_len,
    {
        let codons = copy_codons(self.codons.as_slice(), 0, self.codons.len());
        proof {
            assert(codons@ =~= self.codons@);
        }
        EncodedPayload { codons, original_len: self.original_len }
    }
}

/// Why codons could not be decoded.
#[derive(Debug, Clone, Copy, PartialEq, Eq, Structural)]
pub enum EncodingError {
    /// A symbol is no base-4 digit.
    InvalidSymbol(u8),
    /// There are fewer symbols than the stated length needs.
    InsufficientSymbols,
}

/// Input length from which the encoder works in blocks of sixteen bytes.
pub const SIMD_ENCODE_THRESHOLD: usize = 64;

/// The `k`-th base-4 digit of a byte, most significant first.
pub open spec fn digit(b: u8, k: int) -> u8 {
    if k == 0 {
        b / 64
    } else if k == 1 {
        (b / 16) % 4
    } else if k == 2 {
        (b / 4) % 4
    } else {
        b % 4
    }
}

/// The symbols of a byte string: four to a byte.
pub open spec fn symbols_of(bytes: Seq<u8>) -> Seq<u8> {
    Seq::new(4 * bytes.len(), |i: int| digit(bytes[i / 4], i % 4))
}

/// The symbol at `i`, and zero past the end.
pub open spec fn symbol_or_zero(symbols: Seq<u8>, i: int) -> u8 {
    if i < symbols.len() {
        symbols[i]
    } else {
        0
    }
}

/// Symbols packed three to a codon, the last codon filled up with zeros.
pub open spec fn pack(symbols: Seq<u8>) -> Seq<Codon> {
    Seq::new(
        ((symbols.len() + 2) / 3) as nat,
        |k: int|
            Codon(
                symbol_or_zero(symbols, 3 * k),
                symbol_or_zero(symbols, 3 * k + 1),
                symbol_or_zero(symbols, 3 * k + 2),
            ),
    )
}

/// The codons that encode a byte string.
pub open spec fn codons_of(bytes: Seq<u8>) -> Seq<Codon> {
    pack(symbols_of(bytes))
}

/// Every digit of a byte is below four, and the digits make up the byte.
pub proof fn lemma_digits(b: u8)
    ensures
        digit(b, 0) < 4,
        digit(b, 1) < 4,
        digit(b, 2) < 4,
        digit(b, 3) < 4,
        b == 64 * digit(b, 0) + 16 * digit(b, 1) + 4 * digit(b, 2) + digit(b, 3),
{
}

/// Encoded symbols are base-4 digits.
pub proof fn lemma_symbols_below_four(bytes: Seq<u8>)
    ensures
        forall|i: int| 0 <= i < symbols_of(bytes).len() ==> #[trigger] symbols_of(bytes)[i] < 4,
{
    assert forall|i: int| 0 <= i < symbols_of(bytes).len() implies #[trigger] symbols_of(bytes)[i]
        < 4 by {
        lemma_digits(bytes[i / 4]);
    }
}

/// Encoded codons hold base-4 digits only.
pub proof fn lemma_codons_valid(bytes: Seq<u8>)
    ensures
        codons_valid(codons_of(bytes)),
{
    lemma_symbols_below_four(bytes);
    let symbols = symbols_of(bytes);
    assert forall|k: int| 0 <= k < codons_of(bytes).len() implies (#[trigger] codons_of(
        bytes,
    )[k]).valid() by {
        assert(symbol_or_zero(symbols, 3 * k) < 4);
        assert(symbol_or_zero(symbols, 3 * k + 1) < 4);
        assert(symbol_or_zero(symbols, 3 * k + 2) < 4);
    }
}

pub(crate) fn expand_bytes_to_symbols_scalar(bytes: &[u8], symbols: &mut Vec<u8>)
    ensures
        final(symbols)@ == old(symbols)@ + symbols_of(bytes@),
{
    let mut i: usize = 0;
    proof {
        assert(symbols@ =~= old(symbols)@ + symbols_of(bytes@.take(0)));
    }
    while i < bytes.len()
        invariant
            0 <= i <= bytes@.len(),
            symbols@ == old(symbols)@ + symbols_of(bytes@.take(i as int)),
        decreases bytes@.len() - i,
    {
        let b: u8 = bytes[i];
        symbols.push(b / 64);
        symbols.push((b / 16) % 4);
        symbols.push((b / 4) % 4);
        symbols.push(b % 4);
        proof {
            let before = bytes@.take(i as int);
            let after = bytes@.take(i + 1);
            assert forall|j: int| 0 <= j < 4 * i implies symbols_of(after)[j] == symbols_of(before)[j] by {
                assert(j / 4 < i);
            }
            assert forall|j: int| 4 * i <= j < 4 * i + 4 implies symbols_of(after)[j] == digit(
                b,
                j - 4 * i,
            ) by {
                assert(j / 4 == i);
                assert(j % 4 == j - 4 * i);
            }
            assert(symbols@ =~= old(symbols)@ + symbols_of(after));
        }
        i += 1;
    }
    proof {
        assert(bytes@.take(bytes@.len() as int) =~= bytes@);
    }
}

/// Expands in blocks of sixteen bytes, then the rest byte by byte.
fn expand_bytes_to_symbols_blocks(bytes: &[u8], symbols: &mut Vec<u8>)
    ensures
        final(symbols)@ == old(symbols)@ + symbols_of(bytes@),
{
    let mut i: usize = 0;
    proof {
        assert(symbols@ =~= old(symbols)@ + symbols_of(bytes@.take(0)));
    }
    let n: usize = bytes.len();
    while n - i >= 16
        invariant
            0 <= i <= n,
            n == bytes@.len(),
            symbols@ == old(symbols)@ + symbols_of(bytes@.take(i as int)),
        decreases n - i,
    {
        let block = vstd::slice::slice_subrange(bytes, i, i + 16);
        expand_bytes_to_symbols_scalar(block, symbols);
        proof {
            lemma_symbols_concat(bytes@.take(i as int), block@);
            assert(bytes@.take(i as int) + block@ =~= bytes@.take(i + 16));
            assert(symbols@ =~= old(symbols)@ + symbols_of(bytes@.take(i + 16)));
        }
        i += 16;
    }
    let rest = vstd::slice::slice_subrange(bytes, i, n);
    expand_bytes_to_symbols_scalar(rest, symbols);
    proof {
        lemma_symbols_concat(bytes@.take(i as int), rest@);
        assert(bytes@.take(i as int) + rest@ =~= bytes@);
        assert(symbols@ =~= old(symbols)@ + symbols_of(bytes@));
    }
}

proof fn lemma_symbols_concat(a: Seq<u8>, b: Seq<u8>)
    ensures
        symbols_of(a + b) == symbols_of(a) + symbols_of(b),
{
    assert forall|j: int| 0 <= j < 4 * (a.len() + b.len()) implies symbols_of(a + b)[j] == (symbols_of(a)
        + symbols_of(b))[j] by {
        if j < 4 * a.len() {
            assert(j / 4 < a.len());
        } else {
            assert((j - 4 * a.len()) / 4 == j / 4 - a.len());
            assert((j - 4 * a.len()) % 4 == j % 4);
        }
    }
    assert(symbols_of(a + b) =~= symbols_of(a) + symbols_of(b));
}

fn symbols_to_codons(symbols: &[u8]) -> (r: Vec<Codon>)
    requires
        forall|i: int| 0 <= i < symbols@.len() ==> #[trigger] symbols@[i] < 4,
    ensures
        r@ == pack(symbols@),
{
    let mut codons: Vec<Codon> = Vec::new();
    let n: usize = symbols.len();
    let mut i: usize = 0;
    while i < n
        invariant
            n == symbols@.len(),
            0 <= i <= n,
            i < n ==> i % 3 == 0,
            i == n || i == 3 * codons@.len(),
            i == n ==> codons@.len() == (n + 2) / 3,
            forall|k: int| 0 <= k < codons@.len() ==> #[trigger] codons@[k] == pack(symbols@)[k],
            codons@.len() <= (n + 2) / 3,
        decreases n - i,
    {
        let rest: usize = n - i;
        let a: u8 = symbols[i];
        let b: u8 = if rest > 1 {
            symbols[i + 1]
        } else {
            0
        };
        let c: u8 = if rest > 2 {
            symbols[i + 2]
        } else {
            0
        };
        codons.push(Codon(a, b, c));
        if rest > 3 {
            i += 3;
        } else {
            i = n;
        }
    }
    proof {
        assert(codons@ =~= pack(symbols@));
    }
    codons
}

/// Encodes byte by byte.
pub fn encode_bytes_to_codons_scalar(bytes: &[u8]) -> (r: EncodedPayload)
    ensures
        r.encodes(bytes@),
{
    let mut symbols: Vec<u8> = Vec::new();
    expand_bytes_to_symbols_scalar(bytes, &mut symbols);
    proof {
        assert(symbols@ =~= symbols_of(bytes@));
        lemma_symbols_below_four(bytes@);
    }
    EncodedPayload { codons: symbols_to_codons(symbols.as_slice()), original_len: bytes.len() }
}

/// Encodes in blocks of sixteen bytes.
pub fn encode_bytes_to_codons_avx2(bytes: &[u8]) -> (r: EncodedPayload)
    ensures
        r.encodes(bytes@),
{
    let mut symbols: Vec<u8> = Vec::new();
    expand_bytes_to_symbols_blocks(bytes, &mut symbols);
    proof {
        assert(symbols@ =~= symbols_of(bytes@));
        lemma_symbols_below_four(bytes@);
    }
    EncodedPayload { codons: symbols_to_codons(symbols.as_slice()), original_len: bytes.len() }
}

/// Default encoder: in blocks when the payload is large enough, byte by byte otherwise.
pub fn encode_bytes_to_codons(bytes: &[u8]) -> (r: EncodedPayload)
    ensures
        r.encodes(bytes@),
{
    if bytes.len() >= SIMD_ENCODE_THRESHOLD {
        return encode_bytes_to_codons_avx2(bytes);
    }
    encode_bytes_to_codons_scalar(bytes)
}

/// The symbols of a codon sequence, three to a codon.
pub open spec fn unpack(codons: Seq<Codon>) -> Seq<u8> {
    Seq::new(3 * codons.len(), |i: int| codons[i / 3].symbol(i % 3))
}

/// Whether `i` is the position of the first symbol that is no base-4 digit.
pub open spec fn first_invalid(symbols: Seq<u8>, i: int) -> bool {
    &&& 0 <= i < symbols.len()
    &&& symbols[i] >= 4
    &&& forall|j: int| 0 <= j < i ==> #[trigger] symbols[j] < 4
}

/// The first `n` bytes that the symbols spell.
pub open spec fn spelled(symbols: Seq<u8>, n: nat) -> Seq<u8> {
    Seq::new(
        n,
        |j: int|
            (64 * symbols[4 * j] + 16 * symbols[4 * j + 1] + 4 * symbols[4 * j + 2] + symbols[4 * j
                + 3]) as u8,
    )
}

/// What decoding `n` bytes out of `codons` gives.
pub open spec fn decode_spec(codons: Seq<Codon>, n: nat) -> Result<Seq<u8>, EncodingError> {
    let symbols = unpack(codons);
    if exists|i: int| first_invalid(symbols, i) {
        let i = choose|i: int| first_invalid(symbols, i);
        Err(EncodingError::InvalidSymbol(symbols[i]))
    } else if symbols.len() < 4 * n {
        Err(EncodingError::InsufficientSymbols)
    } else {
        Ok(spelled(symbols, n))
    }
}

/// How an executed decoding relates to [`decode_spec`].
pub open spec fn decoded_as(r: Result<Vec<u8>, EncodingError>, s: Result<Seq<u8>, EncodingError>) -> bool {
    match (r, s) {
        (Ok(a), Ok(b)) => a@ == b,
        (Err(a), Err(b)) => a == b,
        _ => false,
    }
}

proof fn lemma_first_invalid_unique(symbols: Seq<u8>, i: int)
    requires
        first_invalid(symbols, i),
    ensures
        (choose|j: int| first_invalid(symbols, j)) == i,
{
    let j = choose|j: int| first_invalid(symbols, j);
    assert(first_invalid(symbols, j));
    if j < i {
        assert(symbols[j] < 4);
    }
    if i < j {
        assert(symbols[i] < 4);
    }
}

/// Decodes `payload.original_len` bytes out of the codons.
pub fn decode_codons_to_bytes(payload: &EncodedPayload) -> (r: Result<Vec<u8>, EncodingError>)
    requires
        4 * payload.original_len <= usize::MAX,
    ensures
        decoded_as(r, decode_spec(payload.codons@, payload.original_len as nat)),
{
    let required_symbols: usize = payload.original_len * 4;
    let mut symbols: Vec<u8> = Vec::new();
    let ghost flat = unpack(payload.codons@);
    let mut i: usize = 0;
    while i < payload.codons.len()
        invariant
            0 <= i <= payload.codons@.len(),
            flat == unpack(payload.codons@),
            symbols@ == flat.take(3 * i),
            forall|j: int| 0 <= j < 3 * i ==> #[trigger] flat[j] < 4,
        decreases payload.codons@.len() - i,
    {
        let c = payload.codons[i];
        proof {
            assert((3 * i) / 3 == i && (3 * i) % 3 == 0);
            assert((3 * i + 1) / 3 == i && (3 * i + 1) % 3 == 1);
            assert((3 * i + 2) / 3 == i && (3 * i + 2) % 3 == 2);
            assert(flat[3 * i] == c.0);
            assert(flat[3 * i + 1] == c.1);
            assert(flat[3 * i + 2] == c.2);
        }
        if c.0 >= 4 {
            proof {
                assert(first_invalid(flat, 3 * i));
                lemma_first_invalid_unique(flat, 3 * i);
            }
            return Err(EncodingError::InvalidSymbol(c.0));
        }
        symbols.push(c.0);
        if c.1 >= 4 {
            proof {
                assert(first_invalid(flat, 3 * i + 1));
                lemma_first_invalid_unique(flat, 3 * i + 1);
            }
            return Err(EncodingError::InvalidSymbol(c.1));
        }
        symbols.push(c.1);
        if c.2 >= 4 {
            proof {
                assert(first_invalid(flat, 3 * i + 2));
                lemma_first_invalid_unique(flat, 3 * i + 2);
            }
            return Err(EncodingError::InvalidSymbol(c.2));
        }
        symbols.push(c.2);
        proof {
            assert(symbols@ =~= flat.take(3 * (i + 1)));
        }
        i += 1;
    }
    proof {
        assert(flat.take((3 * payload.codons@.len()) as int) =~= flat);
        assert(symbols@ =~= flat);
    }
    if symbols.len() < required_symbols {
        return Err(EncodingError::InsufficientSymbols);
    }
    let mut bytes: Vec<u8> = Vec::new();
    let mut k: usize = 0;
    while k < payload.original_len
        invariant
            0 <= k <= payload.original_len,
            symbols@ == flat,
            4 * payload.original_len <= flat.len(),
            4 * payload.original_len <= usize::MAX,
            forall|j: int| 0 <= j < flat.len() ==> #[trigger] flat[j] < 4,
            bytes@ == spelled(flat, k as nat),
        decreases payload.original_len - k,
    {
        let b: u8 = 64 * symbols[4 * k] + 16 * symbols[4 * k + 1] + 4 * symbols[4 * k + 2] + symbols[4
            * k + 3];
        bytes.push(b);
        proof {
            assert(bytes@ =~= spelled(flat, (k + 1) as nat));
        }
        k += 1;
    }
    Ok(bytes)
}

/// Decoding what was encoded gives the bytes back.
pub proof fn law_decode_inverts_encode(bytes: Seq<u8>)
    ensures
        decode_spec(codons_of(bytes), bytes.len()) == Ok::<Seq<u8>, EncodingError>(bytes),
{
    lemma_decode_prefix(bytes, bytes.len());
    assert(bytes.take(bytes.len() as int) =~= bytes);
}

/// The first `n` bytes can be decoded out of the codons of a longer byte string.
pub proof fn lemma_decode_prefix(bytes: Seq<u8>, n: nat)
    requires
        n <= bytes.len(),
    ensures
        decode_spec(codons_of(bytes), n) == Ok::<Seq<u8>, EncodingError>(bytes.take(n as int)),
{
    let codons = codons_of(bytes);
    let packed = symbols_of(bytes);
    let symbols = unpack(codons);
    lemma_symbols_below_four(bytes);
    assert forall|i: int| 0 <= i < symbols.len() implies #[trigger] symbols[i] == symbol_or_zero(
        packed,
        i,
    ) by {
        assert(3 * (i / 3) + i % 3 == i);
    }
    assert forall|i: int| !first_invalid(symbols, i) by {
        if 0 <= i < symbols.len() {
            assert(symbols[i] == symbol_or_zero(packed, i));
        }
    }
    assert(symbols.len() >= 4 * bytes.len());
    assert forall|j: int| 0 <= j < n implies spelled(symbols, n)[j] == bytes[j] by {
        lemma_digits(bytes[j]);
        assert((4 * j) / 4 == j && (4 * j) % 4 == 0);
        assert((4 * j + 1) / 4 == j && (4 * j + 1) % 4 == 1);
        assert((4 * j + 2) / 4 == j && (4 * j + 2) % 4 == 2);
        assert((4 * j + 3) / 4 == j && (4 * j + 3) % 4 == 3);
        assert(symbols[4 * j] == digit(bytes[j], 0));
        assert(symbols[4 * j + 1] == digit(bytes[j], 1));
        assert(symbols[4 * j + 2] == digit(bytes[j], 2));
        assert(symbols[4 * j + 3] == digit(bytes[j], 3));
    }
    assert(spelled(symbols, n) =~= bytes.take(n as int));
}

/// How many codons a byte string takes: four thirds of its length, rounded up. The
/// length is recovered from the codon count as three quarters, rounded down.
pub proof fn law_length_from_codon_count(bytes: Seq<u8>)
    ensures
        codons_of(bytes).len() == (4 * bytes.len() + 2) / 3,
        (3 * codons_of(bytes).len()) / 4 == bytes.len(),
{
}

/// Different byte strings have different encodings.
pub proof fn law_encoding_is_injective(a: Seq<u8>, b: Seq<u8>)
    requires
        codons_of(a) == codons_of(b),
    ensures
        a == b,
{
    law_length_from_codon_count(a);
    law_length_from_codon_count(b);
    law_decode_inverts_encode(a);
    law_decode_inverts_encode(b);
}

} // verus!
