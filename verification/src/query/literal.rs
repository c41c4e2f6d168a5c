//! Query literals as bytes, and the numbers that bytes stand for.
use super::ast::{LiteralView, QueryLiteral};
use crate::support::bytes::{
    from_le, le_bytes, lemma_le_bytes_len, lemma_le_round_trip, lemma_pow256_values,
};
use crate::support::num_text::{parse_decimal, parse_u64_opt};
use crate::wire_format::{
    holds_tagged_text, i64_bits, read_tagged_bool, read_tagged_i64, read_tagged_text,
    read_tagged_u64, read_u32, tagged_text, text_bytes, write_tagged_bool, write_tagged_i64,
    write_tagged_text, write_tagged_u64,
};
use vstd::prelude::*;
use vstd::utf8::{decode_utf8, encode_utf8};

verus! {

/// The serialized form of a literal: its kind in four bytes, then its value.
pub open spec fn literal_bytes(v: LiteralView) -> Seq<u8> {
    match v {
        LiteralView::String(s) => tagged_text(0, s),
        LiteralView::I64(n) => le_bytes(1, 4) + le_bytes(i64_bits(n), 8),
        LiteralView::U64(n) => le_bytes(2, 4) + le_bytes(n as nat, 8),
        LiteralView::F64(n) => le_bytes(3, 4) + le_bytes(n as nat, 8),
        LiteralView::Bool(b) => le_bytes(4, 4) + seq![if b { 1u8 } else { 0u8 }],
    }
}

/// The signed number with a given 64-bit pattern.
pub open spec fn i64_of_bits(n: nat) -> i64 {
    if n < 0x8000_0000_0000_0000 {
        n as i64
    } else {
        (n - 0x1_0000_0000_0000_0000) as i64
    }
}

/// The literal at the front of a byte string, if one is there.
pub open spec fn literal_of(b: Seq<u8>) -> Option<LiteralView> {
    let kind = from_le(b.take(4));
    if b.len() < 4 {
        None
    } else if kind == 0 {
        if holds_tagged_text(b) {
            Some(LiteralView::String(decode_utf8(text_bytes(b))))
        } else {
            None
        }
    } else if kind == 1 && b.len() >= 12 {
        Some(LiteralView::I64(i64_of_bits(from_le(b.subrange(4, 12)))))
    } else if kind == 2 && b.len() >= 12 {
        Some(LiteralView::U64(from_le(b.subrange(4, 12)) as u64))
    } else if kind == 3 && b.len() >= 12 {
        Some(LiteralView::F64(from_le(b.subrange(4, 12)) as u64))
    } else if kind == 4 && b.len() >= 5 && b[4] <= 1 {
        Some(LiteralView::Bool(b[4] == 1))
    } else {
        None
    }
}

/// Serializes a literal.
pub fn literal_wire(value: &QueryLiteral) -> (r: Result<Vec<u8>, bincode::Error>)
    ensures
        r is Ok,
        r->Ok_0@ == literal_bytes(value@),
{
    match value {
        QueryLiteral::String(s) => write_tagged_text(0, s.as_str()),
        QueryLiteral::I64(v) => write_tagged_i64(1, *v),
        QueryLiteral::U64(v) => write_tagged_u64(2, *v),
        QueryLiteral::F64(v) => write_tagged_u64(3, *v),
        QueryLiteral::Bool(v) => write_tagged_bool(4, *v),
    }
}

/// Reads a literal off the front of a byte string.
pub fn read_literal(b: &[u8]) -> (r: Option<QueryLiteral>)
    ensures
        match r {
            Some(l) => literal_of(b@) == Some(l@),
            None => literal_of(b@) is None,
        },
{
    let kind: u32 = match read_u32(b) {
        Some(k) => k,
        None => {
            return None;
        },
    };
    if kind == 0 {
        match read_tagged_text(b) {
            Some((_, s)) => Some(QueryLiteral::String(s)),
            None => None,
        }
    } else if kind == 1 {
        match read_tagged_i64(b) {
            Some((_, v)) => {
                proof {
                    assert(i64_of_bits(i64_bits(v)) == v);
                }
                Some(QueryLiteral::I64(v))
            },
            None => None,
        }
    } else if kind == 2 {
        match read_tagged_u64(b) {
            Some((_, v)) => Some(QueryLiteral::U64(v)),
            None => None,
        }
    } else if kind == 3 {
        match read_tagged_u64(b) {
            Some((_, v)) => Some(QueryLiteral::F64(v)),
            None => None,
        }
    } else if kind == 4 {
        match read_tagged_bool(b) {
            Some((_, v)) => Some(QueryLiteral::Bool(v)),
            None => None,
        }
    } else {
        None
    }
}

/// The number that a literal stands for: unsigned numbers and signed ones that are not
/// negative.
pub open spec fn literal_number(v: LiteralView) -> Option<u64> {
    match v {
        LiteralView::U64(n) => Some(n),
        LiteralView::I64(n) => if n >= 0 {
            Some(n as u64)
        } else {
            None
        },
        _ => None,
    }
}

/// The number that a literal stands for.
pub fn query_literal_to_u64(lit: &QueryLiteral) -> (r: Option<u64>)
    ensures
        r == literal_number(lit@),
{
    match lit {
        QueryLiteral::U64(v) => Some(*v),
        QueryLiteral::I64(v) => if *v >= 0 {
            Some(*v as u64)
        } else {
            None
        },
        _ => None,
    }
}

/// The number that a byte string stands for: that of the literal at its front, else that of
/// the decimal text it is.
pub open spec fn numeric_value(b: Seq<u8>) -> Option<u64> {
    match literal_of(b) {
        Some(l) => literal_number(l),
        None => parse_decimal(b),
    }
}

/// The number that a byte string stands for.
pub fn as_numeric_u64(value: &[u8]) -> (r: Option<u64>)
    ensures
        r == numeric_value(value@),
{
    match read_literal(value) {
        Some(lit) => query_literal_to_u64(&lit),
        None => parse_u64_opt(value),
    }
}

proof fn lemma_tag_front(tag: u32, rest: Seq<u8>, b: Seq<u8>)
    requires
        b == le_bytes(tag as nat, 4) + rest,
    ensures
        b.len() == 4 + rest.len(),
        from_le(b.take(4)) == tag,
        b.skip(4) == rest,
{
    lemma_le_bytes_len(tag as nat, 4);
    lemma_pow256_values();
    lemma_le_round_trip(tag as nat, 4);
    assert(b.take(4) =~= le_bytes(tag as nat, 4));
    assert(b.skip(4) =~= rest);
}

proof fn lemma_tagged_number(tag: u32, n: nat, b: Seq<u8>)
    requires
        n <= u64::MAX,
        b == le_bytes(tag as nat, 4) + le_bytes(n, 8),
    ensures
        b.len() == 12,
        from_le(b.take(4)) == tag,
        from_le(b.subrange(4, 12)) == n,
{
    lemma_tag_front(tag, le_bytes(n, 8), b);
    lemma_le_bytes_len(n, 8);
    lemma_pow256_values();
    lemma_le_round_trip(n, 8);
    assert(b.subrange(4, 12) =~= le_bytes(n, 8));
}

/// Reading a serialized literal gives the literal back. A text counts as serializable when
/// its UTF-8 length fits in 64 bits.
pub proof fn law_literal_round_trip(v: LiteralView)
    requires
        v matches LiteralView::String(s) ==> encode_utf8(s).len() <= u64::MAX,
    ensures
        literal_of(literal_bytes(v)) == Some(v),
{
    let b = literal_bytes(v);
    match v {
        LiteralView::String(s) => {
            let u = encode_utf8(s);
            let rest = le_bytes(u.len(), 8) + u;
            assert(b =~= le_bytes(0, 4) + rest);
            lemma_tag_front(0, rest, b);
            lemma_le_bytes_len(u.len(), 8);
            lemma_pow256_values();
            lemma_le_round_trip(u.len(), 8);
            assert(b.subrange(4, 12) =~= le_bytes(u.len(), 8));
            assert(text_bytes(b) =~= u);
            vstd::utf8::encode_utf8_valid_utf8(s);
            vstd::utf8::encode_utf8_decode_utf8(s);
        },
        LiteralView::I64(n) => {
            lemma_tagged_number(1, i64_bits(n), b);
        },
        LiteralView::U64(n) => {
            lemma_tagged_number(2, n as nat, b);
        },
        LiteralView::F64(n) => {
            lemma_tagged_number(3, n as nat, b);
        },
        LiteralView::Bool(t) => {
            lemma_tag_front(4, seq![if t { 1u8 } else { 0u8 }], b);
            assert(b[4] == b.skip(4)[0]);
        },
    }
}

/// A number written as a literal is read back as that number.
pub proof fn law_numeric_literals(n: u64)
    ensures
        numeric_value(literal_bytes(LiteralView::U64(n))) == Some(n),
        n <= i64::MAX ==> numeric_value(literal_bytes(LiteralView::I64(n as i64))) == Some(n),
{
    law_literal_round_trip(LiteralView::U64(n));
    if n <= i64::MAX {
        law_literal_round_trip(LiteralView::I64(n as i64));
    }
}

} // verus!
