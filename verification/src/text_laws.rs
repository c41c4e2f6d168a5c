//! How numbers, digests, names and lists are written out and read.
use crate::auth::secret_hash;
use crate::bench::options::{comma_from, list_from, number_value, trimmed};
use crate::codec::policy_index;
use crate::digest::blake3_digest;
use crate::histone::block_of;
use crate::ids::hyphenated;
use crate::model::RefreshPolicy;
use crate::query::ast::LiteralView;
use crate::query::bloom::{place, seeded_hash};
use crate::query::index_lifecycle::{hash_file, index_dir_text, range_file};
use crate::query::literal::literal_bytes;
use crate::query::signatures::{parts, path_parts};
use crate::runtime::collection_number;
use crate::support::bytes::{le_bytes, lemma_le_canonical};
use crate::support::num_text::{decimal, decimal_value, hex};
use vstd::prelude::*;
use vstd::utf8::encode_utf8;

verus! {

/// The characters of a text as bytes.
pub open spec fn low_bytes(s: Seq<char>) -> Seq<u8> {
    Seq::new(s.len(), |i: int| s[i] as u8)
}

/// A number is written in decimal digits that stand for it, without a zero in front.
pub proof fn law_decimal_stands_for_its_number(n: nat)
    ensures
        decimal_value(low_bytes(decimal(n))) == Some(n),
        decimal(n).len() > 0,
        n > 0 ==> decimal(n)[0] != '0',
        n == 0 ==> decimal(n) =~= seq!['0'],
    decreases n,
{
    let d = decimal(n);
    let b = low_bytes(d);
    if n < 10 {
        assert(b.drop_last() =~= Seq::<u8>::empty());
        assert(decimal_value(Seq::<u8>::empty()) == Some(0nat));
    } else {
        law_decimal_stands_for_its_number(n / 10);
        assert(b.drop_last() =~= low_bytes(decimal(n / 10)));
        assert(d[0] == decimal(n / 10)[0]);
    }
}

/// What a hexadecimal digit stands for.
pub open spec fn digit_value(c: char) -> int {
    if '0' <= c <= '9' {
        c as int - '0' as int
    } else {
        c as int - 'a' as int + 10
    }
}

/// Bytes are written in two lower-case hexadecimal digits each, the higher first.
pub proof fn law_hex_spells_the_bytes(b: Seq<u8>, i: int)
    requires
        0 <= i < b.len(),
    ensures
        hex(b).len() == 2 * b.len(),
        16 * digit_value(hex(b)[2 * i]) + digit_value(hex(b)[2 * i + 1]) == b[i],
        0 <= digit_value(hex(b)[2 * i]) < 16,
        0 <= digit_value(hex(b)[2 * i + 1]) < 16,
{
    assert((2 * i) % 2 == 0 && (2 * i) / 2 == i);
    assert((2 * i + 1) % 2 == 1 && (2 * i + 1) / 2 == i);
}

/// An identifier is written in groups of 8, 4, 4, 4 and 12 digits with hyphens between.
pub proof fn law_hyphens_stand_between_the_groups(id: Seq<u8>, i: int)
    requires
        id.len() == 16,
        0 <= i < 36,
    ensures
        hyphenated(id).len() == 36,
        i == 8 || i == 13 || i == 18 || i == 23 ==> hyphenated(id)[i] == '-',
        i < 8 ==> hyphenated(id)[i] == hex(id)[i],
        8 < i < 13 ==> hyphenated(id)[i] == hex(id)[i - 1],
        13 < i < 18 ==> hyphenated(id)[i] == hex(id)[i - 2],
        18 < i < 23 ==> hyphenated(id)[i] == hex(id)[i - 3],
        23 < i ==> hyphenated(id)[i] == hex(id)[i - 4],
{
    reveal_strlit("-");
}

/// The numbers that are taken from a digest are its first bytes, the lowest first: four for a
/// collection, eight for a block and for a place in a filter.
pub proof fn law_numbers_are_the_front_of_a_digest(name: Seq<char>, value: Seq<u8>, seed: nat, len: nat)
    requires
        blake3_digest(encode_utf8(name)).len() == 32,
        blake3_digest(le_bytes(seed, 8) + value).len() == 32,
        len > 0,
    ensures
        le_bytes(collection_number(name) as nat, 4) == blake3_digest(encode_utf8(name)).subrange(0, 4),
        le_bytes(block_of(name) as nat, 8) == blake3_digest(encode_utf8(name)).subrange(0, 8),
        le_bytes(seeded_hash(value, seed), 8) == blake3_digest(le_bytes(seed, 8) + value).subrange(0, 8),
        0 <= place(value, seed, len) < len,
        (seeded_hash(value, seed) - place(value, seed, len)) % len as int == 0,
{
    let d = blake3_digest(encode_utf8(name));
    let e = blake3_digest(le_bytes(seed, 8) + value);
    crate::support::bytes::lemma_pow256_values();
    lemma_le_canonical(d.subrange(0, 4));
    lemma_le_canonical(d.subrange(0, 8));
    lemma_le_canonical(e.subrange(0, 8));
    assert(e.take(8) =~= e.subrange(0, 8));
    let h = seeded_hash(value, seed) as int;
    let n = len as int;
    vstd::arithmetic::div_mod::lemma_fundamental_div_mod(h, n);
    vstd::arithmetic::div_mod::lemma_mod_bound(h, n);
    assert(h - h % n == (h / n) * n) by (nonlinear_arith)
        requires
            h == n * (h / n) + h % n,
    ;
    vstd::arithmetic::div_mod::lemma_mod_multiples_basic(h / n, n);
}

/// What is kept of a secret is its digest in hexadecimal; the files of indexes are named by the
/// digest of their field, and an exact and a numeric one never share a name.
pub proof fn law_names_by_digest(text: Seq<char>, other: Seq<char>)
    ensures
        secret_hash(text) == hex(blake3_digest(encode_utf8(text))),
        hash_file(text) == "hash-"@ + hex(blake3_digest(encode_utf8(text))) + ".bin"@,
        range_file(text) == "range-"@ + hex(blake3_digest(encode_utf8(text))) + ".bin"@,
        hash_file(text) != range_file(other),
        hash_file(text) != "manifest.bin"@,
        range_file(text) != "manifest.bin"@,
        index_dir_text(text) == text + ".indexes"@,
{
    reveal_strlit("hash-");
    reveal_strlit("range-");
    reveal_strlit("manifest.bin");
    assert(hash_file(text)[0] == 'h');
    assert(range_file(other)[0] == 'r');
    assert(range_file(text)[0] == 'r');
    assert("manifest.bin"@[0] == 'm');
}

/// The kinds of literals and of refresh policies are numbered in their order.
pub proof fn law_kinds_are_numbered(s: Seq<char>, i: i64, u: u64, b: bool)
    ensures
        literal_bytes(LiteralView::String(s)).take(4) =~= seq![0u8, 0u8, 0u8, 0u8],
        literal_bytes(LiteralView::I64(i)).take(4) =~= seq![1u8, 0u8, 0u8, 0u8],
        literal_bytes(LiteralView::U64(u)).take(4) =~= seq![2u8, 0u8, 0u8, 0u8],
        literal_bytes(LiteralView::F64(u)).take(4) =~= seq![3u8, 0u8, 0u8, 0u8],
        literal_bytes(LiteralView::Bool(b)) =~= seq![4u8, 0u8, 0u8, 0u8, if b { 1u8 } else { 0u8 }],
        literal_bytes(LiteralView::U64(u)).skip(4) =~= le_bytes(u as nat, 8),
        policy_index(RefreshPolicy::AutoOnRead) == 0,
        policy_index(RefreshPolicy::Manual) == 1,
        policy_index(RefreshPolicy::Immortal) == 2,
{
    reveal_with_fuel(le_bytes, 5);
    assert(le_bytes(0, 4) =~= seq![0u8, 0u8, 0u8, 0u8]);
    assert(le_bytes(1, 4) =~= seq![1u8, 0u8, 0u8, 0u8]);
    assert(le_bytes(2, 4) =~= seq![2u8, 0u8, 0u8, 0u8]);
    assert(le_bytes(3, 4) =~= seq![3u8, 0u8, 0u8, 0u8]);
    assert(le_bytes(4, 4) =~= seq![4u8, 0u8, 0u8, 0u8]);
}

proof fn lemma_parts_are_names(path: Seq<char>, n: nat, i: int)
    requires
        n <= path.len(),
    ensures
        0 <= i < parts(path, n).0.len() ==> parts(path, n).0[i].len() > 0 && !parts(path, n).0[i].contains('.'),
        !parts(path, n).1.contains('.'),
    decreases n,
{
    if n > 0 {
        let (done, current) = parts(path, (n - 1) as nat);
        lemma_parts_are_names(path, (n - 1) as nat, i);
        if path[n - 1] != '.' {
            let c = current.push(path[n - 1]);
            if c.contains('.') {
                let q = c.index_of('.');
                assert(current[q] == '.');
                assert(current.contains('.'));
            }
        }
    }
}

/// The parts of a path are not empty, and no dot stands in them.
pub proof fn law_parts_of_a_path_are_names(path: Seq<char>, i: int)
    requires
        0 <= i < path_parts(path).len(),
    ensures
        path_parts(path)[i].len() > 0,
        !path_parts(path)[i].contains('.'),
{
    lemma_parts_are_names(path, path.len(), i);
}

proof fn lemma_first_comma(s: Seq<char>, k: int, c: int)
    requires
        0 <= k <= c <= s.len(),
        forall|i: int| k <= i < c ==> #[trigger] s[i] != ',',
        c < s.len() ==> s[c] == ',',
    ensures
        comma_from(s, k) == c,
    decreases c - k,
{
    if k < c {
        assert(s[k] != ',');
        lemma_first_comma(s, k + 1, c);
    }
}

/// A list of numbers is read part by part between its commas: a blank part is passed over, and a
/// number below the least counts as the least.
pub proof fn law_lists_are_read_between_commas(s: Seq<char>, k: int, c: int, least: u64, name: Seq<char>)
    requires
        0 <= k <= c <= s.len(),
        forall|i: int| k <= i < c ==> #[trigger] s[i] != ',',
        c < s.len() ==> s[c] == ',',
    ensures
        ({
            let part = trimmed(s.subrange(k, c));
            let first = number_value(part, u64::MAX, name);
            let rest = list_from(s, c + 1, least, name);
            let all = list_from(s, k, least, name);
            &&& part.len() == 0 && c < s.len() ==> all == rest
            &&& part.len() == 0 && c == s.len() ==> all == Ok::<Seq<u64>, Seq<char>>(Seq::empty())
            &&& part.len() > 0 && first is Err ==> all == Err::<Seq<u64>, Seq<char>>(first->Err_0)
            &&& part.len() > 0 && first is Ok && first->Ok_0 <= u64::MAX && c == s.len() ==> all is Ok && all->Ok_0
                =~= seq![
                if first->Ok_0 < least {
                    least
                } else {
                    first->Ok_0 as u64
                },
            ]
            &&& part.len() > 0 && first is Ok && first->Ok_0 <= u64::MAX && c < s.len() && rest is Ok ==> all is Ok
                && all->Ok_0 =~= seq![
                if first->Ok_0 < least {
                    least
                } else {
                    first->Ok_0 as u64
                },
            ] + rest->Ok_0
            &&& part.len() > 0 && first is Ok && c < s.len() && rest is Err ==> all == rest
        }),
{
    lemma_first_comma(s, k, c);
}

} // verus!
