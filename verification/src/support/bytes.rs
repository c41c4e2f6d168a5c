//! Byte strings: little-endian integers, equality, dictionary order.
use vstd::prelude::*;

verus! {

/// 256 to the power `n`.
pub open spec fn pow256(n: nat) -> nat
    decreases n,
{
    if n == 0 {
        1
    } else {
        256 * pow256((n - 1) as nat)
    }
}

/// The `n` low bytes of `x`, least significant first.
pub open spec fn le_bytes(x: nat, n: nat) -> Seq<u8>
    decreases n,
{
    if n == 0 {
        Seq::empty()
    } else {
        seq![(x % 256) as u8] + le_bytes(x / 256, (n - 1) as nat)
    }
}

/// The number whose little-endian bytes are `s`.
pub open spec fn from_le(s: Seq<u8>) -> nat
    decreases s.len(),
{
    if s.len() == 0 {
        0
    } else {
        s[0] as nat + 256 * from_le(s.skip(1))
    }
}

/// `le_bytes` yields as many bytes as asked for.
pub proof fn lemma_le_bytes_len(x: nat, n: nat)
    ensures
        le_bytes(x, n).len() == n,
    decreases n,
{
    if n > 0 {
        lemma_le_bytes_len(x / 256, (n - 1) as nat);
    }
}

/// Reading back the little-endian bytes of a number that fits gives the number.
pub proof fn lemma_le_round_trip(x: nat, n: nat)
    requires
        x < pow256(n),
    ensures
        from_le(le_bytes(x, n)) == x,
    decreases n,
{
    if n > 0 {
        lemma_le_bytes_len(x, n);
        assert(x / 256 < pow256((n - 1) as nat)) by (nonlinear_arith)
            requires
                x < 256 * pow256((n - 1) as nat),
        ;
        lemma_le_round_trip(x / 256, (n - 1) as nat);
        assert(le_bytes(x, n).skip(1) =~= le_bytes(x / 256, (n - 1) as nat));
    }
}

/// Writing the number that a byte string stands for gives the byte string back.
pub proof fn lemma_le_canonical(s: Seq<u8>)
    ensures
        le_bytes(from_le(s), s.len()) == s,
        from_le(s) < pow256(s.len()),
    decreases s.len(),
{
    if s.len() > 0 {
        lemma_le_canonical(s.skip(1));
        let x = from_le(s);
        assert(x % 256 == s[0] as nat);
        assert(x / 256 == from_le(s.skip(1)));
        assert(seq![s[0]] + s.skip(1) =~= s);
    } else {
        assert(le_bytes(0, 0) =~= s);
    }
}

/// 256 to the powers that the integer types need.
pub proof fn lemma_pow256_values()
    ensures
        pow256(2) == 0x1_0000,
        pow256(4) == 0x1_0000_0000,
        pow256(8) == 0x1_0000_0000_0000_0000,
{
    reveal_with_fuel(pow256, 9);
}

/// The little-endian bytes of a 64-bit number.
pub fn u64_le(x: u64) -> (r: [u8; 8])
    ensures
        r@ == le_bytes(x as nat, 8),
{
    let x1: u64 = x / 256;
    let x2: u64 = x1 / 256;
    let x3: u64 = x2 / 256;
    let x4: u64 = x3 / 256;
    let x5: u64 = x4 / 256;
    let x6: u64 = x5 / 256;
    let x7: u64 = x6 / 256;
    let r = [
        (x % 256) as u8,
        (x1 % 256) as u8,
        (x2 % 256) as u8,
        (x3 % 256) as u8,
        (x4 % 256) as u8,
        (x5 % 256) as u8,
        (x6 % 256) as u8,
        (x7 % 256) as u8,
    ];
    proof {
        reveal_with_fuel(le_bytes, 9);
        assert(r@ =~= le_bytes(x as nat, 8));
    }
    r
}

/// The little-endian bytes of a 32-bit number.
pub fn u32_le(x: u32) -> (r: [u8; 4])
    ensures
        r@ == le_bytes(x as nat, 4),
{
    let x1: u32 = x / 256;
    let x2: u32 = x1 / 256;
    let x3: u32 = x2 / 256;
    let r = [(x % 256) as u8, (x1 % 256) as u8, (x2 % 256) as u8, (x3 % 256) as u8];
    proof {
        reveal_with_fuel(le_bytes, 5);
        assert(r@ =~= le_bytes(x as nat, 4));
    }
    r
}

/// The little-endian bytes of a 16-bit number.
pub fn u16_le(x: u16) -> (r: [u8; 2])
    ensures
        r@ == le_bytes(x as nat, 2),
{
    let r = [(x % 256) as u8, ((x / 256) % 256) as u8];
    proof {
        reveal_with_fuel(le_bytes, 3);
        assert(r@ =~= le_bytes(x as nat, 2));
    }
    r
}

proof fn lemma_skip_skip(s: Seq<u8>, a: int, b: int)
    requires
        0 <= a,
        0 <= b,
        a + b <= s.len(),
    ensures
        s.skip(a).skip(b) == s.skip(a + b),
{
    assert(s.skip(a).skip(b) =~= s.skip(a + b));
}

/// The 64-bit number at position `at` of `b`, least significant byte first.
pub fn u64_from_le_at(b: &[u8], at: usize) -> (r: u64)
    requires
        at + 8 <= b@.len(),
    ensures
        r as nat == from_le(b@.subrange(at as int, at + 8)),
{
    let n: usize = b.len();
    let mut acc: u64 = 0;
    let mut k: usize = 8;
    proof {
        lemma_pow256_values();
        assert(b@.subrange(at + 8, at + 8) =~= Seq::<u8>::empty());
        reveal_with_fuel(pow256, 9);
    }
    while k > 0
        invariant
            0 <= k <= 8,
            at + 8 <= n,
            n == b@.len(),
            acc as nat == from_le(b@.subrange(at + k, at + 8)),
        decreases k,
    {
        proof {
            let s = b@.subrange(at + k - 1, at + 8);
            assert(s.skip(1) =~= b@.subrange(at + k, at + 8));
            lemma_le_canonical(s);
            reveal_with_fuel(pow256, 9);
            assert(pow256(s.len()) <= 0x1_0000_0000_0000_0000);
        }
        k -= 1;
        acc = b[at + k] as u64 + 256 * acc;
    }
    acc
}

/// The 32-bit number at position `at` of `b`, least significant byte first.
pub fn u32_from_le_at(b: &[u8], at: usize) -> (r: u32)
    requires
        at + 4 <= b@.len(),
    ensures
        r as nat == from_le(b@.subrange(at as int, at + 4)),
{
    let n: usize = b.len();
    let mut acc: u32 = 0;
    let mut k: usize = 4;
    proof {
        assert(b@.subrange(at + 4, at + 4) =~= Seq::<u8>::empty());
    }
    while k > 0
        invariant
            0 <= k <= 4,
            at + 4 <= n,
            n == b@.len(),
            acc as nat == from_le(b@.subrange(at + k, at + 4)),
        decreases k,
    {
        proof {
            let s = b@.subrange(at + k - 1, at + 4);
            assert(s.skip(1) =~= b@.subrange(at + k, at + 4));
            lemma_le_canonical(s);
            reveal_with_fuel(pow256, 5);
            assert(pow256(s.len()) <= 0x1_0000_0000);
        }
        k -= 1;
        acc = b[at + k] as u32 + 256 * acc;
    }
    acc
}

/// The number whose little-endian bytes are the eight bytes of `b`.
pub fn u64_of(b: &[u8; 8]) -> (r: u64)
    ensures
        r as nat == from_le(b@),
{
    proof {
        assert(b@.subrange(0, 8) =~= b@);
    }
    u64_from_le_at(b.as_slice(), 0)
}

/// Eight-byte strings are equal when the numbers they stand for are.
pub proof fn lemma_u64_of_injective(a: [u8; 8], b: [u8; 8])
    requires
        from_le(a@) == from_le(b@),
    ensures
        a == b,
{
    lemma_le_canonical(a@);
    lemma_le_canonical(b@);
    assert(a@ == b@);
    assert forall|i: int| 0 <= i < 8 implies a[i] == b[i] by {
        assert(a@[i] == b@[i]);
    }
    assert(a =~= b);
}

/// Whether two byte strings are the same.
pub fn bytes_eq(a: &[u8], b: &[u8]) -> (r: bool)
    ensures
        r == (a@ == b@),
{
    if a.len() != b.len() {
        return false;
    }
    let mut i: usize = 0;
    while i < a.len()
        invariant
            0 <= i <= a@.len(),
            a@.len() == b@.len(),
            forall|j: int| 0 <= j < i ==> a@[j] == b@[j],
        decreases a@.len() - i,
    {
        if a[i] != b[i] {
            return false;
        }
        i += 1;
    }
    proof {
        assert(a@ =~= b@);
    }
    true
}

/// Whether two signatures are the same.
pub fn sig_eq(a: &[u8; 8], b: &[u8; 8]) -> (r: bool)
    ensures
        r == (*a == *b),
{
    let mut i: usize = 0;
    while i < 8
        invariant
            0 <= i <= 8,
            forall|j: int| 0 <= j < i ==> a[j] == b[j],
        decreases 8 - i,
    {
        if a[i] != b[i] {
            return false;
        }
        i += 1;
    }
    proof {
        assert(*a =~= *b);
    }
    true
}

/// Dictionary order on byte strings: `a` stands before `b`.
pub open spec fn lex_less(a: Seq<u8>, b: Seq<u8>) -> bool
    decreases a.len(),
{
    if b.len() == 0 {
        false
    } else if a.len() == 0 {
        true
    } else if a[0] != b[0] {
        a[0] < b[0]
    } else {
        lex_less(a.skip(1), b.skip(1))
    }
}

/// Whether `a` stands before `b` in dictionary order.
pub fn bytes_less(a: &[u8], b: &[u8]) -> (r: bool)
    ensures
        r == lex_less(a@, b@),
{
    let mut i: usize = 0;
    proof {
        assert(a@.skip(0) =~= a@);
        assert(b@.skip(0) =~= b@);
    }
    while i < a.len() && i < b.len()
        invariant
            0 <= i <= a@.len(),
            i <= b@.len(),
            lex_less(a@, b@) == lex_less(a@.skip(i as int), b@.skip(i as int)),
        decreases a@.len() - i,
    {
        if a[i] != b[i] {
            return a[i] < b[i];
        }
        proof {
            lemma_skip_skip(a@, i as int, 1);
            lemma_skip_skip(b@, i as int, 1);
        }
        i += 1;
    }
    i < b.len()
}

/// Dictionary order is irreflexive.
pub proof fn lemma_lex_irreflexive(a: Seq<u8>)
    ensures
        !lex_less(a, a),
    decreases a.len(),
{
    if a.len() > 0 {
        lemma_lex_irreflexive(a.skip(1));
    }
}

/// Of two different byte strings, one stands before the other.
pub proof fn lemma_lex_total(a: Seq<u8>, b: Seq<u8>)
    ensures
        lex_less(a, b) || a == b || lex_less(b, a),
        !(lex_less(a, b) && lex_less(b, a)),
    decreases a.len(),
{
    if a.len() > 0 && b.len() > 0 {
        lemma_lex_total(a.skip(1), b.skip(1));
        if a[0] == b[0] && a.skip(1) == b.skip(1) {
            assert(a =~= seq![a[0]] + a.skip(1));
            assert(b =~= seq![b[0]] + b.skip(1));
        }
    } else if a.len() == 0 && b.len() == 0 {
        assert(a =~= b);
    }
}

/// Dictionary order is transitive.
pub proof fn lemma_lex_transitive(a: Seq<u8>, b: Seq<u8>, c: Seq<u8>)
    requires
        lex_less(a, b),
        lex_less(b, c),
    ensures
        lex_less(a, c),
    decreases a.len(),
{
    if a.len() > 0 && a[0] == b[0] && b[0] == c[0] {
        lemma_lex_transitive(a.skip(1), b.skip(1), c.skip(1));
    }
}

/// Appends the bytes of `b` to `out`.
pub fn push_bytes(out: &mut Vec<u8>, b: &[u8])
    ensures
        final(out)@ == old(out)@ + b@,
{
    let mut i: usize = 0;
    while i < b.len()
        invariant
            0 <= i <= b@.len(),
            out@ == old(out)@ + b@.take(i as int),
        decreases b@.len() - i,
    {
        out.push(b[i]);
        proof {
            assert(b@.take(i + 1) =~= b@.take(i as int).push(b@[i as int]));
            assert(out@ =~= old(out)@ + b@.take(i + 1));
        }
        i += 1;
    }
    proof {
        assert(b@.take(b@.len() as int) =~= b@);
    }
}

/// Owned copy of a byte string.
pub fn copy_bytes(b: &[u8]) -> (r: Vec<u8>)
    ensures
        r@ == b@,
{
    let mut out: Vec<u8> = Vec::new();
    push_bytes(&mut out, b);
    proof {
        assert(out@ =~= b@);
    }
    out
}

/// The eight bytes of `b` as an array.
pub fn sig_from(b: &[u8]) -> (r: [u8; 8])
    requires
        b@.len() == 8,
    ensures
        r@ == b@,
{
    let r = [b[0], b[1], b[2], b[3], b[4], b[5], b[6], b[7]];
    proof {
        assert(r@ =~= b@);
    }
    r
}

} // verus!
