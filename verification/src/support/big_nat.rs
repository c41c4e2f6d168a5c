//! Natural numbers of any size, for exact comparison of products.
use vstd::prelude::*;

verus! {

/// 2^64 to the power of `n`.
pub open spec fn weight(n: nat) -> nat
    decreases n,
{
    if n == 0 {
        1
    } else {
        0x1_0000_0000_0000_0000 * weight((n - 1) as nat)
    }
}

/// The number whose base-2^64 digits are `s`, least significant first.
pub open spec fn digits_value(s: Seq<u64>) -> nat
    decreases s.len(),
{
    if s.len() == 0 {
        0
    } else {
        digits_value(s.drop_last()) + s.last() as nat * weight((s.len() - 1) as nat)
    }
}

/// A natural number.
#[derive(Debug)]
pub struct BigNat {
    digits: Vec<u64>,
}

impl View for BigNat {
    type V = nat;

    closed spec fn view(&self) -> nat {
        digits_value(self.digits@)
    }
}

proof fn lemma_push(s: Seq<u64>, d: u64)
    ensures
        digits_value(s.push(d)) == digits_value(s) + d as nat * weight(s.len()),
{
    assert(s.push(d).drop_last() =~= s);
}

proof fn lemma_below_weight(s: Seq<u64>)
    ensures
        digits_value(s) < weight(s.len()),
    decreases s.len(),
{
    if s.len() > 0 {
        lemma_below_weight(s.drop_last());
        let w = weight((s.len() - 1) as nat);
        let d = s.last() as nat;
        assert(d * w + w <= 0x1_0000_0000_0000_0000 * w) by (nonlinear_arith)
            requires
                d + 1 <= 0x1_0000_0000_0000_0000,
        ;
    }
}

/// The `i`-th digit; zero beyond the last.
spec fn digit(s: Seq<u64>, i: int) -> u64 {
    if i < s.len() {
        s[i]
    } else {
        0
    }
}

/// The first `n` digits, padded with zeros.
spec fn padded(s: Seq<u64>, n: nat) -> Seq<u64> {
    Seq::new(n, |i: int| digit(s, i))
}

proof fn lemma_padded(s: Seq<u64>, n: nat)
    requires
        n >= s.len(),
    ensures
        digits_value(padded(s, n)) == digits_value(s),
    decreases n,
{
    if n == s.len() {
        assert(padded(s, n) =~= s);
    } else {
        lemma_padded(s, (n - 1) as nat);
        assert(padded(s, n).drop_last() =~= padded(s, (n - 1) as nat));
        assert(padded(s, n).last() == 0);
    }
}

impl BigNat {
    /// A machine number.
    pub fn of(x: u64) -> (r: Self)
        ensures
            r@ == x,
    {
        let mut digits: Vec<u64> = Vec::new();
        proof {
            lemma_push(digits@, x);
            assert(x as nat * weight(0) == x) by (nonlinear_arith)
                requires
                    weight(0) == 1,
            ;
        }
        digits.push(x);
        BigNat { digits }
    }

    /// The product with a machine number.
    pub fn times(&self, m: u64) -> (r: Self)
        ensures
            r@ == self@ * m,
    {
        let mut out: Vec<u64> = Vec::new();
        let mut carry: u64 = 0;
        let mut i: usize = 0;
        proof {
            assert(self.digits@.take(0) =~= Seq::<u64>::empty());
            assert(digits_value(self.digits@.take(0)) * m == 0) by (nonlinear_arith)
                requires
                    digits_value(self.digits@.take(0)) == 0,
            ;
            assert(carry as nat * weight(0) == 0) by (nonlinear_arith)
                requires
                    carry == 0,
            ;
        }
        while i < self.digits.len()
            invariant
                0 <= i <= self.digits@.len(),
                out@.len() == i,
                digits_value(out@) + carry as nat * weight(i as nat) == digits_value(self.digits@.take(i as int)) * m,
            decreases self.digits@.len() - i,
        {
            let d: u64 = self.digits[i];
            proof {
                assert(d as int * m as int + carry as int <= 0xffff_ffff_ffff_ffff * 0x1_0000_0000_0000_0000)
                    by (nonlinear_arith)
                    requires
                        0 <= d <= 0xffff_ffff_ffff_ffff,
                        0 <= m <= 0xffff_ffff_ffff_ffff,
                        0 <= carry <= 0xffff_ffff_ffff_ffff,
                ;
                assert(0 <= d as int * m as int) by (nonlinear_arith)
                    requires
                        0 <= d,
                        0 <= m,
                ;
            }
            let product: u128 = d as u128 * m as u128 + carry as u128;
            let low: u64 = (product % 0x1_0000_0000_0000_0000) as u64;
            let high: u64 = (product / 0x1_0000_0000_0000_0000) as u64;
            proof {
                let w = weight(i as nat) as int;
                let before = self.digits@.take(i as int);
                assert(self.digits@.take(i + 1) =~= before.push(d));
                lemma_push(before, d);
                lemma_push(out@, low);
                let b: int = 0x1_0000_0000_0000_0000;
                assert(weight((i + 1) as nat) == b * w);
                let v = digits_value(out@) as int;
                let x = digits_value(before) as int;
                assert(low + high * b == d * m + carry);
                assert(v + low * w + high * (b * w) == (x + d * w) * m) by (nonlinear_arith)
                    requires
                        low + high * b == d * m + carry,
                        v + carry * w == x * m,
                ;
            }
            out.push(low);
            carry = high;
            i += 1;
        }
        proof {
            assert(self.digits@.take(i as int) =~= self.digits@);
            lemma_push(out@, carry);
        }
        out.push(carry);
        BigNat { digits: out }
    }

    fn digit_at(&self, i: usize) -> (r: u64)
        ensures
            r == digit(self.digits@, i as int),
    {
        if i < self.digits.len() {
            self.digits[i]
        } else {
            0
        }
    }

    /// The sum.
    pub fn plus(&self, other: &BigNat) -> (r: Self)
        ensures
            r@ == self@ + other@,
    {
        let n: usize = if self.digits.len() < other.digits.len() {
            other.digits.len()
        } else {
            self.digits.len()
        };
        let mut out: Vec<u64> = Vec::new();
        let mut carry: u64 = 0;
        let mut i: usize = 0;
        proof {
            assert(padded(self.digits@, 0) =~= Seq::<u64>::empty());
            assert(padded(other.digits@, 0) =~= Seq::<u64>::empty());
        }
        while i < n
            invariant
                0 <= i <= n,
                out@.len() == i,
                carry <= 1,
                digits_value(out@) + carry as nat * weight(i as nat) == digits_value(
                    padded(self.digits@, i as nat),
                ) + digits_value(padded(other.digits@, i as nat)),
            decreases n - i,
        {
            let a: u64 = self.digit_at(i);
            let b: u64 = other.digit_at(i);
            let sum: u128 = a as u128 + b as u128 + carry as u128;
            let low: u64 = (sum % 0x1_0000_0000_0000_0000) as u64;
            let high: u64 = (sum / 0x1_0000_0000_0000_0000) as u64;
            proof {
                let w = weight(i as nat) as int;
                let pa = padded(self.digits@, i as nat);
                let pb = padded(other.digits@, i as nat);
                assert(padded(self.digits@, (i + 1) as nat) =~= pa.push(a));
                assert(padded(other.digits@, (i + 1) as nat) =~= pb.push(b));
                lemma_push(pa, a);
                lemma_push(pb, b);
                lemma_push(out@, low);
                let base: int = 0x1_0000_0000_0000_0000;
                assert(weight((i + 1) as nat) == base * w);
                assert(low + high * base == a + b + carry);
                assert(low * w + high * (base * w) == a * w + b * w + carry * w) by (nonlinear_arith)
                    requires
                        low + high * base == a + b + carry,
                ;
            }
            out.push(low);
            carry = high;
            i += 1;
        }
        proof {
            lemma_padded(self.digits@, n as nat);
            lemma_padded(other.digits@, n as nat);
            lemma_push(out@, carry);
        }
        out.push(carry);
        BigNat { digits: out }
    }

    /// Whether this number is smaller.
    pub fn less(&self, other: &BigNat) -> (r: bool)
        ensures
            r == (self@ < other@),
    {
        let n: usize = if self.digits.len() < other.digits.len() {
            other.digits.len()
        } else {
            self.digits.len()
        };
        let mut smaller = false;
        let mut i: usize = 0;
        proof {
            assert(padded(self.digits@, 0) =~= Seq::<u64>::empty());
            assert(padded(other.digits@, 0) =~= Seq::<u64>::empty());
        }
        while i < n
            invariant
                0 <= i <= n,
                smaller == (digits_value(padded(self.digits@, i as nat)) < digits_value(
                    padded(other.digits@, i as nat),
                )),
            decreases n - i,
        {
            let a: u64 = self.digit_at(i);
            let b: u64 = other.digit_at(i);
            proof {
                let w = weight(i as nat) as int;
                let pa = padded(self.digits@, i as nat);
                let pb = padded(other.digits@, i as nat);
                assert(padded(self.digits@, (i + 1) as nat) =~= pa.push(a));
                assert(padded(other.digits@, (i + 1) as nat) =~= pb.push(b));
                lemma_push(pa, a);
                lemma_push(pb, b);
                lemma_below_weight(pa);
                lemma_below_weight(pb);
                assert(a < b ==> a * w + w <= b * w) by (nonlinear_arith)
                    requires
                        w >= 0,
                ;
                assert(b < a ==> b * w + w <= a * w) by (nonlinear_arith)
                    requires
                        w >= 0,
                ;
            }
            if a != b {
                smaller = a < b;
            }
            i += 1;
        }
        proof {
            lemma_padded(self.digits@, n as nat);
            lemma_padded(other.digits@, n as nat);
        }
        smaller
    }
}

} // verus!
