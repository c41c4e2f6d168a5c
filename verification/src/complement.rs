//! Complement pairing: every symbol and its partner add up to three.
use crate::model::{codons_valid, Codon};
use vstd::prelude::*;

verus! {

/// A symbol that does not pair with its complement.
#[derive(Debug, Clone, Copy, PartialEq, Eq, Structural)]
pub struct Corruption {
    pub codon_index: usize,
    pub symbol_index: usize,
    pub strand_value: u8,
    pub complement_value: u8,
}

/// The codon that pairs with `c`.
pub open spec fn complement_of(c: Codon) -> Codon {
    Codon((3 - c.0) as u8, (3 - c.1) as u8, (3 - c.2) as u8)
}

/// The complement of a whole strand.
pub open spec fn complement_spec(s: Seq<Codon>) -> Seq<Codon> {
    Seq::new(s.len(), |i: int| complement_of(s[i]))
}

fn complement_symbol(value: u8) -> (r: u8)
    requires
        value < 4,
    ensures
        r == 3 - value,
{
    3 - value
}

/// The complement of `codons`, codon by codon.
pub fn generate_complement(codons: &[Codon]) -> (r: Vec<Codon>)
    requires
        codons_valid(codons@),
    ensures
        r@ == complement_spec(codons@),
        codons_valid(r@),
{
    let mut out: Vec<Codon> = Vec::new();
    let mut i: usize = 0;
    while i < codons.len()
        invariant
            0 <= i <= codons@.len(),
            codons_valid(codons@),
            out@.len() == i,
            forall|j: int| 0 <= j < i ==> #[trigger] out@[j] == complement_of(codons@[j]),
        decreases codons@.len() - i,
    {
        let c = codons[i];
        proof {
            assert(codons@[i as int].valid());
        }
        out.push(Codon(complement_symbol(c.0), complement_symbol(c.1), complement_symbol(c.2)));
        i += 1;
    }
    proof {
        assert(out@ =~= complement_spec(codons@));
        assert forall|j: int| 0 <= j < out@.len() implies (#[trigger] out@[j]).valid() by {
            assert(codons@[j].valid());
        }
    }
    out
}

/// Whether the symbols at codon `i`, position `k` fail to pair.
pub open spec fn mismatched(strand: Seq<Codon>, complement: Seq<Codon>, i: int, k: int) -> bool {
    strand[i].symbol(k) + complement[i].symbol(k) != 3
}

/// The finding reported for codon `i`, position `k`.
pub open spec fn corruption_at(strand: Seq<Codon>, complement: Seq<Codon>, i: int, k: int) -> Corruption {
    Corruption {
        codon_index: i as usize,
        symbol_index: k as usize,
        strand_value: strand[i].symbol(k),
        complement_value: complement[i].symbol(k),
    }
}

/// The findings among the first `n` symbols (three to a codon), in order.
pub open spec fn corruption_spec(strand: Seq<Codon>, complement: Seq<Codon>, n: nat) -> Seq<Corruption>
    decreases n,
{
    if n == 0 {
        Seq::empty()
    } else {
        let before = corruption_spec(strand, complement, (n - 1) as nat);
        let i = (n - 1) / 3;
        let k = (n - 1) % 3;
        if mismatched(strand, complement, i, k) {
            before.push(corruption_at(strand, complement, i, k))
        } else {
            before
        }
    }
}

/// How many codons of the two strands stand opposite each other.
pub open spec fn pair_count(strand: Seq<Codon>, complement: Seq<Codon>) -> nat {
    if strand.len() < complement.len() {
        strand.len()
    } else {
        complement.len()
    }
}

/// Whether no symbol sum leaves the range of a byte.
pub open spec fn sums_fit(strand: Seq<Codon>, complement: Seq<Codon>) -> bool {
    forall|i: int, k: int|
        #![trigger strand[i].symbol(k), complement[i].symbol(k)]
        0 <= i < pair_count(strand, complement) && 0 <= k < 3 ==> strand[i].symbol(k)
            + complement[i].symbol(k) <= 255
}

fn check_symbol(
    issues: &mut Vec<Corruption>,
    strand: &[Codon],
    complement: &[Codon],
    idx: usize,
    k: usize,
    s: u8,
    c: u8,
)
    requires
        idx < strand@.len(),
        idx < complement@.len(),
        k < 3,
        s == strand@[idx as int].symbol(k as int),
        c == complement@[idx as int].symbol(k as int),
        s + c <= 255,
        old(issues)@ == corruption_spec(strand@, complement@, (3 * idx + k) as nat),
    ensures
        final(issues)@ == corruption_spec(strand@, complement@, (3 * idx + k + 1) as nat),
{
    proof {
        assert((3 * idx + k) / 3 == idx);
        assert((3 * idx + k) % 3 == k);
    }
    if s + c != 3 {
        issues.push(
            Corruption { codon_index: idx, symbol_index: k, strand_value: s, complement_value: c },
        );
    }
}

/// Every symbol of the opposite codons that does not pair, in order of position.
pub fn find_corruption(strand: &[Codon], complement: &[Codon]) -> (r: Vec<Corruption>)
    requires
        sums_fit(strand@, complement@),
    ensures
        r@ == corruption_spec(strand@, complement@, 3 * pair_count(strand@, complement@)),
{
    let mut issues: Vec<Corruption> = Vec::new();
    let pairs: usize = if strand.len() < complement.len() {
        strand.len()
    } else {
        complement.len()
    };
    let mut idx: usize = 0;
    while idx < pairs
        invariant
            0 <= idx <= pairs,
            pairs == pair_count(strand@, complement@),
            sums_fit(strand@, complement@),
            issues@ == corruption_spec(strand@, complement@, (3 * idx) as nat),
        decreases pairs - idx,
    {
        let s = strand[idx];
        let c = complement[idx];
        proof {
            assert(strand@[idx as int].symbol(0) + complement@[idx as int].symbol(0) <= 255);
            assert(strand@[idx as int].symbol(1) + complement@[idx as int].symbol(1) <= 255);
            assert(strand@[idx as int].symbol(2) + complement@[idx as int].symbol(2) <= 255);
        }
        check_symbol(&mut issues, strand, complement, idx, 0, s.0, c.0);
        check_symbol(&mut issues, strand, complement, idx, 1, s.1, c.1);
        check_symbol(&mut issues, strand, complement, idx, 2, s.2, c.2);
        idx += 1;
    }
    issues
}

/// Whether two strands pair: equal length, and every symbol sum is three.
pub open spec fn pairing(strand: Seq<Codon>, complement: Seq<Codon>) -> bool {
    strand.len() == complement.len() && forall|i: int, k: int|
        #![trigger strand[i].symbol(k), complement[i].symbol(k)]
        0 <= i < strand.len() && 0 <= k < 3 ==> strand[i].symbol(k) + complement[i].symbol(k) == 3
}

/// Whether the two strands pair.
pub fn is_valid_pairing(strand: &[Codon], complement: &[Codon]) -> (r: bool)
    requires
        sums_fit(strand@, complement@),
    ensures
        r == pairing(strand@, complement@),
{
    if strand.len() != complement.len() {
        return false;
    }
    let issues = find_corruption(strand, complement);
    proof {
        law_no_corruption_iff_paired(strand@, complement@);
    }
    issues.len() == 0
}

proof fn lemma_corruption_empty(strand: Seq<Codon>, complement: Seq<Codon>, n: nat)
    ensures
        corruption_spec(strand, complement, n).len() == 0 <==> forall|m: int|
            0 <= m < n ==> !#[trigger] mismatched(strand, complement, m / 3, m % 3),
    decreases n,
{
    if n > 0 {
        lemma_corruption_empty(strand, complement, (n - 1) as nat);
        if corruption_spec(strand, complement, n).len() == 0 {
            assert forall|m: int| 0 <= m < n implies !#[trigger] mismatched(strand, complement, m / 3, m
                % 3) by {
                if m == n - 1 {
                }
            }
        } else {
            if !mismatched(strand, complement, (n - 1) / 3, (n - 1) % 3) {
                let m = choose|m: int|
                    0 <= m < n - 1 && #[trigger] mismatched(strand, complement, m / 3, m % 3);
                assert(mismatched(strand, complement, m / 3, m % 3));
            } else {
                let m = n - 1;
                assert(mismatched(strand, complement, m / 3, m % 3));
            }
        }
    }
}

/// The search for corruption finds nothing exactly when opposite strands of
/// equal length pair.
pub proof fn law_no_corruption_iff_paired(strand: Seq<Codon>, complement: Seq<Codon>)
    requires
        strand.len() == complement.len(),
    ensures
        corruption_spec(strand, complement, 3 * pair_count(strand, complement)).len() == 0 <==> pairing(
            strand,
            complement,
        ),
{
    let n = 3 * pair_count(strand, complement);
    lemma_corruption_empty(strand, complement, n);
    if corruption_spec(strand, complement, n).len() == 0 {
        assert forall|i: int, k: int|
            #![trigger strand[i].symbol(k), complement[i].symbol(k)]
            0 <= i < strand.len() && 0 <= k < 3 implies strand[i].symbol(k) + complement[i].symbol(k)
            == 3 by {
            let m = 3 * i + k;
            assert(m / 3 == i && m % 3 == k);
            assert(!mismatched(strand, complement, m / 3, m % 3));
        }
    }
    if pairing(strand, complement) {
        assert forall|m: int| 0 <= m < n implies !#[trigger] mismatched(strand, complement, m / 3, m % 3) by {
            assert(strand[m / 3].symbol(m % 3) + complement[m / 3].symbol(m % 3) == 3);
        }
    }
}

/// A strand of base-4 digits pairs with the complement generated from it.
pub proof fn law_generated_complement_pairs(strand: Seq<Codon>)
    requires
        codons_valid(strand),
    ensures
        pairing(strand, complement_spec(strand)),
        codons_valid(complement_spec(strand)),
{
    assert forall|i: int, k: int|
        #![trigger strand[i].symbol(k), complement_spec(strand)[i].symbol(k)]
        0 <= i < strand.len() && 0 <= k < 3 implies strand[i].symbol(k) + complement_spec(
        strand,
    )[i].symbol(k) == 3 by {
        assert(strand[i].valid());
    }
    assert forall|i: int| 0 <= i < strand.len() implies (#[trigger] complement_spec(strand)[i]).valid() by {
        assert(strand[i].valid());
    }
}

/// Taking the complement twice gives the strand back.
pub proof fn law_complement_is_involution(strand: Seq<Codon>)
    requires
        codons_valid(strand),
    ensures
        complement_spec(complement_spec(strand)) == strand,
{
    assert forall|i: int| 0 <= i < strand.len() implies complement_spec(complement_spec(strand))[i]
        == strand[i] by {
        assert(strand[i].valid());
    }
    assert(complement_spec(complement_spec(strand)) =~= strand);
}

/// Strands of base-4 digits never overflow a symbol sum, so they can always be compared.
pub proof fn law_digits_can_be_compared(strand: Seq<Codon>, complement: Seq<Codon>)
    requires
        codons_valid(strand),
        codons_valid(complement),
    ensures
        sums_fit(strand, complement),
{
    assert forall|i: int, k: int|
        #![trigger strand[i].symbol(k), complement[i].symbol(k)]
        0 <= i < pair_count(strand, complement) && 0 <= k < 3 implies strand[i].symbol(k)
        + complement[i].symbol(k) <= 255 by {
        assert(strand[i].valid());
        assert(complement[i].valid());
    }
}

} // verus!
