//! Strands by signature, and include paths over references between strands.
use super::matching::row_views;
use crate::model::{strand_views, Strand, StrandView};
use crate::support::bytes::{
    from_le, lemma_le_canonical, lemma_pow256_values, lemma_u64_of_injective, u64_of,
};
use crate::support::text::chars_of;
use std::collections::HashMap;
use vstd::prelude::*;

verus! {

broadcast use vstd::std_specs::hash::group_hash_axioms;

/// The last of the first `n` strands with the signature `sig`.
pub open spec fn last_with(strands: Seq<StrandView>, sig: [u8; 8], n: nat) -> Option<int>
    decreases n,
{
    if n == 0 {
        None
    } else if strands[n - 1].signature == sig {
        Some(n - 1)
    } else {
        last_with(strands, sig, (n - 1) as nat)
    }
}

/// The strand that a signature stands for: the last one with it.
pub open spec fn find(strands: Seq<StrandView>, sig: [u8; 8]) -> Option<StrandView> {
    match last_with(strands, sig, strands.len()) {
        Some(i) => Some(strands[i]),
        None => None,
    }
}

/// The strands that the first `n` signatures stand for; unknown ones are left out.
pub open spec fn found(strands: Seq<StrandView>, sigs: Seq<[u8; 8]>, n: nat) -> Seq<StrandView>
    decreases n,
{
    if n == 0 {
        Seq::empty()
    } else {
        match find(strands, sigs[n - 1]) {
            Some(v) => found(strands, sigs, (n - 1) as nat).push(v),
            None => found(strands, sigs, (n - 1) as nat),
        }
    }
}

/// What is known of the last strand with a signature.
pub proof fn lemma_last_with(strands: Seq<StrandView>, sig: [u8; 8], n: nat)
    requires
        n <= strands.len(),
    ensures
        match last_with(strands, sig, n) {
            Some(i) => 0 <= i < n && strands[i].signature == sig && forall|j: int|
                i < j < n ==> (#[trigger] strands[j]).signature != sig,
            None => forall|j: int| 0 <= j < n ==> (#[trigger] strands[j]).signature != sig,
        },
    decreases n,
{
    if n > 0 && strands[n - 1].signature != sig {
        lemma_last_with(strands, sig, (n - 1) as nat);
    }
}

/// An index of strands by signature; of several with one signature the last counts.
pub struct SignatureIndex<'a> {
    strands: &'a [Strand],
    places: HashMap<u64, usize>,
}

/// Whether the places say where the last of the first `n` strands with each signature stands.
spec fn places_are(places: Map<u64, usize>, strands: Seq<StrandView>, n: nat) -> bool {
    forall|sig: [u8; 8]|
        match #[trigger] last_with(strands, sig, n) {
            Some(i) => places.dom().contains(from_le(sig@) as u64) && places[from_le(sig@) as u64] == i,
            None => !places.dom().contains(from_le(sig@) as u64),
        }
}

impl<'a> SignatureIndex<'a> {
    #[verifier::type_invariant]
    spec fn wf(self) -> bool {
        places_are(self.places@, strand_views(self.strands@), self.strands@.len())
    }

    /// The strands of the index.
    pub closed spec fn strands(self) -> Seq<StrandView> {
        strand_views(self.strands@)
    }

    /// The strand that `sig` stands for.
    pub fn get(&self, sig: &[u8; 8]) -> (r: Option<&'a Strand>)
        ensures
            match r {
                Some(s) => find(self.strands(), *sig) == Some(s@),
                None => find(self.strands(), *sig) is None,
            },
    {
        let key: u64 = u64_of(sig);
        proof {
            use_type_invariant(self);
            let views = strand_views(self.strands@);
            lemma_last_with(views, *sig, views.len());
            let w = last_with(views, *sig, views.len());
            assert(from_le(sig@) as u64 == key);
        }
        match self.places.get(&key) {
            Some(i) => {
                proof {
                    assert(strand_views(self.strands@)[*i as int] == self.strands@[*i as int]@);
                }
                Some(&self.strands[*i])
            },
            None => None,
        }
    }
}

/// Indexes strands by signature.
pub fn strand_by_signature<'a>(strands: &'a [Strand]) -> (r: SignatureIndex<'a>)
    ensures
        r.strands() == strand_views(strands@),
{
    let ghost views = strand_views(strands@);
    let mut places: HashMap<u64, usize> = HashMap::new();
    let mut i: usize = 0;
    while i < strands.len()
        invariant
            0 <= i <= strands@.len(),
            views == strand_views(strands@),
            places_are(places@, views, i as nat),
        decreases strands@.len() - i,
    {
        let key: u64 = u64_of(&strands[i].signature);
        let ghost before = places@;
        places.insert(key, i);
        proof {
            let here = views[i as int].signature;
            assert(here == strands@[i as int].signature);
            assert forall|sig: [u8; 8]|
                match #[trigger] last_with(views, sig, (i + 1) as nat) {
                    Some(k) => places@.dom().contains(from_le(sig@) as u64) && places@[from_le(sig@) as u64] == k,
                    None => !places@.dom().contains(from_le(sig@) as u64),
                } by {
                let old_place = last_with(views, sig, i as nat);
                lemma_sig_value_fits(sig);
                lemma_sig_value_fits(here);
                if from_le(sig@) as u64 == key {
                    lemma_u64_of_injective(sig, here);
                }
            }
        }
        i += 1;
    }
    SignatureIndex { strands, places }
}

proof fn lemma_sig_value_fits(sig: [u8; 8])
    ensures
        from_le(sig@) <= u64::MAX,
{
    lemma_le_canonical(sig@);
    lemma_pow256_values();
}

/// The strands that signatures stand for.
pub fn hits_to_strands<'a>(index: &SignatureIndex<'a>, sigs: &[[u8; 8]]) -> (r: Vec<&'a Strand>)
    ensures
        row_views(r@) == found(index.strands(), sigs@, sigs@.len()),
{
    let mut out: Vec<&'a Strand> = Vec::new();
    let mut i: usize = 0;
    proof {
        assert(row_views(out@) =~= found(index.strands(), sigs@, 0));
    }
    while i < sigs.len()
        invariant
            0 <= i <= sigs@.len(),
            row_views(out@) == found(index.strands(), sigs@, i as nat),
        decreases sigs@.len() - i,
    {
        let ghost before = out@;
        if let Some(s) = index.get(&sigs[i]) {
            out.push(s);
            proof {
                assert(row_views(out@) =~= row_views(before).push(s@));
            }
        }
        i += 1;
    }
    out
}

/// The non-empty parts between the dots of the first `n` characters that are complete, and the
/// one begun.
pub open spec fn parts(path: Seq<char>, n: nat) -> (Seq<Seq<char>>, Seq<char>)
    decreases n,
{
    if n == 0 {
        (Seq::empty(), Seq::empty())
    } else {
        let (done, current) = parts(path, (n - 1) as nat);
        if path[n - 1] == '.' {
            (
                if current.len() > 0 {
                    done.push(current)
                } else {
                    done
                },
                Seq::empty(),
            )
        } else {
            (done, current.push(path[n - 1]))
        }
    }
}

/// The non-empty parts of a dotted path.
pub open spec fn path_parts(path: Seq<char>) -> Seq<Seq<char>> {
    let (done, current) = parts(path, path.len());
    if current.len() > 0 {
        done.push(current)
    } else {
        done
    }
}

/// What a sequence of character vectors holds.
spec fn char_views(s: Seq<Vec<char>>) -> Seq<Seq<char>> {
    Seq::new(s.len(), |i: int| s[i]@)
}

fn split_path(path: &str) -> (r: Vec<Vec<char>>)
    ensures
        char_views(r@) == path_parts(path@),
{
    let chars = chars_of(path);
    let mut done: Vec<Vec<char>> = Vec::new();
    let mut current: Vec<char> = Vec::new();
    let mut i: usize = 0;
    proof {
        assert(char_views(done@) =~= Seq::<Seq<char>>::empty());
        assert(current@ =~= Seq::<char>::empty());
    }
    while i < chars.len()
        invariant
            0 <= i <= chars@.len(),
            chars@ == path@,
            parts(path@, i as nat) == (char_views(done@), current@),
        decreases chars@.len() - i,
    {
        let ghost before = done@;
        let ghost text = current@;
        if chars[i] == '.' {
            if current.len() > 0 {
                done.push(current);
                proof {
                    assert(char_views(done@) =~= char_views(before).push(text));
                }
            }
            current = Vec::new();
            proof {
                assert(current@ =~= Seq::<char>::empty());
            }
        } else {
            current.push(chars[i]);
        }
        i += 1;
    }
    let ghost before = done@;
    let ghost text = current@;
    if current.len() > 0 {
        done.push(current);
        proof {
            assert(char_views(done@) =~= char_views(before).push(text));
        }
    }
    done
}

/// The strands that the first `n` introns of a strand refer to under the name `part`.
pub open spec fn references(strands: Seq<StrandView>, v: StrandView, part: Seq<char>, n: nat) -> Seq<StrandView>
    decreases n,
{
    if n == 0 {
        Seq::empty()
    } else {
        let before = references(strands, v, part, (n - 1) as nat);
        let intron = v.introns[n - 1];
        match intron.references_strand {
            Some(sig) => match (intron.field_name == part, find(strands, sig)) {
                (true, Some(t)) => before.push(t),
                _ => before,
            },
            None => before,
        }
    }
}

/// One hop from the first `n` strands of a frontier.
pub open spec fn hop(strands: Seq<StrandView>, from: Seq<StrandView>, part: Seq<char>, n: nat) -> Seq<StrandView>
    decreases n,
{
    if n == 0 {
        Seq::empty()
    } else {
        hop(strands, from, part, (n - 1) as nat) + references(
            strands,
            from[n - 1],
            part,
            from[n - 1].introns.len(),
        )
    }
}

/// The frontier after the first `n` parts of a path.
pub open spec fn reached(strands: Seq<StrandView>, root: StrandView, path: Seq<Seq<char>>, n: nat) -> Seq<StrandView>
    decreases n,
{
    if n == 0 {
        seq![root]
    } else {
        let from = reached(strands, root, path, (n - 1) as nat);
        hop(strands, from, path[n - 1], from.len())
    }
}

/// The strands at the end of a dotted path from `root`; nothing for an empty path.
pub open spec fn path_target(strands: Seq<StrandView>, root: StrandView, path: Seq<char>) -> Seq<StrandView> {
    let p = path_parts(path);
    if p.len() == 0 {
        Seq::empty()
    } else {
        reached(strands, root, p, p.len())
    }
}

fn chars_equal(a: &Vec<char>, b: &Vec<char>) -> (r: bool)
    ensures
        r == (a@ == b@),
{
    if a.len() != b.len() {
        return false;
    }
    let mut i: usize = 0;
    while i < a.len()
        invariant
            0 <= i <= a@.len(),
            a@.len() == b@.len(),
            forall|j: int| 0 <= j < i ==> a@[j] == b@[j],
        decreases a@.len() - i,
    {
        if a[i] != b[i] {
            return false;
        }
        i += 1;
    }
    proof {
        assert(a@ =~= b@);
    }
    true
}

fn push_references<'a>(
    out: &mut Vec<&'a Strand>,
    node: &'a Strand,
    part: &Vec<char>,
    index: &SignatureIndex<'a>,
)
    ensures
        row_views(final(out)@) == row_views(old(out)@) + references(
            index.strands(),
            node@,
            part@,
            node@.introns.len(),
        ),
{
    let ghost base = row_views(out@);
    let ghost v = node@;
    let mut i: usize = 0;
    proof {
        assert(base + references(index.strands(), v, part@, 0) =~= base);
    }
    while i < node.introns.len()
        invariant
            0 <= i <= node.introns@.len(),
            v == node@,
            row_views(out@) == base + references(index.strands(), v, part@, i as nat),
        decreases node.introns@.len() - i,
    {
        let intron = &node.introns[i];
        let ghost before = out@;
        let ghost so_far = references(index.strands(), v, part@, i as nat);
        proof {
            assert(v.introns[i as int] == intron@);
        }
        if let Some(sig) = &intron.references_strand {
            if chars_equal(&chars_of(intron.field_name.as_str()), part) {
                if let Some(t) = index.get(sig) {
                    out.push(t);
                    proof {
                        assert(row_views(out@) =~= row_views(before).push(t@));
                        assert((base + so_far).push(t@) =~= base + so_far.push(t@));
                    }
                }
            }
        }
        i += 1;
    }
}

/// The strands at the end of a dotted include path from `root`, such as `orders.products`.
pub fn resolve_include_path<'a>(root: &'a Strand, path: &str, index: &SignatureIndex<'a>) -> (r: Vec<&'a Strand>)
    ensures
        row_views(r@) == path_target(index.strands(), root@, path@),
{
    let segments = split_path(path);
    proof {
        assert(segments@.len() == path_parts(path@).len());
    }
    if segments.len() == 0 {
        let r: Vec<&'a Strand> = Vec::new();
        proof {
            assert(row_views(r@) =~= Seq::<StrandView>::empty());
        }
        return r;
    }
    let ghost p = path_parts(path@);
    let mut frontier: Vec<&'a Strand> = Vec::new();
    frontier.push(root);
    proof {
        assert(row_views(frontier@) =~= seq![root@]);
    }
    let mut k: usize = 0;
    while k < segments.len()
        invariant
            0 <= k <= segments@.len(),
            char_views(segments@) == p,
            row_views(frontier@) == reached(index.strands(), root@, p, k as nat),
        decreases segments@.len() - k,
    {
        let part = &segments[k];
        let ghost from = row_views(frontier@);
        proof {
            assert(p[k as int] == part@);
        }
        let mut next: Vec<&'a Strand> = Vec::new();
        let mut i: usize = 0;
        proof {
            assert(row_views(next@) =~= hop(index.strands(), from, part@, 0));
        }
        while i < frontier.len()
            invariant
                0 <= i <= frontier@.len(),
                from == row_views(frontier@),
                row_views(next@) == hop(index.strands(), from, part@, i as nat),
            decreases frontier@.len() - i,
        {
            push_references(&mut next, frontier[i], part, index);
            i += 1;
        }
        frontier = next;
        k += 1;
    }
    frontier
}

} // verus!
