//! The strand and its parts: what a stored record is made of.
use vstd::prelude::*;

verus! {

/// Three base-4 symbols.
#[derive(Debug, Clone, Copy, PartialEq, Eq, Structural)]
pub struct Codon(pub u8, pub u8, pub u8);

impl Codon {
    /// Whether each of the three symbols is a base-4 digit.
    pub open spec fn valid(self) -> bool {
        self.0 < 4 && self.1 < 4 && self.2 < 4
    }

    /// The symbol at position 0, 1 or 2.
    pub open spec fn symbol(self, i: int) -> u8 {
        if i == 0 {
            self.0
        } else if i == 1 {
            self.1
        } else {
            self.2
        }
    }

    /// A codon of three base-4 digits; `None` where one is out of range.
    pub fn new(a: u8, b: u8, c: u8) -> (r: Option<Self>)
        ensures
            r == (if a < 4 && b < 4 && c < 4 {
                Some(Codon(a, b, c))
            } else {
                None
            }),
    {
        if a < 4 && b < 4 && c < 4 {
            Some(Codon(a, b, c))
        } else {
            None
        }
    }

    /// The three symbols in order.
    pub fn values(self) -> (r: [u8; 3])
        ensures
            r@ == seq![self.0, self.1, self.2],
    {
        let r = [self.0, self.1, self.2];
        proof {
            assert(r@ =~= seq![self.0, self.1, self.2]);
        }
        r
    }
}

/// Whether every codon of a strand holds base-4 digits only.
pub open spec fn codons_valid(s: Seq<Codon>) -> bool {
    forall|i: int| 0 <= i < s.len() ==> (#[trigger] s[i]).valid()
}

/// A named field of a strand: where its codons stand and how its value hashes.
#[derive(Debug, PartialEq, Eq)]
pub struct Intron {
    pub field_name: String,
    pub codon_offset: u32,
    pub codon_length: u16,
    pub value_hash: u64,
    /// Optional structural pointer to another strand, followed by include paths.
    pub references_strand: Option<[u8; 8]>,
}

/// What an [`Intron`] holds.
pub struct IntronView {
    pub field_name: Seq<char>,
    pub codon_offset: u32,
    pub codon_length: u16,
    pub value_hash: u64,
    pub references_strand: Option<[u8; 8]>,
}

impl View for Intron {
    type V = IntronView;

    open spec fn view(&self) -> IntronView {
        IntronView {
            field_name: self.field_name@,
            codon_offset: self.codon_offset,
            codon_length: self.codon_length,
            value_hash: self.value_hash,
            references_strand: self.references_strand,
        }
    }
}

impl Clone for Intron {
    fn clone(&self) -> (r: Self)
        ensures
            r == *self,
    {
        Intron {
            field_name: self.field_name.clone(),
            codon_offset: self.codon_offset,
            codon_length: self.codon_length,
            value_hash: self.value_hash,
            references_strand: self.references_strand,
        }
    }
}

/// How a strand's telomere is topped up.
#[derive(Debug, Clone, Copy, PartialEq, Eq, Structural)]
pub enum RefreshPolicy {
    AutoOnRead,
    Manual,
    Immortal,
}

/// The lifetime counter of a strand.
#[derive(Debug, Clone, Copy, PartialEq, Eq, Structural)]
pub struct Telomere {
    pub count: u16,
    pub immortal: bool,
    pub last_refresh: u64,
    pub refresh_policy: RefreshPolicy,
}

/// A key with a value, attached to a strand.
#[derive(Debug, PartialEq, Eq)]
pub struct Tag {
    pub key: String,
    pub value: String,
}

/// What a [`Tag`] holds.
pub struct TagView {
    pub key: Seq<char>,
    pub value: Seq<char>,
}

impl View for Tag {
    type V = TagView;

    open spec fn view(&self) -> TagView {
        TagView { key: self.key@, value: self.value@ }
    }
}

impl Clone for Tag {
    fn clone(&self) -> (r: Self)
        ensures
            r == *self,
    {
        Tag { key: self.key.clone(), value: self.value.clone() }
    }
}

/// A stored record: codons, their complement, and the fields within them.
#[derive(Debug, PartialEq, Eq)]
pub struct Strand {
    pub signature: [u8; 8],
    pub collection_id: u32,
    pub codons: Vec<Codon>,
    pub complement: Vec<Codon>,
    pub introns: Vec<Intron>,
    pub telomere: Telomere,
    pub epigenetic_tags: Vec<Tag>,
    pub version: u64,
    pub created_at: u64,
    pub updated_at: u64,
}

/// What a [`Strand`] holds.
#[verifier::ext_equal]
pub struct StrandView {
    pub signature: [u8; 8],
    pub collection_id: u32,
    pub codons: Seq<Codon>,
    pub complement: Seq<Codon>,
    pub introns: Seq<IntronView>,
    pub telomere: Telomere,
    pub epigenetic_tags: Seq<TagView>,
    pub version: u64,
    pub created_at: u64,
    pub updated_at: u64,
}

/// What a sequence of introns holds.
pub open spec fn intron_views(s: Seq<Intron>) -> Seq<IntronView> {
    Seq::new(s.len(), |i: int| s[i]@)
}

/// What a sequence of tags holds.
pub open spec fn tag_views(s: Seq<Tag>) -> Seq<TagView> {
    Seq::new(s.len(), |i: int| s[i]@)
}

/// What a sequence of strands holds.
pub open spec fn strand_views(s: Seq<Strand>) -> Seq<StrandView> {
    Seq::new(s.len(), |i: int| s[i]@)
}

impl View for Strand {
    type V = StrandView;

    open spec fn view(&self) -> StrandView {
        StrandView {
            signature: self.signature,
            collection_id: self.collection_id,
            codons: self.codons@,
            complement: self.complement@,
            introns: intron_views(self.introns@),
            telomere: self.telomere,
            epigenetic_tags: tag_views(self.epigenetic_tags@),
            version: self.version,
            created_at: self.created_at,
            updated_at: self.updated_at,
        }
    }
}

/// Copies the codons from `start` up to `end`.
pub fn copy_codons(v: &[Codon], start: usize, end: usize) -> (r: Vec<Codon>)
    requires
        start <= end <= v@.len(),
    ensures
        r@ == v@.subrange(start as int, end as int),
{
    let mut out: Vec<Codon> = Vec::new();
    let mut i: usize = start;
    while i < end
        invariant
            start <= i <= end <= v@.len(),
            out@ == v@.subrange(start as int, i as int),
        decreases end - i,
    {
        out.push(v[i]);
        proof {
            assert(v@.subrange(start as int, i + 1) =~= v@.subrange(start as int, i as int).push(
                v@[i as int],
            ));
        }
        i += 1;
    }
    out
}

impl Clone for Strand {
    fn clone(&self) -> (r: Self)
        ensures
            r@ == self@,
    {
        let mut introns: Vec<Intron> = Vec::new();
        let mut i: usize = 0;
        while i < self.introns.len()
            invariant
                0 <= i <= self.introns@.len(),
                introns@ == self.introns@.take(i as int),
            decreases self.introns@.len() - i,
        {
            introns.push(self.introns[i].clone());
            proof {
                assert(self.introns@.take(i + 1) =~= self.introns@.take(i as int).push(
                    self.introns@[i as int],
                ));
            }
            i += 1;
        }
        let mut tags: Vec<Tag> = Vec::new();
        let mut j: usize = 0;
        while j < self.epigenetic_tags.len()
            invariant
                0 <= j <= self.epigenetic_tags@.len(),
                tags@ == self.epigenetic_tags@.take(j as int),
            decreases self.epigenetic_tags@.len() - j,
        {
            tags.push(self.epigenetic_tags[j].clone());
            proof {
                assert(self.epigenetic_tags@.take(j + 1) =~= self.epigenetic_tags@.take(j as int).push(
                    self.epigenetic_tags@[j as int],
                ));
            }
            j += 1;
        }
        let codons = copy_codons(self.codons.as_slice(), 0, self.codons.len());
        let complement = copy_codons(self.complement.as_slice(), 0, self.complement.len());
        let r = Strand {
            signature: self.signature,
            collection_id: self.collection_id,
            codons,
            complement,
            introns,
            telomere: self.telomere,
            epigenetic_tags: tags,
            version: self.version,
            created_at: self.created_at,
            updated_at: self.updated_at,
        };
        proof {
            assert(r.introns@ =~= self.introns@);
            assert(r.epigenetic_tags@ =~= self.epigenetic_tags@);
            assert(r.codons@ =~= self.codons@);
            assert(r.complement@ =~= self.complement@);
        }
        r
    }
}

/// Whether two codon sequences are the same.
pub fn codons_eq(a: &[Codon], b: &[Codon]) -> (r: bool)
    ensures
        r == (a@ == b@),
{
    if a.len() != b.len() {
        return false;
    }
    let mut i: usize = 0;
    while i < a.len()
        invariant
            0 <= i <= a@.len(),
            a@.len() == b@.len(),
            forall|j: int| 0 <= j < i ==> a@[j] == b@[j],
        decreases a@.len() - i,
    {
        if a[i] != b[i] {
            return false;
        }
        i += 1;
    }
    proof {
        assert(a@ =~= b@);
    }
    true
}

} // verus!
