//! Full checks of clauses against decoded field values, and projection of fields.
use super::fields::{carries, field_bytes, has_value, intron_payload_bytes};
use super::guide::{Clause, ClauseView, GuidePattern, GuideView, RangeOp};
use super::like_util::{like, like_matches};
use crate::model::{codons_eq, Strand, StrandView};
use crate::support::bytes::{bytes_eq, bytes_less, lex_less};
use crate::support::str_map::StrMap;
use crate::support::str_set::StrSet;
use crate::support::text::{lossy_text, string_is, utf8_lossy};
use vstd::prelude::*;

verus! {

/// What a sequence of byte strings holds.
pub open spec fn byte_views(s: Seq<Vec<u8>>) -> Seq<Seq<u8>> {
    Seq::new(s.len(), |i: int| s[i]@)
}

/// What a sequence of rows holds.
pub open spec fn row_views(s: Seq<&Strand>) -> Seq<StrandView> {
    Seq::new(s.len(), |i: int| s[i]@)
}

/// The readable values of `field` among the first `n` introns of a strand.
pub open spec fn values_upto(v: StrandView, field: Seq<char>, n: nat) -> Seq<Seq<u8>>
    decreases n,
{
    if n == 0 {
        Seq::empty()
    } else {
        let before = values_upto(v, field, (n - 1) as nat);
        let intron = v.introns[n - 1];
        match (intron.field_name == field, field_bytes(v.codons, intron)) {
            (true, Some(b)) => before.push(b),
            _ => before,
        }
    }
}

/// The readable values of `field` in a strand.
pub open spec fn values(v: StrandView, field: Seq<char>) -> Seq<Seq<u8>> {
    values_upto(v, field, v.introns.len())
}

proof fn lemma_value_carried(v: StrandView, field: Seq<char>, n: nat, k: int)
    requires
        n <= v.introns.len(),
        0 <= k < values_upto(v, field, n).len(),
    ensures
        has_value(v, field, values_upto(v, field, n)[k]),
    decreases n,
{
    let before = values_upto(v, field, (n - 1) as nat);
    if k < before.len() {
        lemma_value_carried(v, field, (n - 1) as nat, k);
    } else {
        assert(carries(v, field, n - 1, values_upto(v, field, n)[k]));
    }
}

proof fn lemma_carried_value(v: StrandView, field: Seq<char>, n: nat, i: int, value: Seq<u8>)
    requires
        i < n <= v.introns.len(),
        carries(v, field, i, value),
    ensures
        values_upto(v, field, n).contains(value),
    decreases n,
{
    let before = values_upto(v, field, (n - 1) as nat);
    let now = values_upto(v, field, n);
    if i == n - 1 {
        assert(now[before.len() as int] == value);
    } else {
        lemma_carried_value(v, field, (n - 1) as nat, i, value);
        let k = before.index_of(value);
        assert(now[k] == value);
    }
}

/// The readable values of a field are those that some intron carries.
pub proof fn lemma_values(v: StrandView, field: Seq<char>)
    ensures
        forall|value: Seq<u8>| #[trigger] values(v, field).contains(value) <==> has_value(v, field, value),
{
    assert forall|value: Seq<u8>| #[trigger] values(v, field).contains(value) <==> has_value(v, field, value) by {
        if values(v, field).contains(value) {
            let k = values(v, field).index_of(value);
            lemma_value_carried(v, field, v.introns.len(), k);
        }
        if has_value(v, field, value) {
            let i = choose|i: int| carries(v, field, i, value);
            lemma_carried_value(v, field, v.introns.len(), i, value);
        }
    }
}

/// The comparison of a range clause: byte strings in dictionary order.
pub open spec fn in_range(value: Seq<u8>, op: RangeOp, wire: Seq<u8>) -> bool {
    match op {
        RangeOp::GreaterThan => lex_less(wire, value),
        RangeOp::GreaterOrEqual => !lex_less(value, wire),
        RangeOp::LessThan => lex_less(value, wire),
        RangeOp::LessOrEqual => !lex_less(wire, value),
        RangeOp::NotEqual => value != wire,
    }
}

/// Whether a value is what a clause asks for.
pub open spec fn value_passes(c: ClauseView, value: Seq<u8>) -> bool {
    match c {
        ClauseView::Exact { wire, .. } => value == wire,
        ClauseView::Range { op, wire, .. } => in_range(value, op, wire),
        ClauseView::Like { pattern, .. } => like(lossy_text(value), pattern),
    }
}

/// Whether the `i`-th of some values is what a clause asks for.
pub open spec fn passes_at(c: ClauseView, vals: Seq<Seq<u8>>, i: int) -> bool {
    0 <= i < vals.len() && value_passes(c, vals[i])
}

/// Whether all clauses of a query are on the signature.
pub open spec fn signature_only(g: GuideView) -> bool {
    forall|i: int| 0 <= i < g.clauses.len() ==> (#[trigger] g.clauses[i]).field() == "_signature"@
}

/// Whether a strand satisfies a clause: some readable value of the field is what it asks for.
/// An exact clause on the signature looks at the strand's own; any other clause on the
/// signature looks at introns of that name, but only if no clause is on another field.
pub open spec fn satisfies(v: StrandView, c: ClauseView, bare: bool) -> bool {
    if c is Exact && c.field() == "_signature"@ {
        v.signature@ == c->Exact_wire
    } else if c.field() == "_signature"@ && !bare {
        false
    } else {
        exists|i: int| #[trigger] passes_at(c, values(v, c.field()), i)
    }
}

/// Whether a strand satisfies every clause.
pub open spec fn matches_all(v: StrandView, g: GuideView) -> bool {
    forall|i: int| 0 <= i < g.clauses.len() ==> satisfies(v, #[trigger] g.clauses[i], signature_only(g))
}

/// The rows that satisfy every clause, in order.
pub open spec fn matching(rows: Seq<StrandView>, g: GuideView) -> Seq<StrandView>
    decreases rows.len(),
{
    if rows.len() == 0 {
        Seq::empty()
    } else {
        let before = matching(rows.drop_last(), g);
        if matches_all(rows.last(), g) {
            before.push(rows.last())
        } else {
            before
        }
    }
}

/// A row is among the matching ones when it is among the rows and satisfies every clause.
pub proof fn lemma_matching(rows: Seq<StrandView>, g: GuideView)
    ensures
        forall|v: StrandView| #[trigger]
            matching(rows, g).contains(v) <==> rows.contains(v) && matches_all(v, g),
    decreases rows.len(),
{
    if rows.len() > 0 {
        let front = rows.drop_last();
        lemma_matching(front, g);
        assert forall|v: StrandView| #[trigger] matching(rows, g).contains(v) <==> rows.contains(v) && matches_all(
            v,
            g,
        ) by {
            let before = matching(front, g);
            let now = matching(rows, g);
            assert(rows.contains(v) <==> front.contains(v) || rows.last() == v) by {
                if rows.contains(v) {
                    let i = rows.index_of(v);
                    if i < front.len() {
                        assert(front[i] == v);
                    }
                }
                if front.contains(v) {
                    assert(rows[front.index_of(v)] == v);
                }
                if rows.last() == v {
                    assert(rows[rows.len() - 1] == v);
                }
            }
            if now.contains(v) {
                let i = now.index_of(v);
                if i < before.len() {
                    assert(before[i] == v);
                }
            }
            if before.contains(v) {
                assert(now[before.index_of(v)] == v);
            }
            if matches_all(rows.last(), g) {
                assert(now[before.len() as int] == rows.last());
            }
        }
    }
}

/// The readable values of `field`.
fn field_values(strand: &Strand, field: &str) -> (r: Vec<Vec<u8>>)
    ensures
        byte_views(r@) == values(strand@, field@),
{
    let ghost v = strand@;
    let mut out: Vec<Vec<u8>> = Vec::new();
    let mut i: usize = 0;
    proof {
        assert(byte_views(out@) =~= values_upto(v, field@, 0));
    }
    while i < strand.introns.len()
        invariant
            0 <= i <= strand.introns@.len(),
            v == strand@,
            byte_views(out@) == values_upto(v, field@, i as nat),
        decreases strand.introns@.len() - i,
    {
        let intron = &strand.introns[i];
        let ghost before = out@;
        proof {
            assert(v.introns[i as int] == intron@);
        }
        if string_is(&intron.field_name, field) {
            if let Some(b) = intron_payload_bytes(strand, intron) {
                out.push(b);
                proof {
                    assert(byte_views(out@) =~= byte_views(before).push(b@));
                }
            }
        }
        i += 1;
    }
    out
}

fn value_is_wanted(clause: &Clause, value: &Vec<u8>) -> (r: bool)
    ensures
        r == value_passes(clause@, value@),
{
    match clause {
        Clause::ExactMatch { operand_wire, .. } => bytes_eq(value.as_slice(), operand_wire.as_slice()),
        Clause::RangeMatch { operator, operand_wire, .. } => {
            let v = value.as_slice();
            let w = operand_wire.as_slice();
            match operator {
                RangeOp::GreaterThan => bytes_less(w, v),
                RangeOp::GreaterOrEqual => !bytes_less(v, w),
                RangeOp::LessThan => bytes_less(v, w),
                RangeOp::LessOrEqual => !bytes_less(w, v),
                RangeOp::NotEqual => !bytes_eq(v, w),
            }
        },
        Clause::LikePattern { pattern, .. } => {
            let s = utf8_lossy(value.as_slice());
            like_matches(s.as_str(), pattern.as_str())
        },
    }
}

fn any_value_is_wanted(clause: &Clause, vals: &Vec<Vec<u8>>) -> (r: bool)
    ensures
        r == exists|i: int| #[trigger] passes_at(clause@, byte_views(vals@), i),
{
    let mut i: usize = 0;
    while i < vals.len()
        invariant
            0 <= i <= vals@.len(),
            forall|j: int| 0 <= j < i ==> !#[trigger] passes_at(clause@, byte_views(vals@), j),
        decreases vals@.len() - i,
    {
        if value_is_wanted(clause, &vals[i]) {
            proof {
                assert(passes_at(clause@, byte_views(vals@), i as int));
            }
            return true;
        }
        i += 1;
    }
    false
}

/// Whether a set holds exactly the clause fields other than the signature.
spec fn fields_of(required: Set<Seq<char>>, g: GuideView, n: nat) -> bool {
    forall|f: Seq<char>| #[trigger]
        required.contains(f) <==> f != "_signature"@ && exists|i: int|
            0 <= i < n && (#[trigger] g.clauses[i]).field() == f
}

/// The clause fields to decode: all but the signature.
fn required_clause_fields(pattern: &GuidePattern) -> (r: StrSet)
    ensures
        fields_of(r@, pattern@, pattern@.clauses.len()),
{
    let ghost g = pattern@;
    let mut out = StrSet::new();
    let mut i: usize = 0;
    while i < pattern.clauses.len()
        invariant
            0 <= i <= pattern.clauses@.len(),
            g == pattern@,
            fields_of(out@, g, i as nat),
        decreases pattern.clauses@.len() - i,
    {
        let field = pattern.clauses[i].field();
        let ghost before = out@;
        proof {
            assert(g.clauses[i as int].field() == field@);
        }
        if !string_is(field, "_signature") {
            let _ = out.insert(field.clone());
        }
        proof {
            assert forall|f: Seq<char>| #[trigger]
                out@.contains(f) <==> f != "_signature"@ && exists|k: int|
                    0 <= k < i + 1 && (#[trigger] g.clauses[k]).field() == f by {
                assert(before.contains(f) <==> f != "_signature"@ && exists|k: int|
                    0 <= k < i && (#[trigger] g.clauses[k]).field() == f);
                if f == field@ {
                    assert(g.clauses[i as int].field() == f);
                }
            }
        }
        i += 1;
    }
    out
}

/// Whether a map holds the readable values of the first `n` required fields, as far as they have
/// any.
spec fn decoded_upto(m: Map<Seq<char>, Vec<Vec<u8>>>, v: StrandView, required: Seq<Seq<char>>, n: nat) -> bool {
    &&& forall|f: Seq<char>| #[trigger]
        m.dom().contains(f) <==> values(v, f).len() > 0 && exists|i: int| 0 <= i < n && #[trigger] required[i] == f
    &&& forall|f: Seq<char>| #[trigger] m.dom().contains(f) ==> byte_views(m[f]@) == values(v, f)
}

/// Whether a map holds the readable values of every required field that has any.
pub open spec fn decoded_for(m: Map<Seq<char>, Vec<Vec<u8>>>, v: StrandView, required: Set<Seq<char>>) -> bool {
    &&& forall|f: Seq<char>| #[trigger] m.dom().contains(f) <==> values(v, f).len() > 0 && required.contains(f)
    &&& forall|f: Seq<char>| #[trigger] m.dom().contains(f) ==> byte_views(m[f]@) == values(v, f)
}

/// The readable values of the required fields.
pub fn decode_required_field_values(strand: &Strand, required: &StrSet) -> (r: StrMap<Vec<Vec<u8>>>)
    ensures
        decoded_for(r@, strand@, required@),
{
    let n = required.len();
    let mut out: StrMap<Vec<Vec<u8>>> = StrMap::new();
    let mut i: usize = 0;
    while i < n
        invariant
            0 <= i <= n,
            n == required.members().len(),
            decoded_upto(out@, strand@, required.members(), i as nat),
        decreases n - i,
    {
        let field = required.item(i);
        let vals = field_values(strand, field.as_str());
        let ghost before = out@;
        let ghost count = vals@.len();
        proof {
            assert(byte_views(vals@).len() == vals@.len());
        }
        if vals.len() > 0 {
            let _ = out.insert(field.clone(), vals);
        }
        proof {
            let members = required.members();
            assert(members[i as int] == field@);
            assert forall|f: Seq<char>| #[trigger] out@.dom().contains(f) <==> values(strand@, f).len() > 0 && exists|k: int|
                0 <= k < i + 1 && #[trigger] members[k] == f by {
                assert(before.dom().contains(f) <==> values(strand@, f).len() > 0 && exists|k: int|
                    0 <= k < i && #[trigger] members[k] == f);
                if f == field@ {
                    assert(members[i as int] == f);
                }
            }
            assert forall|f: Seq<char>| #[trigger] out@.dom().contains(f) implies byte_views(out@[f]@) == values(
                strand@,
                f,
            ) by {
                if f != field@ || count == 0 {
                    assert(before.dom().contains(f));
                }
            }
        }
        i += 1;
    }
    proof {
        let members = required.members();
        assert forall|f: Seq<char>| #[trigger] out@.dom().contains(f) <==> values(strand@, f).len() > 0
            && required@.contains(f) by {
            assert(members.contains(f) <==> required@.contains(f));
            if members.contains(f) {
                assert(members[members.index_of(f)] == f);
            }
            if exists|k: int| 0 <= k < n && #[trigger] members[k] == f {
                let k = choose|k: int| 0 <= k < n && #[trigger] members[k] == f;
                assert(members.contains(f));
            }
        }
    }
    out
}

/// Whether the codons under intron `i`, which is on the clause's field, are the operand's.
pub open spec fn same_codons(v: StrandView, c: ClauseView, i: int) -> bool {
    &&& 0 <= i < v.introns.len()
    &&& v.introns[i].field_name == c.field()
    &&& v.introns[i].codon_offset + v.introns[i].codon_length <= v.codons.len()
    &&& v.codons.subrange(
        v.introns[i].codon_offset as int,
        v.introns[i].codon_offset + v.introns[i].codon_length,
    ) == c->Exact_codons
}

/// Whether a strand satisfies a clause, by the values of fields that were decoded before or, if
/// none were, by its introns. An exact clause looks at the signature, at the payload's bytes, or
/// else at codons.
pub open spec fn clause_holds(v: StrandView, c: ClauseView, decoded: Option<Map<Seq<char>, Vec<Vec<u8>>>>) -> bool {
    if c is Exact && c.field() == "_signature"@ {
        v.signature@ == c->Exact_wire
    } else {
        match decoded {
            Some(m) => m.dom().contains(c.field()) && exists|i: int| #[trigger]
                passes_at(c, byte_views(m[c.field()]@), i),
            None => if c is Exact && c.field() != "_payload"@ {
                exists|i: int| #[trigger] same_codons(v, c, i)
            } else {
                exists|i: int| #[trigger] passes_at(c, values(v, c.field()), i)
            },
        }
    }
}

/// Whether some intron on the clause's field spans the operand's codons.
fn codons_match(strand: &Strand, clause: &Clause) -> (r: bool)
    requires
        clause@ is Exact,
    ensures
        r == exists|i: int| #[trigger] same_codons(strand@, clause@, i),
{
    let ghost v = strand@;
    if let Clause::ExactMatch { field_intron, operand_codons, .. } = clause {
        let mut i: usize = 0;
        while i < strand.introns.len()
            invariant
                0 <= i <= strand.introns@.len(),
                v == strand@,
                clause@ is Exact,
                clause@.field() == field_intron@,
                clause@->Exact_codons == operand_codons.codons@,
                forall|j: int| 0 <= j < i ==> !#[trigger] same_codons(v, clause@, j),
            decreases strand.introns@.len() - i,
        {
            let intron = &strand.introns[i];
            proof {
                assert(v.introns[i as int] == intron@);
            }
            if string_is(&intron.field_name, field_intron.as_str()) {
                let start: u64 = intron.codon_offset as u64;
                let end: u64 = start + intron.codon_length as u64;
                if end <= strand.codons.len() as u64 {
                    let here = vstd::slice::slice_subrange(strand.codons.as_slice(), start as usize, end as usize);
                    if codons_eq(here, operand_codons.codons.as_slice()) {
                        proof {
                            assert(same_codons(v, clause@, i as int));
                        }
                        return true;
                    }
                }
            }
            i += 1;
        }
    }
    false
}

/// Whether a strand satisfies a clause, with the values of the required fields decoded before;
/// `None` when there are none.
pub fn clause_matches_strand(strand: &Strand, clause: &Clause, decoded: Option<&StrMap<Vec<Vec<u8>>>>) -> (r: bool)
    ensures
        r == clause_holds(
            strand@,
            clause@,
            match decoded {
                Some(m) => Some(m@),
                None => None,
            },
        ),
{
    let mut by_codons = false;
    if let Clause::ExactMatch { field_intron, operand_wire, .. } = clause {
        if string_is(field_intron, "_signature") {
            return bytes_eq(strand.signature.as_slice(), operand_wire.as_slice());
        }
        by_codons = !string_is(field_intron, "_payload");
    }
    match decoded {
        Some(m) => match m.get(clause.field().as_str()) {
            Some(vals) => any_value_is_wanted(clause, vals),
            None => false,
        },
        None => {
            if by_codons {
                return codons_match(strand, clause);
            }
            let vals = field_values(strand, clause.field().as_str());
            any_value_is_wanted(clause, &vals)
        },
    }
}

/// Values that were decoded before make no difference to a clause on a required field: the
/// answer is the same without them, but for an exact clause on a field other than the signature
/// and the payload, which compares codons then.
pub proof fn law_decoding_before_makes_no_difference(
    v: StrandView,
    c: ClauseView,
    m: Map<Seq<char>, Vec<Vec<u8>>>,
    required: Set<Seq<char>>,
)
    requires
        decoded_for(m, v, required),
        required.contains(c.field()),
        c is Exact ==> c.field() == "_signature"@ || c.field() == "_payload"@,
    ensures
        clause_holds(v, c, Some(m)) == clause_holds(v, c, None),
{
    lemma_names_differ();
    lemma_decoded_or_not(v, c, m, required);
}

proof fn lemma_decoded_or_not(v: StrandView, c: ClauseView, m: Map<Seq<char>, Vec<Vec<u8>>>, required: Set<Seq<char>>)
    requires
        decoded_for(m, v, required),
        required.contains(c.field()),
    ensures
        (m.dom().contains(c.field()) && exists|i: int| #[trigger] passes_at(c, byte_views(m[c.field()]@), i)) == (
        exists|i: int| #[trigger] passes_at(c, values(v, c.field()), i)),
{
    let f = c.field();
    if m.dom().contains(f) {
        assert(byte_views(m[f]@) == values(v, f));
    } else {
        assert(values(v, f).len() == 0);
        assert forall|i: int| !#[trigger] passes_at(c, values(v, f), i) by {}
    }
}

/// The payload field is not the signature.
pub proof fn lemma_names_differ()
    ensures
        "_payload"@ != "_signature"@,
{
    reveal_strlit("_payload");
    reveal_strlit("_signature");
    assert("_payload"@.len() != "_signature"@.len());
}

fn matches_with_fields(strand: &Strand, pattern: &GuidePattern, required: &StrSet) -> (r: bool)
    requires
        fields_of(required@, pattern@, pattern@.clauses.len()),
    ensures
        r == matches_all(strand@, pattern@),
{
    let ghost g = pattern@;
    let bare = required.is_empty();
    let n = required.len();
    proof {
        if bare {
            assert forall|i: int| 0 <= i < g.clauses.len() implies (#[trigger] g.clauses[i]).field()
                == "_signature"@ by {
                assert(!required@.contains(g.clauses[i].field()));
            }
        } else {
            assert(required.members().contains(required.members()[0]));
            assert(required@.contains(required.members()[0]));
        }
        assert(bare == signature_only(g));
    }
    let decoded = decode_required_field_values(strand, required);
    let mut i: usize = 0;
    while i < pattern.clauses.len()
        invariant
            0 <= i <= pattern.clauses@.len(),
            g == pattern@,
            bare == signature_only(g),
            fields_of(required@, g, g.clauses.len()),
            decoded_for(decoded@, strand@, required@),
            forall|j: int| 0 <= j < i ==> satisfies(strand@, #[trigger] g.clauses[j], bare),
        decreases pattern.clauses@.len() - i,
    {
        let clause = &pattern.clauses[i];
        proof {
            assert(g.clauses[i as int] == clause@);
            let f = clause@.field();
            assert(required@.contains(f) <==> f != "_signature"@);
            assert(satisfies(strand@, clause@, bare) == clause_holds(
                strand@,
                clause@,
                if bare {
                    None
                } else {
                    Some(decoded@)
                },
            )) by {
                lemma_names_differ();
                if !bare && f != "_signature"@ {
                    lemma_decoded_or_not(strand@, clause@, decoded@, required@);
                }
                if !bare && f == "_signature"@ {
                    assert(!decoded@.dom().contains(f));
                }
                if bare {
                    assert(f == "_signature"@);
                }
            }
        }
        let ok = if bare {
            clause_matches_strand(strand, clause, None)
        } else {
            clause_matches_strand(strand, clause, Some(&decoded))
        };
        if !ok {
            return false;
        }
        i += 1;
    }
    true
}

/// Whether a strand satisfies every clause of a query.
pub fn matches_all_clauses(strand: &Strand, pattern: &GuidePattern) -> (r: bool)
    ensures
        r == matches_all(strand@, pattern@),
{
    let required = required_clause_fields(pattern);
    matches_with_fields(strand, pattern, &required)
}

/// The rows that satisfy every clause of a query.
pub fn verify_clauses<'a>(rows: Vec<&'a Strand>, pattern: &GuidePattern) -> (r: Vec<&'a Strand>)
    ensures
        row_views(r@) == matching(row_views(rows@), pattern@),
        forall|i: int| 0 <= i < r@.len() ==> rows@.contains(#[trigger] r@[i]),
{
    let required = required_clause_fields(pattern);
    let mut out: Vec<&'a Strand> = Vec::new();
    let mut i: usize = 0;
    proof {
        assert(row_views(out@) =~= matching(row_views(rows@.take(0)), pattern@));
    }
    while i < rows.len()
        invariant
            0 <= i <= rows@.len(),
            fields_of(required@, pattern@, pattern@.clauses.len()),
            row_views(out@) == matching(row_views(rows@.take(i as int)), pattern@),
            forall|k: int| 0 <= k < out@.len() ==> rows@.contains(#[trigger] out@[k]),
        decreases rows@.len() - i,
    {
        let row = rows[i];
        let ghost before = out@;
        proof {
            let now = row_views(rows@.take(i + 1));
            assert(now.drop_last() =~= row_views(rows@.take(i as int)));
            assert(now.last() == row@);
            assert(rows@.contains(row)) by {
                assert(rows@[i as int] == row);
            }
        }
        if matches_with_fields(row, pattern, &required) {
            out.push(row);
            proof {
                assert(row_views(out@) =~= row_views(before).push(row@));
            }
        }
        i += 1;
    }
    proof {
        assert(rows@.take(i as int) =~= rows@);
    }
    out
}

/// A strand's header and some of its fields.
#[derive(Debug)]
pub struct ProjectedRow {
    pub signature: [u8; 8],
    pub version: u64,
    pub created_at: u64,
    pub updated_at: u64,
    pub fields: StrMap<Vec<u8>>,
}

/// Whether a map holds the first readable value, among the first `n` introns, of every
/// required field that has one.
pub open spec fn first_values(m: Map<Seq<char>, Vec<u8>>, v: StrandView, required: Set<Seq<char>>, n: nat) -> bool {
    &&& forall|f: Seq<char>| #[trigger]
        m.dom().contains(f) <==> required.contains(f) && values_upto(v, f, n).len() > 0
    &&& forall|f: Seq<char>| #[trigger] m.dom().contains(f) ==> m[f]@ == values_upto(v, f, n)[0]
}

/// Whether a row is the projection of a strand.
pub open spec fn projects(r: ProjectedRow, v: StrandView, required: Set<Seq<char>>) -> bool {
    &&& r.signature == v.signature
    &&& r.version == v.version
    &&& r.created_at == v.created_at
    &&& r.updated_at == v.updated_at
    &&& first_values(r.fields@, v, required, v.introns.len())
}

fn project_row(strand: &Strand, required_fields: &StrSet) -> (r: ProjectedRow)
    ensures
        projects(r, strand@, required_fields@),
{
    let ghost v = strand@;
    let mut fields: StrMap<Vec<u8>> = StrMap::new();
    let mut i: usize = 0;
    while i < strand.introns.len()
        invariant
            0 <= i <= strand.introns@.len(),
            v == strand@,
            first_values(fields@, v, required_fields@, i as nat),
        decreases strand.introns@.len() - i,
    {
        let intron = &strand.introns[i];
        let name = intron.field_name.as_str();
        let ghost before = fields@;
        proof {
            assert(v.introns[i as int] == intron@);
            assert(before.dom().contains(name@) <==> required_fields@.contains(name@) && values_upto(
                v,
                name@,
                i as nat,
            ).len() > 0);
        }
        if required_fields.contains(name) && !fields.contains_key(name) {
            if let Some(b) = intron_payload_bytes(strand, intron) {
                let _ = fields.insert(intron.field_name.clone(), b);
            }
        }
        proof {
            assert forall|f: Seq<char>| #[trigger]
                fields@.dom().contains(f) <==> required_fields@.contains(f) && values_upto(v, f, (i + 1) as nat).len()
                    > 0 by {
                assert(before.dom().contains(f) <==> required_fields@.contains(f) && values_upto(v, f, i as nat).len()
                    > 0);
            }
            assert forall|f: Seq<char>| #[trigger] fields@.dom().contains(f) implies fields@[f]@ == values_upto(
                v,
                f,
                (i + 1) as nat,
            )[0] by {
                assert(before.dom().contains(f) ==> before[f]@ == values_upto(v, f, i as nat)[0]);
            }
        }
        i += 1;
    }
    ProjectedRow {
        signature: strand.signature,
        version: strand.version,
        created_at: strand.created_at,
        updated_at: strand.updated_at,
        fields,
    }
}

/// Projects rows onto the required fields: for each the first readable value.
pub fn project_rows(rows: &[&Strand], required_fields: &StrSet) -> (r: Vec<ProjectedRow>)
    ensures
        r@.len() == rows@.len(),
        forall|i: int| 0 <= i < r@.len() ==> projects(#[trigger] r@[i], rows@[i]@, required_fields@),
{
    let mut out: Vec<ProjectedRow> = Vec::new();
    let mut i: usize = 0;
    while i < rows.len()
        invariant
            0 <= i <= rows@.len(),
            out@.len() == i,
            forall|k: int| 0 <= k < i ==> projects(#[trigger] out@[k], rows@[k]@, required_fields@),
        decreases rows@.len() - i,
    {
        out.push(project_row(rows[i], required_fields));
        i += 1;
    }
    out
}

} // verus!
