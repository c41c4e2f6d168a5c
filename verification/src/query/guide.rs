//! The compiled query: clauses over intron fields and their encoded operands.
use super::ast::SortDirection;
use crate::encoding::EncodedPayload;
use crate::model::Codon;
use crate::support::bytes::copy_bytes;
use crate::support::text::{clone_strings, texts};
use vstd::prelude::*;

verus! {

/// Range comparison of a compiled clause.
#[derive(Debug, Clone, Copy, PartialEq, Eq, Structural)]
pub enum RangeOp {
    GreaterThan,
    GreaterOrEqual,
    LessThan,
    LessOrEqual,
    NotEqual,
}

/// A compiled clause against intron metadata and payload encoding.
#[derive(Debug, PartialEq, Eq)]
pub enum Clause {
    /// The field equals the operand.
    ExactMatch {
        field_intron: String,
        /// Serialized literal.
        operand_wire: Vec<u8>,
        /// The same bytes as codons.
        operand_codons: EncodedPayload,
    },
    /// The field compares to the operand.
    RangeMatch {
        field_intron: String,
        operator: RangeOp,
        operand_wire: Vec<u8>,
        operand_codons: EncodedPayload,
    },
    /// The field matches an SQL `LIKE` pattern.
    LikePattern { field_intron: String, pattern: String },
}

/// What a [`Clause`] holds.
pub enum ClauseView {
    Exact { field: Seq<char>, wire: Seq<u8>, codons: Seq<Codon>, original_len: usize },
    Range { field: Seq<char>, op: RangeOp, wire: Seq<u8>, codons: Seq<Codon>, original_len: usize },
    Like { field: Seq<char>, pattern: Seq<char> },
}

impl ClauseView {
    /// The field that the clause constrains.
    pub open spec fn field(self) -> Seq<char> {
        match self {
            ClauseView::Exact { field, .. } => field,
            ClauseView::Range { field, .. } => field,
            ClauseView::Like { field, .. } => field,
        }
    }
}

impl View for Clause {
    type V = ClauseView;

    open spec fn view(&self) -> ClauseView {
        match self {
            Clause::ExactMatch { field_intron, operand_wire, operand_codons } => ClauseView::Exact {
                field: field_intron@,
                wire: operand_wire@,
                codons: operand_codons.codons@,
                original_len: operand_codons.original_len,
            },
            Clause::RangeMatch { field_intron, operator, operand_wire, operand_codons } => ClauseView::Range {
                field: field_intron@,
                op: *operator,
                wire: operand_wire@,
                codons: operand_codons.codons@,
                original_len: operand_codons.original_len,
            },
            Clause::LikePattern { field_intron, pattern } => ClauseView::Like {
                field: field_intron@,
                pattern: pattern@,
            },
        }
    }
}

impl Clause {
    /// The field that the clause constrains.
    pub fn field(&self) -> (r: &String)
        ensures
            r@ == self@.field(),
    {
        match self {
            Clause::ExactMatch { field_intron, .. } => field_intron,
            Clause::RangeMatch { field_intron, .. } => field_intron,
            Clause::LikePattern { field_intron, .. } => field_intron,
        }
    }
}

impl Clone for Clause {
    fn clone(&self) -> (r: Self)
        ensures
            r@ == self@,
    {
        match self {
            Clause::ExactMatch { field_intron, operand_wire, operand_codons } => Clause::ExactMatch {
                field_intron: field_intron.clone(),
                operand_wire: copy_bytes(operand_wire.as_slice()),
                operand_codons: operand_codons.clone(),
            },
            Clause::RangeMatch { field_intron, operator, operand_wire, operand_codons } => Clause::RangeMatch {
                field_intron: field_intron.clone(),
                operator: *operator,
                operand_wire: copy_bytes(operand_wire.as_slice()),
                operand_codons: operand_codons.clone(),
            },
            Clause::LikePattern { field_intron, pattern } => Clause::LikePattern {
                field_intron: field_intron.clone(),
                pattern: pattern.clone(),
            },
        }
    }
}

/// What a sequence of clauses holds.
pub open spec fn clause_views(s: Seq<Clause>) -> Seq<ClauseView> {
    Seq::new(s.len(), |i: int| s[i]@)
}

/// The compiled query.
#[derive(Debug, PartialEq, Eq)]
pub struct GuidePattern {
    pub collection: String,
    pub clauses: Vec<Clause>,
    pub includes: Vec<String>,
    /// Overlay of the caller; `None` while none is resolved.
    pub overlay: Option<String>,
    pub order_by: Option<(String, SortDirection)>,
    pub limit: Option<u32>,
}

/// What a [`GuidePattern`] holds.
pub struct GuideView {
    pub collection: Seq<char>,
    pub clauses: Seq<ClauseView>,
    pub includes: Seq<Seq<char>>,
    pub overlay: Option<Seq<char>>,
    pub order_by: Option<(Seq<char>, SortDirection)>,
    pub limit: Option<u32>,
}

impl View for GuidePattern {
    type V = GuideView;

    open spec fn view(&self) -> GuideView {
        GuideView {
            collection: self.collection@,
            clauses: clause_views(self.clauses@),
            includes: texts(self.includes@),
            overlay: match self.overlay {
                Some(s) => Some(s@),
                None => None,
            },
            order_by: match self.order_by {
                Some((f, d)) => Some((f@, d)),
                None => None,
            },
            limit: self.limit,
        }
    }
}

impl Clone for GuidePattern {
    fn clone(&self) -> (r: Self)
        ensures
            r@ == self@,
    {
        let mut clauses: Vec<Clause> = Vec::new();
        let mut i: usize = 0;
        while i < self.clauses.len()
            invariant
                0 <= i <= self.clauses@.len(),
                clauses@.len() == i,
                forall|k: int| 0 <= k < i ==> (#[trigger] clauses@[k])@ == self.clauses@[k]@,
            decreases self.clauses@.len() - i,
        {
            clauses.push(self.clauses[i].clone());
            i += 1;
        }
        let overlay = match &self.overlay {
            Some(s) => Some(s.clone()),
            None => None,
        };
        let order_by = match &self.order_by {
            Some(p) => Some((p.0.clone(), p.1)),
            None => None,
        };
        let r = GuidePattern {
            collection: self.collection.clone(),
            clauses,
            includes: clone_strings(&self.includes),
            overlay,
            order_by,
            limit: self.limit,
        };
        proof {
            assert(r@.clauses =~= self@.clauses);
            assert(r@.includes =~= self@.includes);
        }
        r
    }
}

} // verus!
