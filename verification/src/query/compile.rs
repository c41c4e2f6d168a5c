//! Compiles a query syntax tree into a guide pattern.
use super::ast::{LiteralView, QueryAst, QueryLiteral, SortDirection, WhereClause, WhereOp};
use super::guide::{Clause, ClauseView, GuidePattern, GuideView, RangeOp};
use super::literal::{literal_bytes, literal_wire};
use crate::encoding::{codons_of, encode_bytes_to_codons, EncodedPayload};
use crate::support::text::{clone_strings, join2, texts};
use vstd::prelude::*;

verus! {

/// Why a query could not be compiled.
#[derive(Debug)]
pub enum CompileError {
    /// The collection name is empty.
    EmptyCollection,
    /// `LIKE` with something other than a text; names the field.
    UnsupportedOperator(String),
    /// A literal could not be serialized.
    Serialize(bincode::Error),
}

/// The codons of a serialized operand.
pub fn wire_to_codons(wire: &[u8]) -> (r: EncodedPayload)
    ensures
        r.encodes(wire@),
{
    encode_bytes_to_codons(wire)
}

/// The range comparison of an operator, where it is one.
pub open spec fn range_op(op: WhereOp) -> RangeOp {
    match op {
        WhereOp::Ne => RangeOp::NotEqual,
        WhereOp::Gt => RangeOp::GreaterThan,
        WhereOp::Gte => RangeOp::GreaterOrEqual,
        WhereOp::Lt => RangeOp::LessThan,
        _ => RangeOp::LessOrEqual,
    }
}

/// The clause that a constraint compiles to; nothing for `LIKE` without a text.
pub open spec fn clause_of(field: Seq<char>, op: WhereOp, value: LiteralView) -> Option<ClauseView> {
    let wire = literal_bytes(value);
    match op {
        WhereOp::Eq => Some(
            ClauseView::Exact {
                field,
                wire,
                codons: codons_of(wire),
                original_len: wire.len() as usize,
            },
        ),
        WhereOp::Like => match value {
            LiteralView::String(s) => Some(ClauseView::Like { field, pattern: s }),
            _ => None,
        },
        _ => Some(
            ClauseView::Range {
                field,
                op: range_op(op),
                wire,
                codons: codons_of(wire),
                original_len: wire.len() as usize,
            },
        ),
    }
}

/// The clause that the `i`-th constraint of a query compiles to.
pub open spec fn nth_clause(ast: QueryAst, i: int) -> Option<ClauseView> {
    clause_of(ast.wheres@[i].field@, ast.wheres@[i].op, ast.wheres@[i].value@)
}

/// Whether constraint `i` is the first one that cannot be compiled.
pub open spec fn first_refused(ast: QueryAst, i: int) -> bool {
    &&& 0 <= i < ast.wheres@.len()
    &&& nth_clause(ast, i) is None
    &&& forall|j: int| 0 <= j < i ==> #[trigger] nth_clause(ast, j) is Some
}

/// Whether `g` is the compiled form of `ast` under `overlay`.
pub open spec fn compiled(ast: QueryAst, overlay: Option<Seq<char>>, g: GuideView) -> bool {
    &&& g.collection == ast.collection@
    &&& g.clauses.len() == ast.wheres@.len()
    &&& forall|i: int| 0 <= i < ast.wheres@.len() ==> nth_clause(ast, i) == Some(#[trigger] g.clauses[i])
    &&& g.includes == texts(ast.includes@)
    &&& g.overlay == overlay
    &&& g.order_by == match ast.order_by {
        Some(o) => Some((o.field@, o.direction)),
        None => None::<(Seq<char>, SortDirection)>,
    }
    &&& g.limit == ast.limit
}

fn range_clause(field: String, operator: RangeOp, wire: Vec<u8>) -> (r: Clause)
    ensures
        r@ == (ClauseView::Range {
            field: field@,
            op: operator,
            wire: wire@,
            codons: codons_of(wire@),
            original_len: wire@.len() as usize,
        }),
{
    let operand_codons = wire_to_codons(wire.as_slice());
    Clause::RangeMatch { field_intron: field, operator, operand_wire: wire, operand_codons }
}

/// The clause of one constraint.
fn compile_where(w: &WhereClause) -> (r: Result<Clause, CompileError>)
    ensures
        match (r, clause_of(w.field@, w.op, w.value@)) {
            (Ok(c), Some(v)) => c@ == v,
            (Err(CompileError::UnsupportedOperator(m)), None) => m@ == w.field@
                + " (LIKE requires string literal)"@,
            _ => false,
        },
{
    let field = w.field.clone();
    if let WhereOp::Like = w.op {
        return match &w.value {
            QueryLiteral::String(s) => Ok(
                Clause::LikePattern { field_intron: field, pattern: s.clone() },
            ),
            _ => Err(
                CompileError::UnsupportedOperator(
                    join2(w.field.as_str(), " (LIKE requires string literal)"),
                ),
            ),
        };
    }
    let wire = match literal_wire(&w.value) {
        Ok(x) => x,
        Err(e) => {
            return Err(CompileError::Serialize(e));
        },
    };
    match w.op {
        WhereOp::Eq => {
            let operand_codons = wire_to_codons(wire.as_slice());
            Ok(Clause::ExactMatch { field_intron: field, operand_wire: wire, operand_codons })
        },
        WhereOp::Ne => Ok(range_clause(field, RangeOp::NotEqual, wire)),
        WhereOp::Gt => Ok(range_clause(field, RangeOp::GreaterThan, wire)),
        WhereOp::Gte => Ok(range_clause(field, RangeOp::GreaterOrEqual, wire)),
        WhereOp::Lt => Ok(range_clause(field, RangeOp::LessThan, wire)),
        _ => Ok(range_clause(field, RangeOp::LessOrEqual, wire)),
    }
}

/// Turns a query into a guide pattern.
///
/// An empty collection name is refused; so is `LIKE` without a text, and the error names the
/// first field where that happens. Everything else compiles.
pub fn compile_query(ast: &QueryAst, overlay: Option<String>) -> (r: Result<GuidePattern, CompileError>)
    ensures
        match r {
            Ok(g) => ast.collection@.len() > 0 && compiled(
                *ast,
                match overlay {
                    Some(s) => Some(s@),
                    None => None,
                },
                g@,
            ),
            Err(CompileError::EmptyCollection) => ast.collection@.len() == 0,
            Err(CompileError::UnsupportedOperator(m)) => ast.collection@.len() > 0 && exists|i: int|
                #[trigger] first_refused(*ast, i) && m@ == ast.wheres@[i].field@
                    + " (LIKE requires string literal)"@,
            Err(CompileError::Serialize(_)) => false,
        },
{
    if ast.collection.as_str().is_empty() {
        return Err(CompileError::EmptyCollection);
    }
    let mut clauses: Vec<Clause> = Vec::new();
    let mut i: usize = 0;
    while i < ast.wheres.len()
        invariant
            0 <= i <= ast.wheres@.len(),
            clauses@.len() == i,
            ast.collection@.len() > 0,
            forall|k: int| 0 <= k < i ==> #[trigger] nth_clause(*ast, k) == Some(clauses@[k]@),
        decreases ast.wheres@.len() - i,
    {
        match compile_where(&ast.wheres[i]) {
            Ok(c) => {
                proof {
                    assert(nth_clause(*ast, i as int) == Some(c@));
                }
                clauses.push(c);
            },
            Err(e) => {
                proof {
                    assert(first_refused(*ast, i as int));
                }
                return Err(e);
            },
        }
        i += 1;
    }
    let order_by = match &ast.order_by {
        Some(o) => Some((o.field.clone(), o.direction)),
        None => None,
    };
    let g = GuidePattern {
        collection: ast.collection.clone(),
        clauses,
        includes: clone_strings(&ast.includes),
        overlay,
        order_by,
        limit: ast.limit,
    };
    proof {
        assert forall|k: int| 0 <= k < ast.wheres@.len() implies nth_clause(*ast, k) == Some(
            #[trigger] g@.clauses[k],
        ) by {
            assert(nth_clause(*ast, k) == Some(g.clauses@[k]@));
        }
    }
    Ok(g)
}

/// Every equality and range clause of a compiled query carries its literal: reading the
/// operand's bytes gives the literal of the constraint back.
pub proof fn law_operands_carry_their_literals(
    ast: QueryAst,
    overlay: Option<Seq<char>>,
    g: GuideView,
    i: int,
)
    requires
        compiled(ast, overlay, g),
        0 <= i < ast.wheres@.len(),
        ast.wheres@[i].value@ matches LiteralView::String(s) ==> vstd::utf8::encode_utf8(s).len()
            <= u64::MAX,
    ensures
        g.clauses[i] matches ClauseView::Exact { wire, .. } ==> super::literal::literal_of(wire)
            == Some(ast.wheres@[i].value@),
        g.clauses[i] matches ClauseView::Range { wire, .. } ==> super::literal::literal_of(wire)
            == Some(ast.wheres@[i].value@),
{
    assert(nth_clause(ast, i) == Some(g.clauses[i]));
    super::literal::law_literal_round_trip(ast.wheres@[i].value@);
}

} // verus!
