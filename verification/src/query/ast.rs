//! The query syntax tree that builders and wire adapters produce.
use vstd::prelude::*;

verus! {

/// Sort direction of an ordering.
#[derive(Debug, Clone, Copy, PartialEq, Eq, Structural)]
pub enum SortDirection {
    Asc,
    Desc,
}

/// Comparison operator of a `where` clause.
#[derive(Debug, Clone, Copy, PartialEq, Eq, Structural)]
pub enum WhereOp {
    Eq,
    Ne,
    Gt,
    Gte,
    Lt,
    Lte,
    Like,
}

/// Literal value of a `where` clause.
#[derive(Debug, PartialEq, Eq)]
pub enum QueryLiteral {
    String(String),
    I64(i64),
    U64(u64),
    /// A 64-bit floating-point number, held as its IEEE 754 bit pattern.
    F64(u64),
    Bool(bool),
}

/// What a [`QueryLiteral`] holds.
pub enum LiteralView {
    String(Seq<char>),
    I64(i64),
    U64(u64),
    F64(u64),
    Bool(bool),
}

impl View for QueryLiteral {
    type V = LiteralView;

    open spec fn view(&self) -> LiteralView {
        match self {
            QueryLiteral::String(s) => LiteralView::String(s@),
            QueryLiteral::I64(v) => LiteralView::I64(*v),
            QueryLiteral::U64(v) => LiteralView::U64(*v),
            QueryLiteral::F64(v) => LiteralView::F64(*v),
            QueryLiteral::Bool(v) => LiteralView::Bool(*v),
        }
    }
}

impl Clone for QueryLiteral {
    fn clone(&self) -> (r: Self)
        ensures
            r@ == self@,
    {
        match self {
            QueryLiteral::String(s) => QueryLiteral::String(s.clone()),
            QueryLiteral::I64(v) => QueryLiteral::I64(*v),
            QueryLiteral::U64(v) => QueryLiteral::U64(*v),
            QueryLiteral::F64(v) => QueryLiteral::F64(*v),
            QueryLiteral::Bool(v) => QueryLiteral::Bool(*v),
        }
    }
}

/// One `where(field, op, value)` constraint.
#[derive(Debug, PartialEq, Eq)]
pub struct WhereClause {
    pub field: String,
    pub op: WhereOp,
    pub value: QueryLiteral,
}

/// Ordering after filtering.
#[derive(Debug, PartialEq, Eq)]
pub struct OrderByClause {
    pub field: String,
    pub direction: SortDirection,
}

/// A query before compilation.
#[derive(Debug, PartialEq, Eq)]
pub struct QueryAst {
    pub collection: String,
    pub wheres: Vec<WhereClause>,
    pub includes: Vec<String>,
    pub order_by: Option<OrderByClause>,
    pub limit: Option<u32>,
}

impl QueryAst {
    /// A query of a whole collection.
    pub fn new(collection: &str) -> (r: Self)
        ensures
            r.collection@ == collection@,
            r.wheres@.len() == 0,
            r.includes@.len() == 0,
            r.order_by is None,
            r.limit is None,
    {
        QueryAst {
            collection: collection.to_owned(),
            wheres: Vec::new(),
            includes: Vec::new(),
            order_by: None,
            limit: None,
        }
    }

    /// Adds a constraint.
    pub fn where_field(self, field: &str, op: WhereOp, value: QueryLiteral) -> (r: Self)
        ensures
            r.wheres@.len() == self.wheres@.len() + 1,
            r.wheres@.drop_last() == self.wheres@,
            r.wheres@.last().field@ == field@,
            r.wheres@.last().op == op,
            r.wheres@.last().value == value,
            r.collection == self.collection,
            r.includes == self.includes,
            r.order_by == self.order_by,
            r.limit == self.limit,
    {
        let mut wheres = self.wheres;
        let ghost before = wheres@;
        wheres.push(WhereClause { field: field.to_owned(), op, value });
        proof {
            assert(wheres@.drop_last() =~= before);
        }
        QueryAst {
            collection: self.collection,
            wheres,
            includes: self.includes,
            order_by: self.order_by,
            limit: self.limit,
        }
    }

    /// Adds a path of related strands to bring along.
    pub fn include_path(self, path: &str) -> (r: Self)
        ensures
            r.includes@.len() == self.includes@.len() + 1,
            r.includes@.drop_last() == self.includes@,
            r.includes@.last()@ == path@,
            r.collection == self.collection,
            r.wheres == self.wheres,
            r.order_by == self.order_by,
            r.limit == self.limit,
    {
        let mut includes = self.includes;
        let ghost before = includes@;
        includes.push(path.to_owned());
        proof {
            assert(includes@.drop_last() =~= before);
        }
        QueryAst {
            collection: self.collection,
            wheres: self.wheres,
            includes,
            order_by: self.order_by,
            limit: self.limit,
        }
    }

    /// Orders the result by `field`.
    pub fn order_by(self, field: &str, direction: SortDirection) -> (r: Self)
        ensures
            r.order_by is Some,
            r.order_by->0.field@ == field@,
            r.order_by->0.direction == direction,
            r.collection == self.collection,
            r.wheres == self.wheres,
            r.includes == self.includes,
            r.limit == self.limit,
    {
        QueryAst {
            collection: self.collection,
            wheres: self.wheres,
            includes: self.includes,
            order_by: Some(OrderByClause { field: field.to_owned(), direction }),
            limit: self.limit,
        }
    }

    /// Keeps at most `n` rows.
    pub fn limit(self, n: u32) -> (r: Self)
        ensures
            r.limit == Some(n),
            r.collection == self.collection,
            r.wheres == self.wheres,
            r.includes == self.includes,
            r.order_by == self.order_by,
    {
        QueryAst {
            collection: self.collection,
            wheres: self.wheres,
            includes: self.includes,
            order_by: self.order_by,
            limit: Some(n),
        }
    }
}

} // verus!
