use dnadb_engine::query::compile::compile_query;
use dnadb_engine::query::ast::{QueryAst, QueryLiteral, SortDirection, WhereOp};
use dnadb_engine::query::guide::{Clause, RangeOp};
use dnadb_engine::query::literal::read_literal;

#[test]
fn compiles_email_eq_and_age_gt() {
    let ast = QueryAst::new("users")
        .where_field(
            "email",
            WhereOp::Eq,
            QueryLiteral::String("alice@example.com".into()),
        )
        .where_field("age", WhereOp::Gt, QueryLiteral::I64(25))
        .include_path("orders");

    let guide = compile_query(&ast, Some("admin".into())).expect("compile");

    assert_eq!(guide.collection, "users");
    assert_eq!(guide.overlay.as_deref(), Some("admin"));
    assert_eq!(guide.includes, vec!["orders".to_string()]);
    assert_eq!(guide.clauses.len(), 2);

    match &guide.clauses[0] {
        Clause::ExactMatch {
            field_intron,
            operand_wire,
            operand_codons,
        } => {
            assert_eq!(field_intron, "email");
            let lit: QueryLiteral = read_literal(operand_wire).expect("wire");
            assert_eq!(
                lit,
                QueryLiteral::String("alice@example.com".into())
            );
            assert_eq!(operand_codons.original_len, operand_wire.len());
        }
        _ => panic!("expected ExactMatch"),
    }

    match &guide.clauses[1] {
        Clause::RangeMatch {
            field_intron,
            operator,
            operand_wire,
            ..
        } => {
            assert_eq!(field_intron, "age");
            assert_eq!(*operator, RangeOp::GreaterThan);
            let lit: QueryLiteral = read_literal(operand_wire).expect("wire");
            assert_eq!(lit, QueryLiteral::I64(25));
        }
        _ => panic!("expected RangeMatch"),
    }
}

#[test]
fn compiles_like_clause() {
    let ast = QueryAst::new("users").where_field(
        "email",
        WhereOp::Like,
        QueryLiteral::String("%@gmail.com".into()),
    );
    let guide = compile_query(&ast, None).expect("compile");
    match &guide.clauses[0] {
        Clause::LikePattern {
            field_intron,
            pattern,
        } => {
            assert_eq!(field_intron, "email");
            assert_eq!(pattern, "%@gmail.com");
        }
        _ => panic!("expected LikePattern"),
    }
}

#[test]
fn rejects_empty_collection() {
    let ast = QueryAst {
        collection: String::new(),
        wheres: vec![],
        includes: vec![],
        order_by: None,
        limit: None,
    };
    assert!(compile_query(&ast, None).is_err());
}

#[test]
fn order_by_and_limit_round_trip() {
    let ast = QueryAst::new("orders")
        .order_by("created_at", SortDirection::Desc)
        .limit(50);
    let guide = compile_query(&ast, None).expect("compile");
    assert_eq!(
        guide.order_by,
        Some(("created_at".into(), SortDirection::Desc))
    );
    assert_eq!(guide.limit, Some(50));
}
