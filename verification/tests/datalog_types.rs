use minigraf::graph::types::Value;
use minigraf::query::datalog::types::{AggFunc, BinOp, Expr, FindSpec, UnaryOp};

#[test]
fn test_agg_func_as_str() {
    assert_eq!(AggFunc::Count.as_str(), "count");
    assert_eq!(AggFunc::CountDistinct.as_str(), "count-distinct");
    assert_eq!(AggFunc::Sum.as_str(), "sum");
    assert_eq!(AggFunc::SumDistinct.as_str(), "sum-distinct");
    assert_eq!(AggFunc::Min.as_str(), "min");
    assert_eq!(AggFunc::Max.as_str(), "max");
}

#[test]
fn test_find_spec_variable_display_and_var() {
    let spec = FindSpec::Variable("?name".to_string());
    assert_eq!(spec.display_name(), "?name");
    assert_eq!(spec.var(), "?name");
}

#[test]
fn test_find_spec_aggregate_display_and_var() {
    let spec = FindSpec::Aggregate {
        func: AggFunc::CountDistinct,
        var: "?e".to_string(),
    };
    assert_eq!(spec.display_name(), "(count-distinct ?e)");
    assert_eq!(spec.var(), "?e");
}

#[test]
fn test_find_spec_all_agg_display_names() {
    let cases = [
        (AggFunc::Count, "?e", "(count ?e)"),
        (AggFunc::CountDistinct, "?e", "(count-distinct ?e)"),
        (AggFunc::Sum, "?v", "(sum ?v)"),
        (AggFunc::SumDistinct, "?v", "(sum-distinct ?v)"),
        (AggFunc::Min, "?x", "(min ?x)"),
        (AggFunc::Max, "?x", "(max ?x)"),
    ];
    for (func, var, expected) in cases {
        let spec = FindSpec::Aggregate {
            func,
            var: var.to_string(),
        };
        assert_eq!(spec.display_name(), expected);
    }
}

#[test]
fn test_binop_variants_exist() {
    let _ = BinOp::Lt;
    let _ = BinOp::Gt;
    let _ = BinOp::Lte;
    let _ = BinOp::Gte;
    let _ = BinOp::Eq;
    let _ = BinOp::Neq;
    let _ = BinOp::Add;
    let _ = BinOp::Sub;
    let _ = BinOp::Mul;
    let _ = BinOp::Div;
    let _ = BinOp::StartsWith;
    let _ = BinOp::EndsWith;
    let _ = BinOp::Contains;
    let _ = BinOp::Matches;
}

#[test]
fn test_unary_op_variants_exist() {
    let _ = UnaryOp::StringQ;
    let _ = UnaryOp::IntegerQ;
    let _ = UnaryOp::FloatQ;
    let _ = UnaryOp::BooleanQ;
    let _ = UnaryOp::NilQ;
}

#[test]
fn test_expr_var_and_lit() {
    let e = Expr::Var("?x".to_string());
    assert!(matches!(e, Expr::Var(_)));
    let l = Expr::Lit(Value::Integer(42));
    assert!(matches!(l, Expr::Lit(_)));
}

#[test]
fn test_expr_binop_nested() {
    let e = Expr::BinOp(
        BinOp::Add,
        Box::new(Expr::Var("?a".to_string())),
        Box::new(Expr::Lit(Value::Integer(1))),
    );
    assert!(matches!(e, Expr::BinOp(BinOp::Add, _, _)));
}
