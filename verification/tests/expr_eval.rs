use minigraf::graph::types::Value;
use minigraf::query::datalog::bindings::Bindings;
use minigraf::query::datalog::expr::{apply_expr_clauses, eval_expr, is_truthy};
use minigraf::query::datalog::types::WhereClause;
use minigraf::query::datalog::types::{BinOp, Expr, UnaryOp};

fn b(pairs: &[(&str, Value)]) -> Bindings {
    let mut out = Bindings::new();
    for (k, v) in pairs {
        out.insert(k.to_string(), v.clone());
    }
    out
}

#[test]
fn test_eval_lit() {
    let e = Expr::Lit(Value::Integer(42));
    assert_eq!(eval_expr(&e, &Bindings::new()), Ok(Value::Integer(42)));
}

#[test]
fn test_eval_var_bound() {
    let e = Expr::Var("?x".to_string());
    let binding = b(&[("?x", Value::Integer(10))]);
    assert_eq!(eval_expr(&e, &binding), Ok(Value::Integer(10)));
}

#[test]
fn test_eval_var_unbound_is_err() {
    let e = Expr::Var("?x".to_string());
    assert_eq!(eval_expr(&e, &Bindings::new()), Err(()));
}

#[test]
fn test_eval_lt_true() {
    let e = Expr::BinOp(
        BinOp::Lt,
        Box::new(Expr::Var("?v".to_string())),
        Box::new(Expr::Lit(Value::Integer(100))),
    );
    let binding = b(&[("?v", Value::Integer(50))]);
    assert_eq!(eval_expr(&e, &binding), Ok(Value::Boolean(true)));
}

#[test]
fn test_eval_lt_false() {
    let e = Expr::BinOp(
        BinOp::Lt,
        Box::new(Expr::Var("?v".to_string())),
        Box::new(Expr::Lit(Value::Integer(100))),
    );
    let binding = b(&[("?v", Value::Integer(150))]);
    assert_eq!(eval_expr(&e, &binding), Ok(Value::Boolean(false)));
}

#[test]
fn test_eval_add_integers() {
    let e = Expr::BinOp(
        BinOp::Add,
        Box::new(Expr::Var("?a".to_string())),
        Box::new(Expr::Var("?b".to_string())),
    );
    let binding = b(&[("?a", Value::Integer(3)), ("?b", Value::Integer(4))]);
    assert_eq!(eval_expr(&e, &binding), Ok(Value::Integer(7)));
}

#[test]
fn test_eval_div_integer_truncates() {
    let e = Expr::BinOp(
        BinOp::Div,
        Box::new(Expr::Lit(Value::Integer(5))),
        Box::new(Expr::Lit(Value::Integer(2))),
    );
    assert_eq!(eval_expr(&e, &Bindings::new()), Ok(Value::Integer(2)));
}

#[test]
fn test_eval_div_by_zero_is_err() {
    let e = Expr::BinOp(
        BinOp::Div,
        Box::new(Expr::Lit(Value::Integer(5))),
        Box::new(Expr::Lit(Value::Integer(0))),
    );
    assert_eq!(eval_expr(&e, &Bindings::new()), Err(()));
}

#[test]
fn test_eval_eq_strings() {
    let e = Expr::BinOp(
        BinOp::Eq,
        Box::new(Expr::Lit(Value::String("Alice".to_string()))),
        Box::new(Expr::Lit(Value::String("Alice".to_string()))),
    );
    assert_eq!(eval_expr(&e, &Bindings::new()), Ok(Value::Boolean(true)));
}

#[test]
fn test_eval_eq_int_float_false() {
    let e = Expr::BinOp(
        BinOp::Eq,
        Box::new(Expr::Lit(Value::Integer(1))),
        Box::new(Expr::Lit(Value::Float("1.0".to_string()))),
    );
    assert_eq!(eval_expr(&e, &Bindings::new()), Ok(Value::Boolean(false)));
}

#[test]
fn test_eval_type_mismatch_comparison_is_err() {
    let e = Expr::BinOp(
        BinOp::Lt,
        Box::new(Expr::Lit(Value::String("hello".to_string()))),
        Box::new(Expr::Lit(Value::Integer(100))),
    );
    assert_eq!(eval_expr(&e, &Bindings::new()), Err(()));
}

#[test]
fn test_eval_string_q_true() {
    let e = Expr::UnaryOp(
        UnaryOp::StringQ,
        Box::new(Expr::Lit(Value::String("hi".to_string()))),
    );
    assert_eq!(eval_expr(&e, &Bindings::new()), Ok(Value::Boolean(true)));
}

#[test]
fn test_eval_string_q_false() {
    let e = Expr::UnaryOp(UnaryOp::StringQ, Box::new(Expr::Lit(Value::Integer(1))));
    assert_eq!(eval_expr(&e, &Bindings::new()), Ok(Value::Boolean(false)));
}

#[test]
fn test_eval_starts_with_true() {
    let e = Expr::BinOp(
        BinOp::StartsWith,
        Box::new(Expr::Lit(Value::String("foobar".to_string()))),
        Box::new(Expr::Lit(Value::String("foo".to_string()))),
    );
    assert_eq!(eval_expr(&e, &Bindings::new()), Ok(Value::Boolean(true)));
}

#[test]
fn test_eval_ends_with_true() {
    let e = Expr::BinOp(
        BinOp::EndsWith,
        Box::new(Expr::Lit(Value::String("foobar".to_string()))),
        Box::new(Expr::Lit(Value::String("bar".to_string()))),
    );
    assert_eq!(eval_expr(&e, &Bindings::new()), Ok(Value::Boolean(true)));
}

#[test]
fn test_eval_contains_true() {
    let e = Expr::BinOp(
        BinOp::Contains,
        Box::new(Expr::Lit(Value::String("engineer at co".to_string()))),
        Box::new(Expr::Lit(Value::String("engineer".to_string()))),
    );
    assert_eq!(eval_expr(&e, &Bindings::new()), Ok(Value::Boolean(true)));
}

#[test]
fn test_is_truthy() {
    assert!(is_truthy(&Value::Boolean(true)));
    assert!(!is_truthy(&Value::Boolean(false)));
    assert!(is_truthy(&Value::Integer(1)));
    assert!(!is_truthy(&Value::Integer(0)));
    assert!(is_truthy(&Value::Float("0.1".to_string())));
    assert!(!is_truthy(&Value::Float("0.0".to_string())));
    assert!(!is_truthy(&Value::Null));
    assert!(!is_truthy(&Value::String("hi".to_string())));
}

#[test]
fn test_eval_float_div_by_zero_is_err() {
    let e = Expr::BinOp(
        BinOp::Div,
        Box::new(Expr::Lit(Value::Float("5.0".to_string()))),
        Box::new(Expr::Lit(Value::Float("0.0".to_string()))),
    );
    assert_eq!(eval_expr(&e, &Bindings::new()), Err(()));
}

#[test]
fn eval_nested_arithmetic_exact_value() {
    // (- (* ?a 3) 4) with ?a = 5 is 11
    let e = Expr::BinOp(
        BinOp::Sub,
        Box::new(Expr::BinOp(
            BinOp::Mul,
            Box::new(Expr::Var("?a".to_string())),
            Box::new(Expr::Lit(Value::Integer(3))),
        )),
        Box::new(Expr::Lit(Value::Integer(4))),
    );
    let binding = b(&[("?a", Value::Integer(5))]);
    assert_eq!(eval_expr(&e, &binding), Ok(Value::Integer(11)));
}

#[test]
fn eval_negative_division_truncates_toward_zero() {
    let e = Expr::BinOp(
        BinOp::Div,
        Box::new(Expr::Lit(Value::Integer(-7))),
        Box::new(Expr::Lit(Value::Integer(2))),
    );
    assert_eq!(eval_expr(&e, &Bindings::new()), Ok(Value::Integer(-3)));
}

#[test]
fn test_apply_expr_filter_keeps_truthy() {
    let expr = Expr::BinOp(BinOp::Lt, Box::new(Expr::Var("?v".to_string())), Box::new(Expr::Lit(Value::Integer(100))));
    let clauses = vec![WhereClause::Expr { expr, binding: None }];
    let bindings = vec![b(&[("?v", Value::Integer(50))]), b(&[("?v", Value::Integer(150))])];
    let result = apply_expr_clauses(bindings, &clauses);
    assert_eq!(result.len(), 1);
    assert_eq!(result[0].get("?v"), Some(&Value::Integer(50)));
}

#[test]
fn test_apply_expr_binding_extends_row() {
    let expr = Expr::BinOp(BinOp::Add, Box::new(Expr::Var("?a".to_string())), Box::new(Expr::Var("?b".to_string())));
    let clauses = vec![WhereClause::Expr { expr, binding: Some("?sum".to_string()) }];
    let bindings = vec![b(&[("?a", Value::Integer(3)), ("?b", Value::Integer(4))])];
    let result = apply_expr_clauses(bindings, &clauses);
    assert_eq!(result.len(), 1);
    assert_eq!(result[0].get("?sum"), Some(&Value::Integer(7)));
}

#[test]
fn test_apply_expr_type_mismatch_drops_row() {
    let expr = Expr::BinOp(BinOp::Lt, Box::new(Expr::Var("?v".to_string())), Box::new(Expr::Lit(Value::Integer(100))));
    let clauses = vec![WhereClause::Expr { expr, binding: None }];
    let bindings = vec![b(&[("?v", Value::String("hello".to_string()))])];
    let result = apply_expr_clauses(bindings, &clauses);
    assert_eq!(result.len(), 0);
}
