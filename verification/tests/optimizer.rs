use minigraf::graph::types::Value;
use minigraf::query::datalog::optimizer::{
    branch_cost, clause_cost, expr_vars, pattern_cost, plan, select_index, IndexHint,
};
use minigraf::query::datalog::types::{BinOp, EdnValue, Expr, Pattern, UnaryOp, WhereClause};

fn var(s: &str) -> EdnValue {
    EdnValue::Symbol(format!("?{s}"))
}
fn kw(s: &str) -> EdnValue {
    EdnValue::Keyword(s.to_string())
}

#[test]
fn test_expr_vars_var() {
    let e = Expr::Var("?age".to_string());
    assert_eq!(expr_vars(&e), vec!["?age".to_string()]);
}

#[test]
fn test_expr_vars_lit_is_empty() {
    let e = Expr::Lit(Value::Integer(42));
    assert!(expr_vars(&e).is_empty());
}

#[test]
fn test_expr_vars_binop() {
    let e = Expr::BinOp(
        BinOp::Gt,
        Box::new(Expr::Var("?age".to_string())),
        Box::new(Expr::Lit(Value::Integer(30))),
    );
    assert_eq!(expr_vars(&e), vec!["?age".to_string()]);
}

#[test]
fn test_expr_vars_nested_binop_collects_all() {
    let e = Expr::BinOp(
        BinOp::Gt,
        Box::new(Expr::BinOp(
            BinOp::Add,
            Box::new(Expr::Var("?a".to_string())),
            Box::new(Expr::Var("?b".to_string())),
        )),
        Box::new(Expr::Var("?c".to_string())),
    );
    let vars = expr_vars(&e);
    assert!(vars.contains(&"?a".to_string()));
    assert!(vars.contains(&"?b".to_string()));
    assert!(vars.contains(&"?c".to_string()));
    assert_eq!(vars.len(), 3);
}

#[test]
fn test_expr_vars_unary_op() {
    let e = Expr::UnaryOp(UnaryOp::IntegerQ, Box::new(Expr::Var("?v".to_string())));
    assert_eq!(expr_vars(&e), vec!["?v".to_string()]);
}

#[test]
fn select_index_table() {
    let p = Pattern::new(EdnValue::Uuid(7), var("a"), var("v"));
    assert_eq!(select_index(&p), IndexHint::Eavt);
    let p = Pattern::new(var("e"), kw(":name"), EdnValue::String("Alice".into()));
    assert_eq!(select_index(&p), IndexHint::Avet);
    let p = Pattern::new(var("e"), kw(":name"), var("v"));
    assert_eq!(select_index(&p), IndexHint::Aevt);
    let p = Pattern::new(var("e"), var("a"), EdnValue::Uuid(9));
    assert_eq!(select_index(&p), IndexHint::Vaet);
    let p = Pattern::new(var("e"), var("a"), var("v"));
    assert_eq!(select_index(&p), IndexHint::Eavt);
}

#[test]
fn plan_orders_by_selectivity_and_places_exprs() {
    let p1 = Pattern::new(var("e"), kw(":age"), var("a"));
    let p2 = Pattern::new(EdnValue::Uuid(1), kw(":name"), var("v"));
    let filter = WhereClause::Expr {
        expr: Expr::BinOp(
            BinOp::Gt,
            Box::new(Expr::Var("?a".to_string())),
            Box::new(Expr::Lit(Value::Integer(3))),
        ),
        binding: None,
    };
    let planned = plan(vec![
        filter,
        WhereClause::Pattern(p1),
        WhereClause::Pattern(p2),
    ]);
    assert_eq!(planned.len(), 3);
    match &planned[0] {
        (WhereClause::Pattern(p), Some(IndexHint::Eavt)) => assert_eq!(p.attribute, kw(":name")),
        other => panic!("unexpected first entry {other:?}"),
    }
    match &planned[1] {
        (WhereClause::Pattern(p), Some(IndexHint::Aevt)) => assert_eq!(p.attribute, kw(":age")),
        other => panic!("unexpected second entry {other:?}"),
    }
    assert!(matches!(planned[2], (WhereClause::Expr { .. }, None)));
}

#[test]
fn costs_follow_bound_components() {
    let p3 = Pattern::new(EdnValue::Uuid(1), kw(":a"), EdnValue::Integer(1));
    let p0 = Pattern::new(var("e"), var("a"), var("v"));
    let body = vec![WhereClause::Pattern(p0), WhereClause::Pattern(p3)];
    assert_eq!(branch_cost(&body), 1);
    assert_eq!(branch_cost(&[]), 0);
    let or = WhereClause::Or(vec![body, vec![]]);
    assert_eq!(clause_cost(&or), 1);
    let inv = WhereClause::RuleInvocation { predicate: "r".into(), args: vec![] };
    assert_eq!(clause_cost(&inv), u64::MAX);
}

fn str_val(s: &str) -> EdnValue {
    EdnValue::String(s.to_string())
}

fn entity_lit() -> EdnValue {
    EdnValue::Uuid(uuid::Uuid::new_v4().as_u128())
}

fn pattern(e: EdnValue, a: EdnValue, v: EdnValue) -> Pattern {
    Pattern::new(e, a, v)
}

#[test]
fn test_entity_bound_selects_eavt() {
    let p = pattern(entity_lit(), var("a"), var("v"));
    assert_eq!(select_index(&p), IndexHint::Eavt);
}

#[test]
fn test_entity_and_attr_bound_selects_eavt() {
    let p = pattern(entity_lit(), kw(":name"), var("v"));
    assert_eq!(select_index(&p), IndexHint::Eavt);
}

#[test]
fn test_attr_and_value_bound_selects_avet() {
    let p = pattern(var("e"), kw(":name"), str_val("Alice"));
    assert_eq!(select_index(&p), IndexHint::Avet);
}

#[test]
fn test_attr_and_ref_bound_selects_avet() {
    let p = pattern(var("e"), kw(":friend"), entity_lit());
    assert_eq!(select_index(&p), IndexHint::Avet);
}

#[test]
fn test_attr_only_selects_aevt() {
    let p = pattern(var("e"), kw(":name"), var("v"));
    assert_eq!(select_index(&p), IndexHint::Aevt);
}

#[test]
fn test_ref_only_selects_vaet() {
    let p = pattern(var("e"), var("a"), entity_lit());
    assert_eq!(select_index(&p), IndexHint::Vaet);
}

#[test]
fn test_nothing_bound_selects_eavt_full_scan() {
    let p = pattern(var("e"), var("a"), var("v"));
    assert_eq!(select_index(&p), IndexHint::Eavt);
}

#[test]
fn test_join_ordering_moves_selective_pattern_first() {
    let p1 = pattern(var("e"), kw(":age"), var("a"));
    let p2 = pattern(entity_lit(), kw(":name"), var("v"));
    let p1_attr = p1.attribute.clone();
    let p2_attr = p2.attribute.clone();
    let planned = plan(vec![WhereClause::Pattern(p1), WhereClause::Pattern(p2)]);
    let first_attr = match &planned[0].0 {
        WhereClause::Pattern(p) => p.attribute.clone(),
        _ => panic!("expected Pattern at index 0"),
    };
    let second_attr = match &planned[1].0 {
        WhereClause::Pattern(p) => p.attribute.clone(),
        _ => panic!("expected Pattern at index 1"),
    };
    assert_ne!(first_attr, p1_attr, "Lower-selectivity pattern must not be first");
    assert_eq!(first_attr, p2_attr, "Higher-selectivity pattern must be first");
    assert_eq!(second_attr, p1_attr, "Lower-selectivity pattern must be second");
}

#[test]
fn test_plan_pattern_carries_some_hint() {
    let p = WhereClause::Pattern(pattern(var("e"), kw(":val"), var("v")));
    let planned = plan(vec![p]);
    assert!(planned[0].1.is_some(), "Pattern entry must carry Some(IndexHint)");
}

#[test]
fn test_plan_expr_carries_none_hint() {
    let p = WhereClause::Pattern(pattern(var("e"), kw(":val"), var("v")));
    let expr = WhereClause::Expr { expr: Expr::Lit(Value::Boolean(true)), binding: None };
    let planned = plan(vec![p, expr]);
    let expr_entry = planned.iter().find(|(c, _)| matches!(c, WhereClause::Expr { .. }));
    assert!(expr_entry.is_some());
    assert!(expr_entry.unwrap().1.is_none(), "Expr entry must carry None hint");
}

#[test]
fn test_expr_pushed_after_binding_pattern() {
    let p1 = WhereClause::Pattern(pattern(var("e"), kw(":name"), var("n")));
    let p2 = WhereClause::Pattern(pattern(var("e"), kw(":val"), var("v")));
    let p3 = WhereClause::Pattern(pattern(var("e"), kw(":dept"), var("d")));
    let expr = WhereClause::Expr {
        expr: Expr::BinOp(
            BinOp::Gt,
            Box::new(Expr::Var("?v".to_string())),
            Box::new(Expr::Lit(Value::Integer(30))),
        ),
        binding: None,
    };
    let planned = plan(vec![p1, p2, p3, expr]);
    assert_eq!(planned.len(), 4);
    assert!(matches!(planned[2].0, WhereClause::Expr { .. }), "Expr must be at index 2");
    assert!(matches!(planned[3].0, WhereClause::Pattern(_)), "p3 must be at index 3");
}

#[test]
fn test_expr_no_vars_goes_to_end() {
    let p1 = WhereClause::Pattern(pattern(var("e"), kw(":val"), var("v")));
    let expr = WhereClause::Expr { expr: Expr::Lit(Value::Boolean(true)), binding: None };
    let planned = plan(vec![p1, expr]);
    assert_eq!(planned.len(), 2);
    assert!(matches!(planned[1].0, WhereClause::Expr { .. }), "no-var Expr must be last");
}

#[test]
fn test_expr_unbound_var_goes_to_end() {
    let p1 = WhereClause::Pattern(pattern(var("e"), kw(":val"), var("v")));
    let expr = WhereClause::Expr {
        expr: Expr::BinOp(
            BinOp::Gt,
            Box::new(Expr::Var("?x".to_string())),
            Box::new(Expr::Lit(Value::Integer(0))),
        ),
        binding: None,
    };
    let planned = plan(vec![p1, expr]);
    assert_eq!(planned.len(), 2);
    assert!(matches!(planned[1].0, WhereClause::Expr { .. }), "Expr with unbound var must be last");
}

fn name_alice() -> Pattern {
    pattern(var("e"), kw(":person/name"), str_val("Alice"))
}

fn full_scan() -> Pattern {
    pattern(var("x"), var("a"), var("v"))
}

#[test]
fn test_pattern_cost_fully_bound() {
    let p = pattern(entity_lit(), kw(":person/name"), str_val("Alice"));
    assert_eq!(pattern_cost(&p), 1);
}

#[test]
fn test_pattern_cost_two_bound() {
    assert_eq!(pattern_cost(&name_alice()), 10);
}

#[test]
fn test_pattern_cost_one_bound() {
    let p = pattern(var("e"), kw(":person/name"), var("v"));
    assert_eq!(pattern_cost(&p), 100);
}

#[test]
fn test_pattern_cost_unbound() {
    let p = pattern(var("e"), var("a"), var("v"));
    assert_eq!(pattern_cost(&p), 10_000);
}

#[test]
fn test_clause_cost_pattern_two_bound() {
    assert_eq!(clause_cost(&WhereClause::Pattern(name_alice())), 10);
}

#[test]
fn test_clause_cost_expr_is_zero() {
    let clause = WhereClause::Expr { expr: Expr::Lit(Value::Integer(42)), binding: None };
    assert_eq!(clause_cost(&clause), 0);
}

#[test]
fn test_clause_cost_not_body_uses_min() {
    let clause = WhereClause::Not(vec![WhereClause::Pattern(name_alice()), WhereClause::Pattern(full_scan())]);
    assert_eq!(clause_cost(&clause), 10);
}

#[test]
fn test_clause_cost_not_body_expr_only_is_zero() {
    let clause = WhereClause::Not(vec![WhereClause::Expr { expr: Expr::Lit(Value::Integer(1)), binding: None }]);
    assert_eq!(clause_cost(&clause), 0);
}

#[test]
fn test_branch_cost_empty_branch() {
    assert_eq!(branch_cost(&[]), 0);
}

#[test]
fn test_branch_cost_expr_only_is_zero() {
    let branch = vec![WhereClause::Expr { expr: Expr::Lit(Value::Integer(99)), binding: None }];
    assert_eq!(branch_cost(&branch), 0);
}

fn two_branches() -> Vec<Vec<WhereClause>> {
    let b1 = vec![WhereClause::Pattern(name_alice())];
    let b2 = vec![WhereClause::Pattern(pattern(var("e"), kw(":person/age"), var("v")))];
    vec![b1, b2]
}

#[test]
fn test_clause_cost_or_sums_branch_costs() {
    assert_eq!(clause_cost(&WhereClause::Or(two_branches())), 110);
}

#[test]
fn test_clause_cost_not_join_uses_branch_cost() {
    let clause = WhereClause::NotJoin {
        join_vars: vec!["?e".to_string()],
        clauses: vec![WhereClause::Pattern(name_alice())],
    };
    assert_eq!(clause_cost(&clause), 10);
}

#[test]
fn test_clause_cost_or_join_sums_branch_costs() {
    let clause = WhereClause::OrJoin { join_vars: vec!["?e".to_string()], branches: two_branches() };
    assert_eq!(clause_cost(&clause), 110);
}

#[test]
fn test_clause_cost_not_body_fully_bound_min_is_one() {
    let fully_bound = pattern(entity_lit(), kw(":person/name"), str_val("Alice"));
    let clause = WhereClause::Not(vec![WhereClause::Pattern(full_scan()), WhereClause::Pattern(fully_bound)]);
    assert_eq!(clause_cost(&clause), 1);
}
