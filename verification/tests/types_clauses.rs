use minigraf::query::datalog::types::{
    AsOf, DatalogQuery, EdnValue, FindSpec, Pattern, Transaction, ValidAt, WhereClause, Expr, BinOp,
};
use minigraf::graph::types::Value;

fn sym(s: &str) -> EdnValue {
    EdnValue::Symbol(s.to_string())
}

fn kw(s: &str) -> EdnValue {
    EdnValue::Keyword(s.to_string())
}

fn inv(p: &str, args: &[&str]) -> WhereClause {
    WhereClause::RuleInvocation { predicate: p.to_string(), args: args.iter().map(|a| sym(a)).collect() }
}

fn pat(e: &str, a: &str, v: EdnValue) -> WhereClause {
    WhereClause::Pattern(Pattern::new(sym(e), kw(a), v))
}

#[test]
fn test_edn_value_variable() {
    let var = sym("?name");
    assert!(var.is_variable());
    assert_eq!(var.as_variable(), Some("?name"));
    let not_var = sym("name");
    assert!(!not_var.is_variable());
    assert_eq!(not_var.as_variable(), None);
}

#[test]
fn test_edn_value_keyword() {
    let keyword = kw(":person/name");
    assert!(keyword.is_keyword());
    assert_eq!(keyword.as_keyword(), Some(":person/name"));
    let not_keyword = EdnValue::String(":not-a-keyword".to_string());
    assert!(!not_keyword.is_keyword());
}

#[test]
fn test_pattern_creation() {
    let pattern = Pattern::new(sym("?e"), kw(":person/name"), EdnValue::String("Alice".to_string()));
    assert!(pattern.entity.is_variable());
    assert!(pattern.attribute.is_keyword());
}

#[test]
fn test_pattern_from_edn() {
    let vector = vec![sym("?e"), kw(":person/name"), EdnValue::String("Alice".to_string())];
    let pattern = Pattern::from_edn(&vector).unwrap();
    assert_eq!(pattern.entity, sym("?e"));
    assert_eq!(pattern.attribute, kw(":person/name"));
    assert_eq!(pattern.value, EdnValue::String("Alice".to_string()));
}

#[test]
fn test_pattern_from_edn_invalid_length() {
    let vector = vec![sym("?e"), kw(":person/name")];
    let result = Pattern::from_edn(&vector);
    assert!(result.is_err());
    assert!(result.unwrap_err().contains("must have exactly 3 elements"));
}

#[test]
fn test_datalog_query_creation() {
    let query = DatalogQuery::new(
        vec![FindSpec::Variable("?name".to_string()), FindSpec::Variable("?age".to_string())],
        vec![pat("?e", ":person/name", sym("?name")), pat("?e", ":person/age", sym("?age"))],
    );
    assert_eq!(query.find.len(), 2);
    assert_eq!(query.where_clauses.len(), 2);
    assert_eq!(query.get_patterns().len(), 2);
}

#[test]
fn test_transaction_creation() {
    let tx = Transaction::new(vec![
        Pattern::new(kw(":alice"), kw(":person/name"), EdnValue::String("Alice".to_string())),
        Pattern::new(kw(":alice"), kw(":person/age"), EdnValue::Integer(30)),
    ]);
    assert_eq!(tx.facts.len(), 2);
}

#[test]
fn test_datalog_query_with_temporal_fields() {
    let query = DatalogQuery::new(vec![FindSpec::Variable("?name".to_string())], vec![pat("?e", ":person/name", sym("?name"))]);
    assert!(query.as_of.is_none());
    assert!(query.valid_at.is_none());
    let query_with_time = DatalogQuery { as_of: Some(AsOf::Counter(5)), valid_at: Some(ValidAt::AnyValidTime), ..query };
    assert!(matches!(query_with_time.as_of, Some(AsOf::Counter(5))));
    assert!(matches!(query_with_time.valid_at, Some(ValidAt::AnyValidTime)));
}

#[test]
fn test_transaction_with_valid_time() {
    let tx = Transaction { facts: vec![], valid_from: Some(1672531200000_i64), valid_to: None };
    assert_eq!(tx.valid_from, Some(1672531200000_i64));
    assert!(tx.valid_to.is_none());
}

#[test]
fn test_where_clause_not_variant_exists() {
    let not_clause = WhereClause::Not(vec![pat("?x", ":banned", EdnValue::Boolean(true))]);
    assert!(matches!(not_clause, WhereClause::Not(_)));
}

#[test]
fn test_rule_invocations_pattern_returns_empty() {
    let clause = pat("?x", ":a", sym("?v"));
    assert!(clause.rule_invocations().is_empty());
}

#[test]
fn test_rule_invocations_rule_invocation_returns_predicate() {
    assert_eq!(inv("blocked", &["?x"]).rule_invocations(), vec!["blocked"]);
}

#[test]
fn test_rule_invocations_recurses_into_not() {
    let clause = WhereClause::Not(vec![inv("blocked", &["?x"])]);
    assert_eq!(clause.rule_invocations(), vec!["blocked"]);
}

#[test]
fn test_has_negated_invocation_true_when_not_contains_rule_invocation() {
    assert!(WhereClause::Not(vec![inv("blocked", &["?x"])]).has_negated_invocation());
}

#[test]
fn test_has_negated_invocation_false_when_not_contains_only_pattern() {
    assert!(!WhereClause::Not(vec![pat("?x", ":banned", EdnValue::Boolean(true))]).has_negated_invocation());
}

#[test]
fn test_uses_rules_recurses_into_not_body() {
    let query = DatalogQuery::new(
        vec![FindSpec::Variable("?person".to_string())],
        vec![pat("?person", ":person/name", sym("?name")), WhereClause::Not(vec![inv("blocked", &["?person"])])],
    );
    assert!(query.uses_rules());
}

#[test]
fn test_get_rule_invocations_recurses_into_not_body() {
    let query = DatalogQuery::new(
        vec![FindSpec::Variable("?person".to_string())],
        vec![WhereClause::Not(vec![inv("blocked", &["?person"])])],
    );
    let invocations = query.get_rule_invocations();
    assert_eq!(invocations.len(), 1);
    assert_eq!(invocations[0].0, "blocked");
}

#[test]
fn test_where_clause_not_join_variant_exists() {
    let nj = WhereClause::NotJoin { join_vars: vec!["?e".to_string()], clauses: vec![pat("?e", ":tag", sym("?tag"))] };
    assert!(matches!(nj, WhereClause::NotJoin { .. }));
}

#[test]
fn test_rule_invocations_recurses_into_not_join() {
    let nj = WhereClause::NotJoin { join_vars: vec!["?e".to_string()], clauses: vec![inv("blocked", &["?e"])] };
    assert_eq!(nj.rule_invocations(), vec!["blocked"]);
}

#[test]
fn test_has_negated_invocation_true_for_not_join_with_rule_invocation() {
    let nj = WhereClause::NotJoin { join_vars: vec!["?e".to_string()], clauses: vec![inv("blocked", &["?e"])] };
    assert!(nj.has_negated_invocation());
}

#[test]
fn test_collect_rule_invocations_recurses_into_not_join() {
    let query = DatalogQuery::new(
        vec![FindSpec::Variable("?e".to_string())],
        vec![WhereClause::NotJoin { join_vars: vec!["?e".to_string()], clauses: vec![inv("blocked", &["?e"])] }],
    );
    let invocations = query.get_rule_invocations();
    assert_eq!(invocations.len(), 1);
    assert_eq!(invocations[0].0, "blocked");
}

#[test]
fn test_get_top_level_rule_invocations_excludes_not_join_body() {
    let query = DatalogQuery::new(
        vec![FindSpec::Variable("?e".to_string())],
        vec![
            inv("reachable", &["?e", "?x"]),
            WhereClause::NotJoin { join_vars: vec!["?e".to_string()], clauses: vec![inv("blocked", &["?e"])] },
        ],
    );
    let top_level = query.get_top_level_rule_invocations();
    assert_eq!(top_level.len(), 1);
    assert_eq!(top_level[0].0, "reachable");
}

#[test]
fn test_where_clause_expr_filter_variant() {
    let clause = WhereClause::Expr {
        expr: Expr::BinOp(BinOp::Lt, Box::new(Expr::Var("?v".to_string())), Box::new(Expr::Lit(Value::Integer(100)))),
        binding: None,
    };
    assert!(matches!(clause, WhereClause::Expr { binding: None, .. }));
}

#[test]
fn test_where_clause_expr_binding_variant() {
    let clause = WhereClause::Expr {
        expr: Expr::BinOp(BinOp::Add, Box::new(Expr::Var("?a".to_string())), Box::new(Expr::Var("?b".to_string()))),
        binding: Some("?sum".to_string()),
    };
    assert!(matches!(clause, WhereClause::Expr { binding: Some(_), .. }));
}

#[test]
fn test_expr_clause_rule_invocations_empty() {
    let clause = WhereClause::Expr { expr: Expr::Lit(Value::Boolean(true)), binding: None };
    assert!(clause.rule_invocations().is_empty());
    assert!(!clause.has_negated_invocation());
}

#[test]
fn test_where_clause_or_variant_exists() {
    let or_clause = WhereClause::Or(vec![vec![pat("?e", ":a", sym("?v"))], vec![pat("?e", ":b", sym("?v"))]]);
    assert!(matches!(or_clause, WhereClause::Or(_)));
}

#[test]
fn test_where_clause_or_join_variant_exists() {
    let oj = WhereClause::OrJoin { join_vars: vec!["?e".to_string()], branches: vec![vec![pat("?e", ":tag", sym("?tag"))]] };
    assert!(matches!(oj, WhereClause::OrJoin { .. }));
}

#[test]
fn test_rule_invocations_recurses_into_or_branches() {
    let or_clause = WhereClause::Or(vec![vec![inv("active", &["?e"])]]);
    assert_eq!(or_clause.rule_invocations(), vec!["active"]);
}

#[test]
fn test_has_negated_invocation_false_for_or() {
    let or_clause = WhereClause::Or(vec![vec![pat("?e", ":a", EdnValue::Boolean(true))]]);
    assert!(!or_clause.has_negated_invocation());
}

#[test]
fn test_collect_rule_invocations_recurses_into_or_branches() {
    let query = DatalogQuery::new(
        vec![FindSpec::Variable("?e".to_string())],
        vec![WhereClause::Or(vec![vec![inv("active", &["?e"])], vec![inv("pending", &["?e"])]])],
    );
    let invocations = query.get_rule_invocations();
    assert_eq!(invocations.len(), 2);
    let names: Vec<&str> = invocations.iter().map(|(p, _)| p.as_str()).collect();
    assert!(names.contains(&"active"));
    assert!(names.contains(&"pending"));
}
