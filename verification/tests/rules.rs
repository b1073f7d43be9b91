use minigraf::query::datalog::rules::RuleRegistry;
use minigraf::query::datalog::types::{EdnValue, Pattern, Rule, WhereClause};

fn create_test_rule(predicate: &str) -> Rule {
    // (predicate ?x ?y) <- [?x :connected ?y]
    Rule {
        head: vec![
            EdnValue::Symbol(predicate.to_string()),
            EdnValue::Symbol("?x".to_string()),
            EdnValue::Symbol("?y".to_string()),
        ],
        body: vec![WhereClause::Pattern(Pattern::new(
            EdnValue::Symbol("?x".to_string()),
            EdnValue::Keyword(":connected".to_string()),
            EdnValue::Symbol("?y".to_string()),
        ))],
    }
}

#[test]
fn test_rule_registry_new() {
    let registry = RuleRegistry::new();
    assert_eq!(registry.rule_count(), 0);
    assert_eq!(registry.predicate_count(), 0);
}

#[test]
fn test_register_single_rule() {
    let mut registry = RuleRegistry::new();
    registry.register_rule("reachable".to_string(), create_test_rule("reachable")).unwrap();
    assert_eq!(registry.rule_count(), 1);
    assert_eq!(registry.predicate_count(), 1);
    assert!(registry.has_rule("reachable"));
}

#[test]
fn rules_test_register_multiple_rules_same_predicate() {
    let mut registry = RuleRegistry::new();
    registry.register_rule("reachable".to_string(), create_test_rule("reachable")).unwrap();
    registry.register_rule("reachable".to_string(), create_test_rule("reachable")).unwrap();
    assert_eq!(registry.rule_count(), 2);
    assert_eq!(registry.predicate_count(), 1);
    assert_eq!(registry.get_rules("reachable").len(), 2);
}

#[test]
fn rules_test_register_rules_different_predicates() {
    let mut registry = RuleRegistry::new();
    registry.register_rule("reachable".to_string(), create_test_rule("reachable")).unwrap();
    registry.register_rule("ancestor".to_string(), create_test_rule("ancestor")).unwrap();
    assert_eq!(registry.rule_count(), 2);
    assert_eq!(registry.predicate_count(), 2);
    assert!(registry.has_rule("reachable"));
    assert!(registry.has_rule("ancestor"));
}

#[test]
fn test_get_rules_empty() {
    let registry = RuleRegistry::new();
    assert_eq!(registry.get_rules("nonexistent").len(), 0);
}

#[test]
fn test_get_rules_returns_all() {
    let mut registry = RuleRegistry::new();
    for _ in 0..3 {
        registry.register_rule("reachable".to_string(), create_test_rule("reachable")).unwrap();
    }
    assert_eq!(registry.get_rules("reachable").len(), 3);
}

#[test]
fn test_has_rule() {
    let mut registry = RuleRegistry::new();
    assert!(!registry.has_rule("reachable"));
    registry.register_rule("reachable".to_string(), create_test_rule("reachable")).unwrap();
    assert!(registry.has_rule("reachable"));
    assert!(!registry.has_rule("ancestor"));
}

#[test]
fn test_clear() {
    let mut registry = RuleRegistry::new();
    registry.register_rule("reachable".to_string(), create_test_rule("reachable")).unwrap();
    registry.register_rule("ancestor".to_string(), create_test_rule("ancestor")).unwrap();
    assert_eq!(registry.rule_count(), 2);
    registry.clear();
    assert_eq!(registry.rule_count(), 0);
    assert_eq!(registry.predicate_count(), 0);
    assert!(!registry.has_rule("reachable"));
    assert!(!registry.has_rule("ancestor"));
}

#[test]
fn test_predicate_names() {
    let mut registry = RuleRegistry::new();
    registry.register_rule("reachable".to_string(), create_test_rule("reachable")).unwrap();
    registry.register_rule("ancestor".to_string(), create_test_rule("ancestor")).unwrap();
    registry.register_rule("reachable".to_string(), create_test_rule("reachable")).unwrap();
    let mut names = registry.predicate_names();
    names.sort();
    assert_eq!(names.len(), 2);
    assert!(names.contains(&"reachable".to_string()));
    assert!(names.contains(&"ancestor".to_string()));
}

// ---- further cases ----

#[test]
fn rules_keep_registration_order_within_a_predicate() {
    let mut registry = RuleRegistry::new();
    let mut second = create_test_rule("reachable");
    second.head.push(EdnValue::Integer(2));
    registry.register_rule("reachable".to_string(), create_test_rule("reachable")).unwrap();
    registry.register_rule("reachable".to_string(), second).unwrap();
    let rules = registry.get_rules("reachable");
    assert_eq!(rules[0].head.len(), 3);
    assert_eq!(rules[1].head.len(), 4);
    assert_eq!(registry.predicate_names(), vec!["reachable".to_string()]);
}
