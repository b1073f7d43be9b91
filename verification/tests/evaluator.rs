use minigraf::graph::storage::FactStorage;
use minigraf::graph::types::{Fact, Value};
use minigraf::query::datalog::bindings::Bindings;
use minigraf::query::datalog::evaluator::{
    evaluate_not_join, rule_invocation_to_pattern, substitute_pattern, substitute_value, value_to_edn,
    RecursiveEvaluator, StratifiedEvaluator,
};
use minigraf::query::datalog::parser::parse_datalog_command;
use minigraf::query::datalog::rules::RuleRegistry;
use minigraf::query::datalog::types::{DatalogCommand, EdnValue, Pattern, Rule, WhereClause};
use uuid::Uuid;

fn id() -> u128 {
    Uuid::new_v4().as_u128()
}

fn sym(s: &str) -> EdnValue {
    EdnValue::Symbol(s.to_string())
}

fn kw(s: &str) -> EdnValue {
    EdnValue::Keyword(s.to_string())
}

fn pat(e: EdnValue, a: &str, v: EdnValue) -> WhereClause {
    WhereClause::Pattern(Pattern::new(e, kw(a), v))
}

fn create_test_storage() -> FactStorage {
    let mut storage = FactStorage::new();
    let a = id();
    let b = id();
    let c = id();
    storage
        .transact(
            vec![(a, ":connected".to_string(), Value::Ref(b)), (b, ":connected".to_string(), Value::Ref(c))],
            None,
        )
        .unwrap();
    storage
}

fn register_test_rule(rules: &mut RuleRegistry, rule_str: &str) {
    let cmd = parse_datalog_command(rule_str).unwrap();
    if let DatalogCommand::Rule(rule) = cmd {
        let predicate = match &rule.head[0] {
            EdnValue::Symbol(s) => s.clone(),
            _ => panic!("Expected symbol as predicate name"),
        };
        rules.register_rule(predicate, rule).unwrap();
    } else {
        panic!("Expected Rule command");
    }
}

fn with_attribute(storage: &FactStorage, attr: &str) -> Vec<Fact> {
    storage.get_asserted_facts().into_iter().filter(|f| f.attribute == attr).collect()
}

fn reachable_rules() -> RuleRegistry {
    let mut rules = RuleRegistry::new();
    register_test_rule(&mut rules, r#"(rule [(reachable ?x ?y) [?x :connected ?y]])"#);
    register_test_rule(&mut rules, r#"(rule [(reachable ?x ?y) [?x :connected ?z] (reachable ?z ?y)])"#);
    rules
}

#[test]
fn test_evaluator_creation() {
    let storage = FactStorage::new();
    let rules = RuleRegistry::new();
    let evaluator = RecursiveEvaluator::new(storage, rules, 1000);
    assert_eq!(evaluator.max_iterations(), 1000);
}

#[test]
fn test_evaluate_simple_rule() {
    let storage = create_test_storage();
    let mut rules = RuleRegistry::new();
    register_test_rule(&mut rules, r#"(rule [(reachable ?x ?y) [?x :connected ?y]])"#);
    let evaluator = RecursiveEvaluator::new(storage, rules, 1000);
    let result = evaluator.evaluate_recursive_rules(&["reachable".to_string()]);
    assert!(result.is_ok());
    let derived = result.unwrap();
    let facts = derived.get_asserted_facts();
    assert!(facts.len() >= 2);
}

#[test]
fn test_max_iterations_enforced() {
    let storage = create_test_storage();
    let mut rules = RuleRegistry::new();
    register_test_rule(&mut rules, r#"(rule [(reachable ?x ?y) [?x :connected ?y]])"#);
    let evaluator = RecursiveEvaluator::new(storage, rules, 10);
    let result = evaluator.evaluate_recursive_rules(&["reachable".to_string()]);
    assert!(result.is_ok());
}

#[test]
fn test_empty_predicates() {
    let storage = FactStorage::new();
    let rules = RuleRegistry::new();
    let evaluator = RecursiveEvaluator::new(storage, rules, 1000);
    let result = evaluator.evaluate_recursive_rules(&[]);
    assert!(result.is_ok());
    let derived = result.unwrap();
    assert_eq!(derived.get_all_facts().len(), 0);
}

#[test]
fn test_no_matching_rules() {
    let storage = create_test_storage();
    let base_facts = storage.get_asserted_facts();
    let rules = RuleRegistry::new();
    let evaluator = RecursiveEvaluator::new(storage, rules, 1000);
    let result = evaluator.evaluate_recursive_rules(&["nonexistent".to_string()]);
    assert!(result.is_ok());
    let derived = result.unwrap();
    assert_eq!(derived.get_all_facts().len(), base_facts.len());
}

#[test]
fn test_recursive_transitive_closure() {
    let storage = create_test_storage();
    let evaluator = RecursiveEvaluator::new(storage, reachable_rules(), 1000);
    let derived = evaluator.evaluate_recursive_rules(&["reachable".to_string()]).unwrap();
    assert_eq!(with_attribute(&derived, ":reachable").len(), 3);
}

#[test]
fn test_recursive_long_chain() {
    let mut storage = FactStorage::new();
    let n: Vec<u128> = (0..5).map(|_| id()).collect();
    storage
        .transact(
            vec![
                (n[0], ":connected".to_string(), Value::Ref(n[1])),
                (n[1], ":connected".to_string(), Value::Ref(n[2])),
                (n[2], ":connected".to_string(), Value::Ref(n[3])),
                (n[3], ":connected".to_string(), Value::Ref(n[4])),
            ],
            None,
        )
        .unwrap();
    let evaluator = RecursiveEvaluator::new(storage, reachable_rules(), 1000);
    let derived = evaluator.evaluate_recursive_rules(&["reachable".to_string()]).unwrap();
    assert_eq!(with_attribute(&derived, ":reachable").len(), 10);
}

#[test]
fn test_recursive_with_cycle() {
    let mut storage = FactStorage::new();
    let a = id();
    let b = id();
    let c = id();
    storage
        .transact(
            vec![
                (a, ":connected".to_string(), Value::Ref(b)),
                (b, ":connected".to_string(), Value::Ref(c)),
                (c, ":connected".to_string(), Value::Ref(a)),
            ],
            None,
        )
        .unwrap();
    let evaluator = RecursiveEvaluator::new(storage, reachable_rules(), 1000);
    let derived = evaluator.evaluate_recursive_rules(&["reachable".to_string()]).unwrap();
    assert_eq!(with_attribute(&derived, ":reachable").len(), 9);
}

#[test]
fn test_evaluate_rule_with_where_clause_body() {
    let e1 = Uuid::parse_str("00000000-0000-0000-0000-000000000001").unwrap().as_u128();
    let e2 = Uuid::parse_str("00000000-0000-0000-0000-000000000002").unwrap().as_u128();
    let mut storage = FactStorage::new();
    storage.transact(vec![(e1, ":connected".to_string(), Value::Ref(e2))], None).unwrap();
    let rule = Rule {
        head: vec![sym("reachable"), sym("?x"), sym("?y")],
        body: vec![pat(sym("?x"), ":connected", sym("?y"))],
    };
    let mut registry = RuleRegistry::new();
    registry.register_rule("reachable".to_string(), rule).unwrap();
    let evaluator = RecursiveEvaluator::new(storage, registry, 10);
    let derived = evaluator.evaluate_recursive_rules(&["reachable".to_string()]).unwrap();
    let facts: Vec<Fact> = derived.get_asserted_facts().into_iter().filter(|f| f.entity == e1).collect();
    assert!(facts.iter().any(|f| f.attribute == ":reachable"));
}

#[test]
fn test_recursive_convergence_iterations() {
    let mut storage = FactStorage::new();
    let a = id();
    let b = id();
    storage.transact(vec![(a, ":connected".to_string(), Value::Ref(b))], None).unwrap();
    let evaluator = RecursiveEvaluator::new(storage, reachable_rules(), 5);
    let derived = evaluator.evaluate_recursive_rules(&["reachable".to_string()]).unwrap();
    assert_eq!(with_attribute(&derived, ":reachable").len(), 1);
}

fn alice() -> u128 {
    Uuid::parse_str("00000000-0000-0000-0000-000000000001").unwrap().as_u128()
}

fn bob() -> u128 {
    Uuid::parse_str("00000000-0000-0000-0000-000000000002").unwrap().as_u128()
}

#[test]
fn test_stratified_no_negation_same_as_recursive() {
    let mut storage = FactStorage::new();
    storage.transact(vec![(alice(), ":connected".to_string(), Value::Ref(bob()))], None).unwrap();
    let rule = Rule {
        head: vec![sym("reachable"), sym("?x"), sym("?y")],
        body: vec![pat(sym("?x"), ":connected", sym("?y"))],
    };
    let mut registry = RuleRegistry::new();
    registry.register_rule("reachable".to_string(), rule).unwrap();
    let evaluator = StratifiedEvaluator::new(storage, registry, 100);
    let result = evaluator.evaluate(&["reachable".to_string()]).unwrap().unwrap();
    assert_eq!(with_attribute(&result, ":reachable").len(), 1);
}

fn eligible_rule() -> Rule {
    Rule {
        head: vec![sym("eligible"), sym("?x")],
        body: vec![
            pat(sym("?x"), ":applied", EdnValue::Boolean(true)),
            WhereClause::Not(vec![pat(sym("?x"), ":rejected", EdnValue::Boolean(true))]),
        ],
    }
}

#[test]
fn test_not_filter_removes_binding_when_body_satisfied() {
    let mut storage = FactStorage::new();
    storage
        .transact(
            vec![
                (alice(), ":applied".to_string(), Value::Boolean(true)),
                (alice(), ":rejected".to_string(), Value::Boolean(true)),
            ],
            None,
        )
        .unwrap();
    let mut registry = RuleRegistry::new();
    registry.register_rule("eligible".to_string(), eligible_rule()).unwrap();
    let evaluator = StratifiedEvaluator::new(storage, registry, 100);
    let result = evaluator.evaluate(&["eligible".to_string()]).unwrap().unwrap();
    assert_eq!(with_attribute(&result, ":eligible").len(), 0, "alice should NOT be eligible");
}

#[test]
fn test_not_filter_keeps_binding_when_body_not_satisfied() {
    let mut storage = FactStorage::new();
    storage.transact(vec![(alice(), ":applied".to_string(), Value::Boolean(true))], None).unwrap();
    let mut registry = RuleRegistry::new();
    registry.register_rule("eligible".to_string(), eligible_rule()).unwrap();
    let evaluator = StratifiedEvaluator::new(storage, registry, 100);
    let result = evaluator.evaluate(&["eligible".to_string()]).unwrap().unwrap();
    assert_eq!(with_attribute(&result, ":eligible").len(), 1, "alice should be eligible");
}

fn clean_rule(not_join_body: Vec<WhereClause>) -> Rule {
    Rule::new(
        vec![sym("clean"), sym("?x")],
        vec![
            pat(sym("?x"), ":submitted", EdnValue::Boolean(true)),
            WhereClause::NotJoin { join_vars: vec!["?x".to_string()], clauses: not_join_body },
        ],
    )
}

#[test]
fn test_not_join_rejects_entity_with_matching_inner_var() {
    let mut storage = FactStorage::new();
    let alice = id();
    let bob = id();
    let dep1 = id();
    storage
        .transact(
            vec![
                (alice, ":submitted".to_string(), Value::Boolean(true)),
                (alice, ":has-dep".to_string(), Value::Ref(dep1)),
                (dep1, ":blocked".to_string(), Value::Boolean(true)),
                (bob, ":submitted".to_string(), Value::Boolean(true)),
            ],
            None,
        )
        .unwrap();
    let rule = clean_rule(vec![
        pat(sym("?x"), ":has-dep", sym("?d")),
        pat(sym("?d"), ":blocked", EdnValue::Boolean(true)),
    ]);
    let mut registry = RuleRegistry::new();
    registry.register_rule("clean".to_string(), rule).unwrap();
    let evaluator = StratifiedEvaluator::new(storage, registry, 100);
    let result = evaluator.evaluate(&["clean".to_string()]).unwrap().unwrap();
    let clean_facts = with_attribute(&result, ":clean");
    assert_eq!(clean_facts.len(), 1, "only bob should be clean");
    assert_eq!(clean_facts[0].entity, bob, "the clean entity must be bob");
}

#[test]
fn test_not_join_keeps_entity_when_inner_var_has_no_match() {
    let mut storage = FactStorage::new();
    let alice = id();
    storage.transact(vec![(alice, ":submitted".to_string(), Value::Boolean(true))], None).unwrap();
    let rule = clean_rule(vec![pat(sym("?x"), ":has-dep", sym("?d"))]);
    let mut registry = RuleRegistry::new();
    registry.register_rule("clean".to_string(), rule).unwrap();
    let evaluator = StratifiedEvaluator::new(storage, registry, 100);
    let result = evaluator.evaluate(&["clean".to_string()]).unwrap().unwrap();
    assert_eq!(with_attribute(&result, ":clean").len(), 1, "alice must be clean when no deps exist");
}

#[test]
fn test_not_join_body_with_rule_invocation() {
    let mut storage = FactStorage::new();
    let alice = id();
    let bob = id();
    storage
        .transact(
            vec![
                (alice, ":submitted".to_string(), Value::Boolean(true)),
                (alice, ":status".to_string(), Value::Keyword(":banned".to_string())),
                (bob, ":submitted".to_string(), Value::Boolean(true)),
            ],
            None,
        )
        .unwrap();
    let rule_blocked = Rule::new(vec![sym("blocked"), sym("?x")], vec![pat(sym("?x"), ":status", kw(":banned"))]);
    let rule_clean = clean_rule(vec![WhereClause::RuleInvocation {
        predicate: "blocked".to_string(),
        args: vec![sym("?x")],
    }]);
    let mut registry = RuleRegistry::new();
    registry.register_rule("blocked".to_string(), rule_blocked).unwrap();
    registry.register_rule("clean".to_string(), rule_clean).unwrap();
    let evaluator = StratifiedEvaluator::new(storage, registry, 100);
    let result = evaluator.evaluate(&["clean".to_string()]).unwrap().unwrap();
    let clean_facts = with_attribute(&result, ":clean");
    assert_eq!(clean_facts.len(), 1, "only bob should be clean");
    assert_eq!(clean_facts[0].entity, bob, "the clean entity must be bob");
}

#[test]
fn test_not_filter_with_multiple_not_clauses() {
    let mut storage = FactStorage::new();
    storage
        .transact(
            vec![
                (alice(), ":status".to_string(), Value::String("active".to_string())),
                (bob(), ":status".to_string(), Value::String("active".to_string())),
                (bob(), ":role".to_string(), Value::String("admin".to_string())),
            ],
            None,
        )
        .unwrap();
    let rule = Rule {
        head: vec![sym("eligible"), sym("?x")],
        body: vec![
            pat(sym("?x"), ":status", EdnValue::String("active".to_string())),
            WhereClause::Not(vec![pat(sym("?x"), ":role", EdnValue::String("admin".to_string()))]),
            WhereClause::Not(vec![pat(sym("?x"), ":banned", EdnValue::Boolean(true))]),
        ],
    };
    let mut registry = RuleRegistry::new();
    registry.register_rule("eligible".to_string(), rule).unwrap();
    let evaluator = StratifiedEvaluator::new(storage, registry, 100);
    let result = evaluator.evaluate(&["eligible".to_string()]).unwrap().unwrap();
    let eligible_facts = with_attribute(&result, ":eligible");
    assert_eq!(eligible_facts.len(), 1, "only alice should be eligible");
    assert_eq!(eligible_facts[0].entity, alice(), "the eligible entity should be alice");
}

// ---- further cases ----

#[test]
fn max_iterations_zero_is_an_error_with_the_limit_in_the_message() {
    let storage = create_test_storage();
    let evaluator = RecursiveEvaluator::new(storage, reachable_rules(), 0);
    let err = evaluator.evaluate_recursive_rules(&["reachable".to_string()]).unwrap_err();
    assert_eq!(err, "Max iterations (0) exceeded. Possible infinite recursion or cycle in rules.");
}

#[test]
fn max_iterations_too_small_for_long_chain() {
    let mut storage = FactStorage::new();
    let n: Vec<u128> = (0..6).map(|_| id()).collect();
    let facts = (0..5).map(|i| (n[i], ":connected".to_string(), Value::Ref(n[i + 1]))).collect();
    storage.transact(facts, None).unwrap();
    let evaluator = RecursiveEvaluator::new(storage, reachable_rules(), 2);
    let err = evaluator.evaluate_recursive_rules(&["reachable".to_string()]).unwrap_err();
    assert!(err.starts_with("Max iterations (2) exceeded"));
}

#[test]
fn negation_in_rule_is_refused_without_strata() {
    let storage = create_test_storage();
    let mut registry = RuleRegistry::new();
    registry.register_rule("eligible".to_string(), eligible_rule()).unwrap();
    let evaluator = RecursiveEvaluator::new(storage, registry, 10);
    let err = evaluator.evaluate_recursive_rules(&["eligible".to_string()]).unwrap_err();
    assert_eq!(err, "WhereClause::Not in evaluate_rule: use StratifiedEvaluator for rules with negation");
}

#[test]
fn one_argument_head_derives_true() {
    let mut storage = FactStorage::new();
    storage.transact(vec![(alice(), ":applied".to_string(), Value::Boolean(true))], None).unwrap();
    let mut rules = RuleRegistry::new();
    register_test_rule(&mut rules, r#"(rule [(applicant ?x) [?x :applied true]])"#);
    let evaluator = RecursiveEvaluator::new(storage, rules, 10);
    let derived = evaluator.evaluate_recursive_rules(&["applicant".to_string()]).unwrap();
    let facts = with_attribute(&derived, ":applicant");
    assert_eq!(facts.len(), 1);
    assert_eq!(facts[0].entity, alice());
    assert_eq!(facts[0].value, Value::Boolean(true));
}

#[test]
fn rule_invocation_to_pattern_arities() {
    let p = rule_invocation_to_pattern("blocked", &[sym("?x")]).unwrap();
    assert_eq!(p.entity, sym("?x"));
    assert_eq!(p.attribute, kw(":blocked"));
    assert_eq!(p.value, sym("?_rule_value"));
    let p = rule_invocation_to_pattern("reachable", &[sym("?a"), sym("?b")]).unwrap();
    assert_eq!(p.attribute, kw(":reachable"));
    assert_eq!(p.value, sym("?b"));
    let err = rule_invocation_to_pattern("r", &[]).unwrap_err();
    assert_eq!(err, "Rule invocation 'r' must have 1 or 2 arguments, got 0");
    let err = rule_invocation_to_pattern("r", &[sym("?a"), sym("?b"), sym("?c")]).unwrap_err();
    assert_eq!(err, "Rule invocation 'r' must have 1 or 2 arguments, got 3");
}

#[test]
fn value_to_edn_writes_null_as_nil_symbol() {
    assert_eq!(value_to_edn(&Value::Null), sym("nil"));
    assert_eq!(value_to_edn(&Value::Integer(3)), EdnValue::Integer(3));
    assert_eq!(value_to_edn(&Value::Ref(7)), EdnValue::Uuid(7));
}

#[test]
fn substitution_replaces_only_bound_variables() {
    let mut b = Bindings::new();
    b.insert("?x".to_string(), Value::Integer(5));
    assert_eq!(substitute_value(&sym("?x"), &b), EdnValue::Integer(5));
    assert_eq!(substitute_value(&sym("?y"), &b), sym("?y"));
    assert_eq!(substitute_value(&kw(":a"), &b), kw(":a"));
    let p = substitute_pattern(&Pattern::new(sym("?x"), kw(":a"), sym("?y")), &b);
    assert_eq!(p.entity, EdnValue::Integer(5));
    assert_eq!(p.value, sym("?y"));
}

#[test]
fn not_join_passes_only_join_variables() {
    let mut storage = FactStorage::new();
    storage.transact(vec![(alice(), ":tag".to_string(), Value::Integer(1))], None).unwrap();
    let facts = storage.get_asserted_facts();
    let mut b = Bindings::new();
    b.insert("?x".to_string(), Value::Ref(alice()));
    b.insert("?v".to_string(), Value::Integer(2));
    // ?v is not a join variable: the body sees it unbound and matches.
    let body = vec![pat(sym("?x"), ":tag", sym("?v"))];
    assert!(evaluate_not_join(&vec!["?x".to_string()], &body, &b, &facts));
    // With ?v joined, the body needs the value 2 and fails.
    assert!(!evaluate_not_join(&vec!["?x".to_string(), "?v".to_string()], &body, &b, &facts));
}
