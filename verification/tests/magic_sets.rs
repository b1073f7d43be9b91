use minigraf::graph::types::Value;
use minigraf::query::datalog::magic_sets::{
    build_propagation_rules, build_rewritten_registry, build_seed_facts, compute_query_adornments, has_bound_arg,
    inject_magic_guard, magic_pred_name, propagate_adornments, rewrite,
};
use minigraf::query::datalog::matcher::edn_to_entity_id;
use minigraf::query::datalog::rules::RuleRegistry;
use minigraf::query::datalog::types::{DatalogQuery, EdnValue, FindSpec, Pattern, Rule, WhereClause};

fn get<'a>(ads: &'a [(String, Vec<char>)], p: &str) -> Option<&'a Vec<char>> {
    ads.iter().find(|(k, _)| k == p).map(|(_, a)| a)
}

fn adorned(p: &str, ad: &[char]) -> Vec<(String, Vec<char>)> {
    vec![(p.to_string(), ad.to_vec())]
}

fn pat(entity: &str, attr: &str, value: &str) -> WhereClause {
    WhereClause::Pattern(Pattern::new(
        if entity.starts_with('?') {
            EdnValue::Symbol(entity.to_string())
        } else {
            EdnValue::Keyword(entity.to_string())
        },
        EdnValue::Keyword(attr.to_string()),
        if value.starts_with('?') {
            EdnValue::Symbol(value.to_string())
        } else {
            EdnValue::String(value.to_string())
        },
    ))
}

fn rule_inv(pred: &str, args: &[&str]) -> WhereClause {
    WhereClause::RuleInvocation {
        predicate: pred.to_string(),
        args: args
            .iter()
            .map(|a| {
                if a.starts_with('?') {
                    EdnValue::Symbol(a.to_string())
                } else {
                    EdnValue::String(a.to_string())
                }
            })
            .collect(),
    }
}

fn make_rule(pred: &str, head_args: &[&str], body: Vec<WhereClause>) -> Rule {
    Rule {
        head: std::iter::once(EdnValue::Symbol(pred.to_string()))
            .chain(head_args.iter().map(|a| EdnValue::Symbol(a.to_string())))
            .collect(),
        body,
    }
}

#[test]
fn test_rewrite_empty_query_returns_none() {
    let query = DatalogQuery::new(vec![FindSpec::Variable("?x".to_string())], vec![]);
    let registry = RuleRegistry::new();
    assert!(rewrite(&query, &registry).is_none());
}

#[test]
fn test_literal_arg_is_bound() {
    let clauses = vec![rule_inv("ancestor", &["abc123", "?y"])];
    let adornments = compute_query_adornments(&clauses);
    assert_eq!(get(&adornments, "ancestor"), Some(&vec!['b', 'f']));
}

#[test]
fn test_free_var_is_free() {
    let clauses = vec![rule_inv("ancestor", &["?x", "?y"])];
    let adornments = compute_query_adornments(&clauses);
    assert_eq!(get(&adornments, "ancestor"), Some(&vec!['f', 'f']));
}

#[test]
fn test_var_grounded_by_preceding_pattern() {
    let clauses = vec![pat("?x", ":name", "Alice"), rule_inv("ancestor", &["?x", "?y"])];
    let adornments = compute_query_adornments(&clauses);
    assert_eq!(get(&adornments, "ancestor"), Some(&vec!['b', 'f']));
}

#[test]
fn test_all_free_has_no_bound() {
    let clauses = vec![rule_inv("ancestor", &["?x", "?y"])];
    let adornments = compute_query_adornments(&clauses);
    let ad = get(&adornments, "ancestor").unwrap();
    assert!(!has_bound_arg(ad));
}

#[test]
fn test_seed_fact_for_keyword_entity_arg() {
    let clauses = vec![WhereClause::RuleInvocation {
        predicate: "ancestor".to_string(),
        args: vec![EdnValue::Keyword(":alice".to_string()), EdnValue::Symbol("?y".to_string())],
    }];
    let adornments = compute_query_adornments(&clauses);
    let seeds = build_seed_facts(&clauses, &adornments);
    assert_eq!(seeds.len(), 1);
    let (entity, attr, value) = &seeds[0];
    assert_eq!(attr, ":__magic_ancestor_bf");
    assert_eq!(value, &Value::Boolean(true));
    let expected = edn_to_entity_id(&EdnValue::Keyword(":alice".to_string())).unwrap();
    assert_eq!(*entity, expected);
}

#[test]
fn test_no_seed_for_all_free() {
    let clauses = vec![rule_inv("ancestor", &["?x", "?y"])];
    let adornments = compute_query_adornments(&clauses);
    assert!(build_seed_facts(&clauses, &adornments).is_empty());
}

#[test]
fn seed_fact_for_second_bound_arg_carries_value() {
    let clauses = vec![rule_inv("likes", &["?x", "pizza"])];
    let adornments = compute_query_adornments(&clauses);
    let seeds = build_seed_facts(&clauses, &adornments);
    assert_eq!(seeds.len(), 1);
    assert_eq!(seeds[0].1, ":__magic_likes_fb");
    assert_eq!(seeds[0].2, Value::String("pizza".to_string()));
}

#[test]
fn test_magic_guard_prepended_to_positive_rule() {
    let rule = make_rule("ancestor", &["?a", "?c"], vec![pat("?a", ":parent", "?b"), rule_inv("ancestor", &["?b", "?c"])]);
    let adornment = vec!['b', 'f'];
    let rewritten = inject_magic_guard(&rule, "ancestor", &adornment);
    match rewritten.body.first().unwrap() {
        WhereClause::RuleInvocation { predicate, args } => {
            assert_eq!(predicate, &magic_pred_name("ancestor", &adornment));
            assert_eq!(args.len(), 1);
            assert_eq!(args[0], EdnValue::Symbol("?a".to_string()));
        }
        _ => panic!("expected RuleInvocation guard"),
    }
    assert_eq!(rewritten.body.len(), 3);
}

#[test]
fn test_magic_guard_bb_adornment() {
    let rule = make_rule("reachable", &["?a", "?b"], vec![pat("?a", ":edge/to", "?b")]);
    let ad = vec!['b', 'b'];
    let result = inject_magic_guard(&rule, "reachable", &ad);
    let guard = result.body.first().expect("guard should be first body clause");
    match guard {
        WhereClause::RuleInvocation { predicate, args } => {
            assert_eq!(predicate, "__magic_reachable_bb");
            assert_eq!(args.len(), 2, "bb adornment should produce 2 guard args");
            assert_eq!(args[0], EdnValue::Symbol("?a".to_string()));
            assert_eq!(args[1], EdnValue::Symbol("?b".to_string()));
        }
        _ => panic!("expected RuleInvocation guard"),
    }
}

#[test]
fn test_mixed_rule_not_touched_by_guard() {
    let rule = make_rule(
        "eligible",
        &["?x"],
        vec![pat("?x", ":applied", "true"), WhereClause::Not(vec![pat("?x", ":rejected", "true")])],
    );
    let rewritten = inject_magic_guard(&rule, "eligible", &['b']);
    assert!(
        matches!(rewritten.body.first().unwrap(), WhereClause::Pattern(_)),
        "mixed rule must not have guard injected"
    );
    assert_eq!(rewritten, rule);
}

#[test]
fn test_propagation_rule_emitted_for_recursive_call() {
    let rule = make_rule("ancestor", &["?a", "?c"], vec![pat("?a", ":parent", "?b"), rule_inv("ancestor", &["?b", "?c"])]);
    let prop_rules = build_propagation_rules(&rule, "ancestor", &adorned("ancestor", &['b', 'f']));
    assert_eq!(prop_rules.len(), 1);
    let (pred, prop) = &prop_rules[0];
    assert_eq!(pred.as_str(), magic_pred_name("ancestor", &['b', 'f']).as_str());
    assert_eq!(prop.head.len(), 2);
    assert_eq!(prop.head[1], EdnValue::Symbol("?b".to_string()));
    assert_eq!(prop.body.len(), 2);
    match &prop.body[0] {
        WhereClause::RuleInvocation { predicate, args } => {
            assert_eq!(predicate, &magic_pred_name("ancestor", &['b', 'f']));
            assert_eq!(args[0], EdnValue::Symbol("?a".to_string()));
        }
        _ => panic!("expected magic guard in propagation body"),
    }
}

#[test]
fn test_propagation_rule_bb_adornment() {
    let rule = make_rule("reachable", &["?a", "?b"], vec![rule_inv("reachable", &["?a", "?c"]), pat("?c", ":edge/to", "?b")]);
    let prop_rules = build_propagation_rules(&rule, "reachable", &adorned("reachable", &['b', 'b']));
    assert_eq!(prop_rules.len(), 1);
    let (_, prop) = &prop_rules[0];
    assert_eq!(prop.head.len(), 3, "bb propagation rule head must have 3 elements (name + 2 args)");
    assert_eq!(prop.head[1], EdnValue::Symbol("?a".to_string()));
    assert_eq!(prop.head[2], EdnValue::Symbol("?c".to_string()));
}

#[test]
fn test_no_propagation_for_non_recursive_rule() {
    let rule = make_rule("ancestor", &["?a", "?b"], vec![pat("?a", ":parent", "?b")]);
    let prop_rules = build_propagation_rules(&rule, "ancestor", &adorned("ancestor", &['b', 'f']));
    assert!(prop_rules.is_empty());
}

#[test]
fn test_scc_peer_adornment_propagates() {
    let mut registry = RuleRegistry::new();
    registry.register_rule("even".to_string(), make_rule("even", &["?n"], vec![rule_inv("odd", &["?n"])])).unwrap();
    registry.register_rule("odd".to_string(), make_rule("odd", &["?n"], vec![rule_inv("even", &["?n"])])).unwrap();
    let propagated = propagate_adornments(&adorned("even", &['b']), &registry);
    assert!(get(&propagated, "odd").is_some(), "odd should be adorned via SCC");
    assert_eq!(propagated[0], ("even".to_string(), vec!['b']));
    assert_eq!(propagated.len(), 2);
}

#[test]
fn test_rewrite_none_when_all_free() {
    let mut registry = RuleRegistry::new();
    registry.register_rule("reach".to_string(), make_rule("reach", &["?a", "?b"], vec![pat("?a", ":edge", "?b")])).unwrap();
    let query = DatalogQuery::new(vec![FindSpec::Variable("?x".to_string())], vec![rule_inv("reach", &["?a", "?b"])]);
    assert!(rewrite(&query, &registry).is_none());
}

#[test]
fn test_rewrite_some_when_bound_arg() {
    let mut registry = RuleRegistry::new();
    registry.register_rule("reach".to_string(), make_rule("reach", &["?a", "?b"], vec![pat("?a", ":edge", "?b")])).unwrap();
    registry
        .register_rule(
            "reach".to_string(),
            make_rule("reach", &["?a", "?c"], vec![rule_inv("reach", &["?a", "?b"]), pat("?b", ":edge", "?c")]),
        )
        .unwrap();
    let query = DatalogQuery::new(
        vec![FindSpec::Variable("?x".to_string())],
        vec![WhereClause::RuleInvocation {
            predicate: "reach".to_string(),
            args: vec![EdnValue::Keyword(":start".to_string()), EdnValue::Symbol("?x".to_string())],
        }],
    );
    let result = rewrite(&query, &registry);
    assert!(result.is_some(), "should rewrite when arg0 is literal");
    let (rewritten_reg, seeds) = result.unwrap();
    assert!(!seeds.is_empty(), "should produce seed facts");
    let magic_name = magic_pred_name("reach", &['b', 'f']);
    assert!(!rewritten_reg.get_rules(&magic_name).is_empty(), "magic propagation rules should be registered");
}

#[test]
fn test_rewritten_registry_has_magic_guard_in_rules() {
    let mut registry = RuleRegistry::new();
    registry.register_rule("reach".to_string(), make_rule("reach", &["?a", "?b"], vec![pat("?a", ":edge", "?b")])).unwrap();
    let new_reg = build_rewritten_registry(&registry, &adorned("reach", &['b', 'f']));
    let rules = new_reg.get_rules("reach");
    assert!(!rules.is_empty(), "rewritten registry should contain reach rules");
    let first_body = rules[0].body.first().expect("rule should have body");
    assert!(matches!(first_body, WhereClause::RuleInvocation { .. }), "first body clause of adorned rule should be magic guard");
}
