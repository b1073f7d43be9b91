use minigraf::graph::storage::{FactStorage, GraphStorage};
use minigraf::graph::types::{Node, Property, PropertyValue, Value};
use minigraf::query::datalog::bindings::Bindings;
use minigraf::query::datalog::evaluator::stratify;
use minigraf::query::datalog::executor::{DatalogExecutor, QueryResult};
use minigraf::query::datalog::parser::parse_datalog_command;
use minigraf::query::datalog::rules::RuleRegistry;
use minigraf::query::datalog::types::{EdnValue, Pattern, Rule, WhereClause};

fn triple_present(storage: &FactStorage, e: u128, a: &str, v: &Value) -> bool {
    storage.get_asserted_facts().iter().any(|f| f.entity == e && f.attribute == a && &f.value == v)
}

#[test]
fn retraction_hides_retracted_triple() {
    let mut storage = FactStorage::new();
    storage.transact(vec![(1, ":a".to_string(), Value::Integer(1)), (1, ":b".to_string(), Value::Integer(2))], None).unwrap();
    storage.retract(vec![(1, ":a".to_string(), Value::Integer(1))]).unwrap();
    assert!(!triple_present(&storage, 1, ":a", &Value::Integer(1)));
    assert!(triple_present(&storage, 1, ":b", &Value::Integer(2)));
    assert_eq!(storage.get_all_facts().len(), 3, "history is kept");
}

#[test]
fn reassertion_after_retraction_is_visible() {
    let mut storage = FactStorage::new();
    storage.transact(vec![(1, ":a".to_string(), Value::Integer(1))], None).unwrap();
    storage.retract(vec![(1, ":a".to_string(), Value::Integer(1))]).unwrap();
    storage.transact(vec![(1, ":a".to_string(), Value::Integer(1))], None).unwrap();
    assert!(triple_present(&storage, 1, ":a", &Value::Integer(1)));
    assert_eq!(storage.get_asserted_facts().len(), 1);
}

#[test]
fn transacted_facts_are_visible() {
    let mut storage = FactStorage::new();
    storage.transact(vec![(7, ":x".to_string(), Value::String("s".into())), (8, ":y".to_string(), Value::Boolean(true))], None).unwrap();
    assert!(triple_present(&storage, 7, ":x", &Value::String("s".into())));
    assert!(triple_present(&storage, 8, ":y", &Value::Boolean(true)));
}

#[test]
fn past_state_is_stable_under_later_transactions() {
    let mut storage = FactStorage::new();
    storage.transact(vec![(1, ":age".to_string(), Value::Integer(30))], None).unwrap();
    let before = storage.get_facts_as_of_parts(Some(1), None);
    storage.transact(vec![(1, ":age".to_string(), Value::Integer(31))], None).unwrap();
    storage.retract(vec![(1, ":age".to_string(), Value::Integer(30))]).unwrap();
    let after = storage.get_facts_as_of_parts(Some(1), None);
    assert_eq!(before, after);
    assert_eq!(after.len(), 1);
    assert_eq!(after[0].value, Value::Integer(30));
}

fn rule(p: &str, attr: &str) -> Rule {
    Rule::new(
        vec![EdnValue::Symbol(p.to_string()), EdnValue::Symbol("?x".to_string())],
        vec![WhereClause::Pattern(Pattern::new(
            EdnValue::Symbol("?x".to_string()),
            EdnValue::Keyword(attr.to_string()),
            EdnValue::Symbol("?v".to_string()),
        ))],
    )
}

#[test]
fn registered_rules_accumulate_per_predicate() {
    let mut reg = RuleRegistry::new();
    reg.register_rule("p".to_string(), rule("p", ":a")).unwrap();
    reg.register_rule("q".to_string(), rule("q", ":b")).unwrap();
    let before_q = reg.get_rules("q");
    reg.register_rule("p".to_string(), rule("p", ":c")).unwrap();
    assert_eq!(reg.get_rules("p"), vec![rule("p", ":a"), rule("p", ":c")]);
    assert_eq!(reg.get_rules("q"), before_q);
}

#[test]
fn binding_insert_then_get() {
    let mut b = Bindings::new();
    b.insert("?x".to_string(), Value::Integer(1));
    b.insert("?y".to_string(), Value::Integer(2));
    b.insert("?x".to_string(), Value::Integer(3));
    assert_eq!(b.get("?x"), Some(&Value::Integer(3)));
    assert_eq!(b.get("?y"), Some(&Value::Integer(2)));
    assert_eq!(b.get("?z"), None);
    assert_eq!(b.len(), 2);
}

#[test]
fn negation_through_a_cycle_is_refused() {
    let mut storage = FactStorage::new();
    storage.transact(vec![(1, ":a".to_string(), Value::Integer(1))], None).unwrap();
    let mut ex = DatalogExecutor::new(storage);
    ex.execute(parse_datalog_command("(rule [(p ?x) [?x :a ?v] (not (q ?x))])").unwrap()).unwrap();
    ex.execute(parse_datalog_command("(rule [(q ?x) [?x :a ?v] (not (p ?x))])").unwrap()).unwrap();
    let r = ex.execute(parse_datalog_command("(query [:find ?x :where (p ?x)])").unwrap());
    let msg = r.unwrap_err();
    assert!(msg.contains("Cannot stratify rules"), "{msg}");
}

#[test]
fn stratified_negation_is_evaluated() {
    let mut storage = FactStorage::new();
    storage
        .transact(
            vec![
                (1, ":a".to_string(), Value::Integer(1)),
                (2, ":a".to_string(), Value::Integer(2)),
                (2, ":banned".to_string(), Value::Boolean(true)),
            ],
            None,
        )
        .unwrap();
    let mut ex = DatalogExecutor::new(storage);
    ex.execute(parse_datalog_command("(rule [(banned ?x) [?x :banned true]])").unwrap()).unwrap();
    ex.execute(parse_datalog_command("(rule [(ok ?x) [?x :a ?v] (not (banned ?x))])").unwrap()).unwrap();
    match ex.execute(parse_datalog_command("(query [:find ?x :where (ok ?x)])").unwrap()).unwrap() {
        QueryResult::QueryResults { results, .. } => {
            assert_eq!(results, vec![vec![Value::Ref(1)]]);
        }
        other => panic!("unexpected {other:?}"),
    }
}

#[test]
fn stored_node_is_found_under_its_id() {
    let mut g = GraphStorage::new();
    let a = Node::new(vec!["Person".to_string()], Property::new());
    let b = Node::new(vec!["Place".to_string()], Property::new());
    g.create_node(&a).unwrap();
    g.create_node(&b).unwrap();
    assert_eq!(g.get_node(&a.id).unwrap().unwrap().labels, vec!["Person".to_string()]);
    let mut props = Property::new();
    props.insert("name".to_string(), PropertyValue::String("Ann".to_string()));
    let mut a2 = Node::new(vec!["Person".to_string()], props);
    a2.id = a.id.clone();
    g.create_node(&a2).unwrap();
    let found = g.get_node(&a.id).unwrap().unwrap();
    assert_eq!(found.properties.get("name"), Some(&PropertyValue::String("Ann".to_string())));
    assert_eq!(g.get_node(&b.id).unwrap().unwrap().labels, vec!["Place".to_string()]);
    assert_eq!(g.get_all_nodes().unwrap().len(), 2);
}

fn neg_rule(head: &str, dep: &str) -> Rule {
    Rule::new(
        vec![EdnValue::Symbol(head.to_string()), EdnValue::Symbol("?x".to_string())],
        vec![
            WhereClause::Pattern(Pattern::new(
                EdnValue::Symbol("?x".to_string()),
                EdnValue::Keyword(":a".to_string()),
                EdnValue::Symbol("?v".to_string()),
            )),
            WhereClause::Not(vec![WhereClause::RuleInvocation {
                predicate: dep.to_string(),
                args: vec![EdnValue::Symbol("?x".to_string())],
            }]),
        ],
    )
}

#[test]
fn stratification_succeeds_exactly_without_negative_cycles() {
    let mut reg = RuleRegistry::new();
    reg.register_rule("p".to_string(), neg_rule("p", "q")).unwrap();
    reg.register_rule("q".to_string(), rule("q", ":b")).unwrap();
    let (names, strata) = stratify(&reg).unwrap();
    assert_eq!(names, vec!["p".to_string(), "q".to_string()]);
    assert_eq!(strata, vec![1, 0]);
    reg.register_rule("q".to_string(), neg_rule("q", "p")).unwrap();
    let msg = stratify(&reg).unwrap_err();
    assert!(msg.starts_with("Cannot stratify rules: negation through a cycle involving '"), "{msg}");
}

#[test]
fn stratification_gives_least_strata() {
    let mut reg = RuleRegistry::new();
    reg.register_rule("a".to_string(), neg_rule("a", "b")).unwrap();
    reg.register_rule("b".to_string(), neg_rule("b", "c")).unwrap();
    reg.register_rule("c".to_string(), rule("c", ":b")).unwrap();
    reg.register_rule("d".to_string(), rule("d", ":b")).unwrap();
    let (names, strata) = stratify(&reg).unwrap();
    assert_eq!(names, vec!["a".to_string(), "b".to_string(), "c".to_string(), "d".to_string()]);
    assert_eq!(strata, vec![2, 1, 0, 0]);
}
