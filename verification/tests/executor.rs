use minigraf::graph::storage::{FactStorage, TransactOptions};
use minigraf::graph::types::Value;
use minigraf::query::datalog::bindings::Bindings;
use minigraf::query::datalog::executor::{apply_post_processing, evaluate_branch, DatalogExecutor, QueryResult};
use minigraf::query::datalog::functions::FunctionRegistry;
use minigraf::query::datalog::parser::parse_datalog_command;
use minigraf::query::datalog::rules::RuleRegistry;
use minigraf::query::datalog::types::{
    AggFunc, AsOf, BinOp, DatalogCommand, DatalogQuery, EdnValue, Expr, FindSpec, Pattern, Rule, Transaction, ValidAt,
    WhereClause,
};
use uuid::Uuid;

fn id() -> u128 {
    Uuid::new_v4().as_u128()
}

fn sym(s: &str) -> EdnValue {
    EdnValue::Symbol(s.to_string())
}

fn kw(s: &str) -> EdnValue {
    EdnValue::Keyword(s.to_string())
}

fn pat(e: EdnValue, a: &str, v: EdnValue) -> WhereClause {
    WhereClause::Pattern(Pattern::new(e, kw(a), v))
}

fn uuid_text(u: u128) -> String {
    Uuid::from_u128(u).to_string()
}

fn rows(r: QueryResult) -> Vec<Vec<Value>> {
    match r {
        QueryResult::QueryResults { results, .. } => results,
        _ => panic!("Expected QueryResults"),
    }
}

fn storage_with(facts: Vec<(u128, &str, Value)>) -> FactStorage {
    let mut storage = FactStorage::new();
    storage.transact(facts.into_iter().map(|(e, a, v)| (e, a.to_string(), v)).collect(), None).unwrap();
    storage
}

fn run(executor: &mut DatalogExecutor, text: &str) -> QueryResult {
    executor.execute(parse_datalog_command(text).unwrap()).unwrap()
}

fn binding(pairs: &[(&str, Value)]) -> Bindings {
    let mut b = Bindings::new();
    for (k, v) in pairs {
        b.insert(k.to_string(), v.clone());
    }
    b
}

fn agg(func: AggFunc, var: &str) -> FindSpec {
    FindSpec::Aggregate { func, var: var.to_string() }
}

fn post(bindings: Vec<Bindings>, find: &Vec<FindSpec>, with: &[&str]) -> Result<Vec<Vec<Value>>, String> {
    let with: Vec<String> = with.iter().map(|s| s.to_string()).collect();
    apply_post_processing(bindings, find, &with, &FunctionRegistry::with_builtins())
}

#[test]
fn test_execute_transact() {
    let mut executor = DatalogExecutor::new(FactStorage::new());
    let result = run(&mut executor, r#"(transact [[:alice :person/name "Alice"] [:alice :person/age 30]])"#);
    match result {
        QueryResult::Transacted(tx_id) => assert!(tx_id > 0),
        _ => panic!("Expected Transacted result"),
    }
    assert_eq!(executor.storage().get_asserted_facts().len(), 2);
}

#[test]
fn test_execute_simple_query() {
    let alice = id();
    let storage = storage_with(vec![
        (alice, ":person/name", Value::String("Alice".to_string())),
        (alice, ":person/age", Value::Integer(30)),
    ]);
    let mut executor = DatalogExecutor::new(storage);
    match run(&mut executor, r#"(query [:find ?name :where [?e :person/name ?name]])"#) {
        QueryResult::QueryResults { vars, results } => {
            assert_eq!(vars, vec!["?name"]);
            assert_eq!(results.len(), 1);
            assert_eq!(results[0][0], Value::String("Alice".to_string()));
        },
        _ => panic!("Expected QueryResults"),
    }
}

#[test]
fn test_execute_multi_pattern_query() {
    let alice = id();
    let storage = storage_with(vec![
        (alice, ":person/name", Value::String("Alice".to_string())),
        (alice, ":person/age", Value::Integer(30)),
    ]);
    let mut executor = DatalogExecutor::new(storage);
    match run(&mut executor, r#"(query [:find ?name ?age :where [?e :person/name ?name] [?e :person/age ?age]])"#) {
        QueryResult::QueryResults { vars, results } => {
            assert_eq!(vars, vec!["?name", "?age"]);
            assert_eq!(results.len(), 1);
            assert_eq!(results[0][0], Value::String("Alice".to_string()));
            assert_eq!(results[0][1], Value::Integer(30));
        },
        _ => panic!("Expected QueryResults"),
    }
}

#[test]
fn test_execute_query_no_results() {
    let mut executor = DatalogExecutor::new(FactStorage::new());
    match run(&mut executor, r#"(query [:find ?name :where [?e :person/name ?name]])"#) {
        QueryResult::QueryResults { vars, results } => {
            assert_eq!(vars, vec!["?name"]);
            assert_eq!(results.len(), 0);
        },
        _ => panic!("Expected QueryResults"),
    }
}

#[test]
fn test_execute_retract() {
    let alice = id();
    let storage = storage_with(vec![(alice, ":person/age", Value::Integer(30))]);
    let mut executor = DatalogExecutor::new(storage);
    assert_eq!(
        executor.storage().get_current_value(&alice, &":person/age".to_string()),
        Some(Value::Integer(30))
    );
    let cmd = format!(r#"(retract [[#uuid "{}" :person/age 30]])"#, uuid_text(alice));
    match run(&mut executor, &cmd) {
        QueryResult::Retracted(tx_id) => assert!(tx_id > 0),
        _ => panic!("Expected Retracted result"),
    }
    assert_eq!(executor.storage().get_current_value(&alice, &":person/age".to_string()), None);
}

#[test]
fn test_transact_with_keyword_entity() {
    let mut executor = DatalogExecutor::new(FactStorage::new());
    match run(&mut executor, r#"(transact [[:alice :person/name "Alice"] [:alice :person/age 30]])"#) {
        QueryResult::Transacted(_) => {},
        _ => panic!("Expected Transacted result"),
    }
    let results =
        rows(run(&mut executor, r#"(query [:find ?name ?age :where [?e :person/name ?name] [?e :person/age ?age]])"#));
    assert_eq!(results.len(), 1);
    assert_eq!(results[0][0], Value::String("Alice".to_string()));
    assert_eq!(results[0][1], Value::Integer(30));
}

#[test]
fn test_register_rule() {
    let mut executor = DatalogExecutor::new(FactStorage::new());
    let result = run(&mut executor, r#"(rule [(reachable ?x ?y) [?x :connected ?y]])"#);
    assert_eq!(result, QueryResult::Done);
    assert_eq!(executor.rules().get_rules("reachable").len(), 1);
}

#[test]
fn executor_test_register_multiple_rules_same_predicate() {
    let mut executor = DatalogExecutor::new(FactStorage::new());
    run(&mut executor, r#"(rule [(reachable ?x ?y) [?x :connected ?y]])"#);
    run(&mut executor, r#"(rule [(reachable ?x ?y) [?x :connected ?z] (reachable ?z ?y)])"#);
    assert_eq!(executor.rules().get_rules("reachable").len(), 2);
}

#[test]
fn executor_test_register_rules_different_predicates() {
    let mut executor = DatalogExecutor::new(FactStorage::new());
    run(&mut executor, r#"(rule [(reachable ?x ?y) [?x :connected ?y]])"#);
    run(&mut executor, r#"(rule [(ancestor ?a ?d) [?a :parent ?d]])"#);
    assert!(executor.rules().has_rule("reachable"));
    assert!(executor.rules().has_rule("ancestor"));
    assert_eq!(executor.rules().predicate_count(), 2);
}

#[test]
fn test_query_with_rule_invocation() {
    let a = id();
    let b = id();
    let c = id();
    let storage = storage_with(vec![(a, ":connected", Value::Ref(b)), (a, ":connected", Value::Ref(c))]);
    let mut executor = DatalogExecutor::new(storage);
    run(&mut executor, r#"(rule [(reachable ?x ?y) [?x :connected ?y]])"#);
    let q = format!(r#"(query [:find ?to :where (reachable #uuid "{}" ?to)])"#, uuid_text(a));
    match run(&mut executor, &q) {
        QueryResult::QueryResults { vars, results } => {
            assert_eq!(vars, vec!["?to"]);
            assert_eq!(results.len(), 2);
            assert!(results.contains(&vec![Value::Ref(b)]));
            assert!(results.contains(&vec![Value::Ref(c)]));
        },
        _ => panic!("Expected QueryResults"),
    }
}

#[test]
fn test_query_mixed_pattern_and_rule() {
    let a = id();
    let b = id();
    let c = id();
    let storage = storage_with(vec![
        (a, ":connected", Value::Ref(b)),
        (a, ":connected", Value::Ref(c)),
        (b, ":person/name", Value::String("Bob".to_string())),
    ]);
    let mut executor = DatalogExecutor::new(storage);
    run(&mut executor, r#"(rule [(reachable ?x ?y) [?x :connected ?y]])"#);
    let q = format!(r#"(query [:find ?name :where (reachable #uuid "{}" ?to) [?to :person/name ?name]])"#, uuid_text(a));
    match run(&mut executor, &q) {
        QueryResult::QueryResults { vars, results } => {
            assert_eq!(vars, vec!["?name"]);
            assert_eq!(results, vec![vec![Value::String("Bob".to_string())]]);
        },
        _ => panic!("Expected QueryResults"),
    }
}

fn reachable_executor(storage: FactStorage) -> DatalogExecutor {
    let mut executor = DatalogExecutor::new(storage);
    run(&mut executor, r#"(rule [(reachable ?x ?y) [?x :connected ?y]])"#);
    run(&mut executor, r#"(rule [(reachable ?x ?y) [?x :connected ?z] (reachable ?z ?y)])"#);
    executor
}

#[test]
fn test_query_with_recursive_transitive_closure() {
    let a = id();
    let b = id();
    let c = id();
    let storage = storage_with(vec![(a, ":connected", Value::Ref(b)), (b, ":connected", Value::Ref(c))]);
    let mut executor = reachable_executor(storage);
    let q = format!(r#"(query [:find ?to :where (reachable #uuid "{}" ?to)])"#, uuid_text(a));
    let results = rows(run(&mut executor, &q));
    assert_eq!(results.len(), 2);
    assert!(results.contains(&vec![Value::Ref(b)]));
    assert!(results.contains(&vec![Value::Ref(c)]));
}

fn transact_cmd(alice: u128, attr: &str, v: EdnValue, from: Option<i64>, to: Option<i64>) -> DatalogCommand {
    DatalogCommand::Transact(Transaction {
        facts: vec![Pattern::new(EdnValue::Uuid(alice), kw(attr), v)],
        valid_from: from,
        valid_to: to,
    })
}

fn attr_query(alice: u128, as_of: Option<AsOf>, valid_at: Option<ValidAt>) -> DatalogCommand {
    DatalogCommand::Query(DatalogQuery {
        find: vec![FindSpec::Variable("?attr".to_string())],
        where_clauses: vec![WhereClause::Pattern(Pattern::new(EdnValue::Uuid(alice), sym("?attr"), sym("?v")))],
        as_of,
        valid_at,
        with_vars: Vec::new(),
    })
}

#[test]
fn test_default_query_filters_to_currently_valid() {
    let mut executor = DatalogExecutor::new(FactStorage::new());
    let alice = id();
    executor.execute(transact_cmd(alice, ":person/name", EdnValue::String("Alice".to_string()), None, None)).unwrap();
    executor.execute(transact_cmd(alice, ":employment/status", kw(":active"), Some(1000), Some(2000))).unwrap();
    let results = rows(executor.execute(attr_query(alice, None, None)).unwrap());
    assert_eq!(results.len(), 1);
}

#[test]
fn test_as_of_counter_shows_past_state() {
    let mut executor = DatalogExecutor::new(FactStorage::new());
    let alice = id();
    executor.execute(transact_cmd(alice, ":person/name", EdnValue::String("Alice".to_string()), None, None)).unwrap();
    executor.execute(transact_cmd(alice, ":person/age", EdnValue::Integer(30), None, None)).unwrap();
    let results =
        rows(executor.execute(attr_query(alice, Some(AsOf::Counter(1)), Some(ValidAt::AnyValidTime))).unwrap());
    assert_eq!(results.len(), 1);
}

#[test]
fn test_valid_at_any_valid_time_shows_all() {
    let mut executor = DatalogExecutor::new(FactStorage::new());
    let alice = id();
    executor.execute(transact_cmd(alice, ":person/name", EdnValue::String("Alice".to_string()), None, None)).unwrap();
    executor.execute(transact_cmd(alice, ":employment/status", kw(":active"), Some(1000), Some(2000))).unwrap();
    let results = rows(executor.execute(attr_query(alice, None, Some(ValidAt::AnyValidTime))).unwrap());
    assert_eq!(results.len(), 2);
}

#[test]
fn test_query_recursive_with_mixed_patterns() {
    let a = id();
    let b = id();
    let c = id();
    let storage = storage_with(vec![
        (a, ":connected", Value::Ref(b)),
        (b, ":connected", Value::Ref(c)),
        (c, ":person/name", Value::String("Charlie".to_string())),
    ]);
    let mut executor = reachable_executor(storage);
    let q = format!(r#"(query [:find ?name :where (reachable #uuid "{}" ?to) [?to :person/name ?name]])"#, uuid_text(a));
    match run(&mut executor, &q) {
        QueryResult::QueryResults { vars, results } => {
            assert_eq!(vars, vec!["?name"]);
            assert_eq!(results, vec![vec![Value::String("Charlie".to_string())]]);
        },
        _ => panic!("Expected QueryResults"),
    }
}

fn n(k: u128) -> u128 {
    Uuid::parse_str(&format!("00000000-0000-0000-0000-00000000000{}", k)).unwrap().as_u128()
}

#[test]
fn test_execute_query_not_as_pure_filter() {
    let alice = n(1);
    let bob = n(2);
    let mut storage = storage_with(vec![
        (alice, ":applied", Value::Boolean(true)),
        (alice, ":rejected", Value::Boolean(true)),
    ]);
    storage.transact(vec![(bob, ":applied".to_string(), Value::Boolean(true))], None).unwrap();
    let query = DatalogQuery::new(
        vec![FindSpec::Variable("?e".to_string())],
        vec![
            pat(sym("?e"), ":applied", EdnValue::Boolean(true)),
            WhereClause::Not(vec![pat(sym("?e"), ":rejected", EdnValue::Boolean(true))]),
        ],
    );
    let mut executor = DatalogExecutor::new(storage);
    let results = rows(executor.execute(DatalogCommand::Query(query)).unwrap());
    assert_eq!(results.len(), 1, "only bob should pass (alice is rejected)");
}

#[test]
fn test_execute_query_with_rules_not_in_query_body() {
    let (a, b, c) = (n(1), n(2), n(3));
    let storage = storage_with(vec![
        (a, ":connected", Value::Ref(b)),
        (a, ":connected", Value::Ref(c)),
        (c, ":blocked", Value::Boolean(true)),
    ]);
    let mut rules = RuleRegistry::new();
    let rule = Rule {
        head: vec![sym("reachable"), sym("?from"), sym("?to")],
        body: vec![pat(sym("?from"), ":connected", sym("?to"))],
    };
    rules.register_rule("reachable".to_string(), rule).unwrap();
    let query = DatalogQuery::new(
        vec![FindSpec::Variable("?x".to_string())],
        vec![
            WhereClause::RuleInvocation { predicate: "reachable".to_string(), args: vec![sym("?_a"), sym("?x")] },
            WhereClause::Not(vec![pat(sym("?x"), ":blocked", EdnValue::Boolean(true))]),
        ],
    );
    let mut executor = DatalogExecutor::new_with_rules(storage, rules);
    let results = rows(executor.execute(DatalogCommand::Query(query)).unwrap());
    assert_eq!(results.len(), 1, "c should be excluded (blocked), only b passes");
}

fn not_join_blocked(var: &str) -> WhereClause {
    WhereClause::NotJoin {
        join_vars: vec![var.to_string()],
        clauses: vec![pat(sym(var), ":has-dep", sym("?d")), pat(sym("?d"), ":blocked", EdnValue::Boolean(true))],
    }
}

#[test]
fn test_execute_query_not_join_basic() {
    let alice = id();
    let bob = id();
    let dep1 = id();
    let storage = storage_with(vec![
        (alice, ":submitted", Value::Boolean(true)),
        (alice, ":has-dep", Value::Ref(dep1)),
        (dep1, ":blocked", Value::Boolean(true)),
        (bob, ":submitted", Value::Boolean(true)),
    ]);
    let query = DatalogQuery::new(
        vec![FindSpec::Variable("?x".to_string())],
        vec![pat(sym("?x"), ":submitted", EdnValue::Boolean(true)), not_join_blocked("?x")],
    );
    let mut executor = DatalogExecutor::new(storage);
    let results = rows(executor.execute(DatalogCommand::Query(query)).unwrap());
    assert_eq!(results.len(), 1, "only bob should be returned");
}

#[test]
fn test_execute_query_with_rules_not_join_in_query_body() {
    let (root, a, b, dep1) = (id(), id(), id(), id());
    let storage = storage_with(vec![
        (root, ":edge", Value::Ref(a)),
        (root, ":edge", Value::Ref(b)),
        (a, ":has-dep", Value::Ref(dep1)),
        (dep1, ":blocked", Value::Boolean(true)),
    ]);
    let mut rules = RuleRegistry::new();
    let rule = Rule { head: vec![sym("reachable"), sym("?x"), sym("?y")], body: vec![pat(sym("?x"), ":edge", sym("?y"))] };
    rules.register_rule("reachable".to_string(), rule).unwrap();
    let query = DatalogQuery::new(
        vec![FindSpec::Variable("?y".to_string())],
        vec![
            WhereClause::RuleInvocation {
                predicate: "reachable".to_string(),
                args: vec![EdnValue::Uuid(root), sym("?y")],
            },
            not_join_blocked("?y"),
        ],
    );
    let mut executor = DatalogExecutor::new_with_rules(storage, rules);
    let results = rows(executor.execute(DatalogCommand::Query(query)).unwrap());
    assert_eq!(results.len(), 1, "only b should pass");
}

#[test]
fn test_optimizer_does_not_change_query_results() {
    let alice = id();
    let bob = id();
    let storage = storage_with(vec![
        (alice, ":name", Value::String("Alice".to_string())),
        (alice, ":friend", Value::Ref(bob)),
        (bob, ":name", Value::String("Bob".to_string())),
    ]);
    let mut executor = DatalogExecutor::new(storage);
    let results = rows(run(&mut executor, "(query [:find ?name :where [?e :name ?name]])"));
    assert_eq!(results.len(), 2, "Alice and Bob both have names");
}

#[test]
fn test_apply_aggregation_count_basic() {
    let bindings = vec![
        binding(&[("?e", Value::Integer(1))]),
        binding(&[("?e", Value::Integer(2))]),
        binding(&[("?e", Value::Integer(3))]),
    ];
    let results = post(bindings, &vec![agg(AggFunc::Count, "?e")], &[]).unwrap();
    assert_eq!(results.len(), 1);
    assert_eq!(results[0][0], Value::Integer(3));
}

#[test]
fn test_apply_aggregation_count_with_grouping() {
    let s = |x: &str| Value::String(x.to_string());
    let bindings = vec![
        binding(&[("?dept", s("eng")), ("?e", Value::Integer(1))]),
        binding(&[("?dept", s("eng")), ("?e", Value::Integer(2))]),
        binding(&[("?dept", s("hr")), ("?e", Value::Integer(3))]),
    ];
    let find = vec![FindSpec::Variable("?dept".to_string()), agg(AggFunc::Count, "?e")];
    let mut results = post(bindings, &find, &[]).unwrap();
    results.sort_by_key(|r| match &r[0] {
        Value::String(s) => s.clone(),
        _ => String::new(),
    });
    assert_eq!(results.len(), 2);
    assert_eq!(results[0], vec![s("eng"), Value::Integer(2)]);
    assert_eq!(results[1], vec![s("hr"), Value::Integer(1)]);
}

#[test]
fn test_apply_aggregation_count_distinct() {
    let bindings = vec![
        binding(&[("?v", Value::Integer(1))]),
        binding(&[("?v", Value::Integer(1))]),
        binding(&[("?v", Value::Integer(2))]),
    ];
    let results = post(bindings, &vec![agg(AggFunc::CountDistinct, "?v")], &[]).unwrap();
    assert_eq!(results[0][0], Value::Integer(2));
}

#[test]
fn test_apply_aggregation_count_empty_no_grouping_vars() {
    let results = post(vec![], &vec![agg(AggFunc::Count, "?e")], &[]).unwrap();
    assert_eq!(results.len(), 1, "should return one row with 0");
    assert_eq!(results[0][0], Value::Integer(0));
}

#[test]
fn test_apply_aggregation_count_empty_with_grouping_var() {
    let find = vec![FindSpec::Variable("?dept".to_string()), agg(AggFunc::Count, "?e")];
    let results = post(vec![], &find, &[]).unwrap();
    assert_eq!(results.len(), 0, "should return empty set");
}

#[test]
fn test_apply_aggregation_sum_integers() {
    let bindings = vec![
        binding(&[("?v", Value::Integer(10))]),
        binding(&[("?v", Value::Integer(20))]),
        binding(&[("?v", Value::Integer(30))]),
    ];
    let results = post(bindings, &vec![agg(AggFunc::Sum, "?v")], &[]).unwrap();
    assert_eq!(results[0][0], Value::Integer(60));
}

#[test]
fn test_apply_aggregation_sum_distinct_deduplicates() {
    let bindings = vec![
        binding(&[("?v", Value::Integer(5))]),
        binding(&[("?v", Value::Integer(5))]),
        binding(&[("?v", Value::Integer(10))]),
    ];
    let results = post(bindings, &vec![agg(AggFunc::SumDistinct, "?v")], &[]).unwrap();
    assert_eq!(results[0][0], Value::Integer(15));
}

#[test]
fn test_apply_aggregation_sum_type_error() {
    let bindings = vec![binding(&[("?v", Value::String("bad".to_string()))])];
    let result = post(bindings, &vec![agg(AggFunc::Sum, "?v")], &[]);
    assert!(result.is_err(), "sum of string should fail");
}

#[test]
fn test_apply_aggregation_min_integers() {
    let bindings = vec![
        binding(&[("?v", Value::Integer(30))]),
        binding(&[("?v", Value::Integer(10))]),
        binding(&[("?v", Value::Integer(20))]),
    ];
    let results = post(bindings, &vec![agg(AggFunc::Min, "?v")], &[]).unwrap();
    assert_eq!(results[0][0], Value::Integer(10));
}

#[test]
fn test_apply_aggregation_max_strings() {
    let s = |x: &str| Value::String(x.to_string());
    let bindings =
        vec![binding(&[("?v", s("apple"))]), binding(&[("?v", s("zebra"))]), binding(&[("?v", s("mango"))])];
    let results = post(bindings, &vec![agg(AggFunc::Max, "?v")], &[]).unwrap();
    assert_eq!(results[0][0], s("zebra"));
}

#[test]
fn test_apply_aggregation_min_type_error_boolean() {
    let bindings = vec![binding(&[("?v", Value::Boolean(true))])];
    let result = post(bindings, &vec![agg(AggFunc::Min, "?v")], &[]);
    assert!(result.is_err(), "min of boolean should fail");
}

#[test]
fn test_apply_aggregation_min_mixed_int_float_error() {
    let bindings = vec![binding(&[("?v", Value::Integer(1))]), binding(&[("?v", Value::Float("2.0".to_string()))])];
    let result = post(bindings, &vec![agg(AggFunc::Min, "?v")], &[]);
    assert!(result.is_err(), "min of mixed Integer/Float should fail");
}

#[test]
fn test_apply_aggregation_skips_nulls_in_sum() {
    let bindings = vec![
        binding(&[("?v", Value::Integer(10))]),
        binding(&[("?v", Value::Null)]),
        binding(&[("?v", Value::Integer(20))]),
    ];
    let results = post(bindings, &vec![agg(AggFunc::Sum, "?v")], &[]).unwrap();
    assert_eq!(results[0][0], Value::Integer(30));
}

#[test]
fn test_apply_aggregation_skips_nulls_in_count() {
    let bindings = vec![
        binding(&[("?v", Value::Integer(1))]),
        binding(&[("?v", Value::Null)]),
        binding(&[("?v", Value::Integer(2))]),
    ];
    let results = post(bindings, &vec![agg(AggFunc::Count, "?v")], &[]).unwrap();
    assert_eq!(results[0][0], Value::Integer(2));
}

#[test]
fn test_apply_aggregation_sum_empty_bindings() {
    let results = post(vec![], &vec![agg(AggFunc::Sum, "?v")], &[]).unwrap();
    assert_eq!(results.len(), 0, "sum on empty should return empty set");
}

#[test]
fn test_apply_aggregation_with_var_grouping() {
    let eng = Value::String("eng".to_string());
    let bindings = vec![
        binding(&[("?dept", eng.clone()), ("?salary", Value::Integer(50)), ("?e", Value::Integer(1))]),
        binding(&[("?dept", eng.clone()), ("?salary", Value::Integer(50)), ("?e", Value::Integer(2))]),
    ];
    let again = vec![
        binding(&[("?dept", eng.clone()), ("?salary", Value::Integer(50)), ("?e", Value::Integer(1))]),
        binding(&[("?dept", eng), ("?salary", Value::Integer(50)), ("?e", Value::Integer(2))]),
    ];
    let find = vec![FindSpec::Variable("?dept".to_string()), agg(AggFunc::Sum, "?salary")];
    let results_no_with = post(bindings, &find, &[]).unwrap();
    assert_eq!(results_no_with.len(), 1);
    assert_eq!(results_no_with[0][1], Value::Integer(100));
    let results_with = post(again, &find, &["?e"]).unwrap();
    assert_eq!(results_with.len(), 2);
    assert_eq!(results_with[0][1], Value::Integer(50));
}

fn empty_query(valid_at: Option<ValidAt>) -> DatalogQuery {
    DatalogQuery { find: vec![], where_clauses: vec![], as_of: None, valid_at, with_vars: vec![] }
}

#[test]
fn test_filter_facts_for_query_returns_net_asserted_slice() {
    let alice = id();
    let mut storage = FactStorage::new();
    storage.transact(vec![(alice, ":person/name".to_string(), Value::String("Alice".to_string()))], None).unwrap();
    storage.retract(vec![(alice, ":person/name".to_string(), Value::String("Alice".to_string()))]).unwrap();
    storage.transact(vec![(alice, ":person/age".to_string(), Value::Integer(30))], None).unwrap();
    let executor = DatalogExecutor::new(storage);
    let facts = executor.filter_facts_for_query(&empty_query(Some(ValidAt::AnyValidTime)), 0);
    assert_eq!(facts.len(), 1, "expected exactly 1 net-asserted fact");
    assert_eq!(facts[0].attribute, ":person/age");
}

#[test]
fn test_filter_facts_for_query_valid_time_filter() {
    let alice = id();
    let mut storage = FactStorage::new();
    storage
        .transact(
            vec![(alice, ":employment/status".to_string(), Value::String("active".to_string()))],
            Some(TransactOptions::new(Some(1000), Some(2000))),
        )
        .unwrap();
    storage
        .transact(
            vec![(alice, ":person/name".to_string(), Value::String("Alice".to_string()))],
            Some(TransactOptions::new(Some(0), None)),
        )
        .unwrap();
    let executor = DatalogExecutor::new(storage);
    let inside = executor.filter_facts_for_query(&empty_query(Some(ValidAt::Timestamp(1500))), 0);
    assert_eq!(inside.len(), 2, "both facts visible at t=1500");
    let outside = executor.filter_facts_for_query(&empty_query(Some(ValidAt::Timestamp(3000))), 0);
    assert_eq!(outside.len(), 1, "only open-ended fact visible at t=3000");
    assert_eq!(outside[0].attribute, ":person/name");
}

#[test]
fn test_execute_expr_filter_lt() {
    let mut executor = DatalogExecutor::new_with_rules(FactStorage::new(), RuleRegistry::new());
    run(&mut executor, "(transact [[:item1 :item/price 50] [:item2 :item/price 150]])");
    // [:find ?e :where [?e :item/price ?p] [(< ?p 100)]]
    let query = DatalogQuery::new(
        vec![FindSpec::Variable("?e".to_string())],
        vec![
            pat(sym("?e"), ":item/price", sym("?p")),
            WhereClause::Expr {
                expr: Expr::BinOp(BinOp::Lt, Box::new(Expr::Var("?p".to_string())), Box::new(Expr::Lit(Value::Integer(100)))),
                binding: None,
            },
        ],
    );
    let result = executor.execute(DatalogCommand::Query(query));
    assert!(result.is_ok(), "expr filter query failed");
    assert_eq!(rows(result.unwrap()).len(), 1, "expected exactly one result");
}

#[test]
fn test_apply_or_clauses_union_from_two_branches() {
    let e1 = id();
    let e2 = id();
    let storage = storage_with(vec![(e1, ":color", Value::Keyword(":red".to_string())), (e2, ":color", Value::Keyword(":blue".to_string()))]);
    let mut executor = DatalogExecutor::new(storage);
    // [:find ?e :where (or [?e :color :red] [?e :color :blue])]
    let query = DatalogQuery::new(
        vec![FindSpec::Variable("?e".to_string())],
        vec![WhereClause::Or(vec![vec![pat(sym("?e"), ":color", kw(":red"))], vec![pat(sym("?e"), ":color", kw(":blue"))]])],
    );
    let results = rows(executor.execute(DatalogCommand::Query(query)).unwrap());
    assert_eq!(results.len(), 2, "both entities should match via or");
}

#[test]
fn test_apply_or_clauses_deduplication() {
    let e1 = id();
    let storage = storage_with(vec![
        (e1, ":color", Value::Keyword(":red".to_string())),
        (e1, ":shape", Value::Keyword(":circle".to_string())),
    ]);
    let mut executor = DatalogExecutor::new(storage);
    // [:find ?e :where (or [?e :color :red] [?e :shape :circle])]
    let query = DatalogQuery::new(
        vec![FindSpec::Variable("?e".to_string())],
        vec![WhereClause::Or(vec![vec![pat(sym("?e"), ":color", kw(":red"))], vec![pat(sym("?e"), ":shape", kw(":circle"))]])],
    );
    let results = rows(executor.execute(DatalogCommand::Query(query)).unwrap());
    assert_eq!(results.len(), 1, "one entity matched by both branches → deduplicated");
}

#[test]
fn execute_transact_non_keyword_attribute_error() {
    let mut executor = DatalogExecutor::new(FactStorage::new());
    let cmd = DatalogCommand::Transact(Transaction {
        facts: vec![Pattern::new(kw(":e"), EdnValue::String("not-a-keyword".to_string()), EdnValue::String("value".to_string()))],
        valid_from: None,
        valid_to: None,
    });
    assert!(executor.execute(cmd).is_err(), "non-keyword attribute in transact must fail");
}

#[test]
fn execute_retract_non_keyword_attribute_error() {
    let mut executor = DatalogExecutor::new(FactStorage::new());
    let cmd = DatalogCommand::Retract(Transaction {
        facts: vec![Pattern::new(kw(":e"), EdnValue::Integer(42), EdnValue::String("value".to_string()))],
        valid_from: None,
        valid_to: None,
    });
    assert!(executor.execute(cmd).is_err(), "non-keyword attribute in retract must fail");
}

#[test]
fn execute_rule_empty_head_error() {
    let mut executor = DatalogExecutor::new(FactStorage::new());
    let cmd = DatalogCommand::Rule(Rule { head: vec![], body: vec![pat(sym("?x"), ":a", sym("?v"))] });
    let r = executor.execute(cmd);
    assert!(r.is_err(), "rule with empty head must fail");
    assert_eq!(r.unwrap_err(), "Rule head cannot be empty");
}

#[test]
fn execute_rule_non_symbol_head_error() {
    let mut executor = DatalogExecutor::new(FactStorage::new());
    let cmd = DatalogCommand::Rule(Rule { head: vec![EdnValue::Integer(99)], body: vec![pat(sym("?x"), ":a", sym("?v"))] });
    let r = executor.execute(cmd);
    assert!(r.is_err(), "rule head starting with non-symbol must fail");
    assert_eq!(r.unwrap_err(), "Rule head must start with a symbol (predicate name)");
}

fn agg_query(find: FindSpec, attr: &str, var: &str) -> DatalogCommand {
    DatalogCommand::Query(DatalogQuery::new(vec![find], vec![pat(sym("?e"), attr, sym(var))]))
}

#[test]
fn test_agg_count_empty_bindings_returns_zero() {
    let mut executor = DatalogExecutor::new(FactStorage::new());
    let results = rows(executor.execute(agg_query(agg(AggFunc::Count, "?x"), ":no-such-attr", "?x")).unwrap());
    assert_eq!(results.len(), 1, "should return one row with count 0");
    assert_eq!(results[0][0], Value::Integer(0));
}

#[test]
fn test_agg_sum_empty_no_grouping_returns_zero() {
    let storage = storage_with(vec![(id(), ":item/price", Value::Integer(50))]);
    let mut executor = DatalogExecutor::new(storage);
    let results = rows(executor.execute(agg_query(agg(AggFunc::Sum, "?v"), ":no-such-attr", "?v")).unwrap());
    assert_eq!(results.len(), 0, "empty bindings with sum returns no rows");
}

#[test]
fn test_agg_min_max_on_all_null_group_skips_row() {
    let storage = storage_with(vec![(id(), ":item/score", Value::Null)]);
    let mut executor = DatalogExecutor::new(storage);
    let results = rows(executor.execute(agg_query(agg(AggFunc::Min, "?s"), ":item/score", "?s")).unwrap());
    assert_eq!(results.len(), 0, "min on all-null group should produce 0 rows");
}

#[test]
fn test_agg_min_on_strings() {
    let storage = storage_with(vec![
        (id(), ":item/name", Value::String("banana".to_string())),
        (id(), ":item/name", Value::String("apple".to_string())),
    ]);
    let mut executor = DatalogExecutor::new(storage);
    let results = rows(executor.execute(agg_query(agg(AggFunc::Min, "?n"), ":item/name", "?n")).unwrap());
    assert_eq!(results.len(), 1, "expected one result");
    assert_eq!(results[0][0], Value::String("apple".to_string()));
}

#[test]
fn test_evaluate_branch_with_timestamp_valid_at() {
    let e1 = id();
    let storage = storage_with(vec![(e1, ":tag", Value::Integer(1))]);
    let facts = storage.get_asserted_facts();
    let branch = vec![pat(sym("?e"), ":tag", sym("?v"))];
    let initial = binding(&[("?seed", Value::Integer(0))]);
    let ts_result = evaluate_branch(&branch, vec![initial.clone()], &facts).unwrap();
    assert_eq!(ts_result.len(), 1, "timestamp valid_at should match");
    let any_result = evaluate_branch(&branch, vec![initial], &facts).unwrap();
    assert_eq!(any_result.len(), 1, "any_valid_time should match");
}

// ---- further cases ----

#[test]
fn transact_error_messages_name_the_fault() {
    let mut executor = DatalogExecutor::new(FactStorage::new());
    let bad_entity = DatalogCommand::Transact(Transaction::new(vec![Pattern::new(
        EdnValue::Integer(1),
        kw(":a"),
        EdnValue::Integer(2),
    )]));
    let err = executor.execute(bad_entity).unwrap_err();
    assert!(err.starts_with("Invalid entity: Expected keyword or UUID for entity, got "));
    let bad_attr = DatalogCommand::Transact(Transaction::new(vec![Pattern::new(kw(":e"), EdnValue::Integer(3), EdnValue::Integer(2))]));
    assert_eq!(executor.execute(bad_attr).unwrap_err(), "Attribute must be a keyword");
    let bad_value = DatalogCommand::Transact(Transaction::new(vec![Pattern::new(kw(":e"), kw(":a"), sym("?v"))]));
    assert_eq!(executor.execute(bad_value).unwrap_err(), "Invalid value: Cannot convert unbound variable ?v to value");
    assert_eq!(executor.storage().get_all_facts().len(), 0, "a refused transaction stores nothing");
}

#[test]
fn aggregate_headers_and_grouped_counts_through_queries() {
    let s = |x: &str| Value::String(x.to_string());
    let storage = storage_with(vec![
        (n(1), ":dept", s("eng")),
        (n(2), ":dept", s("eng")),
        (n(3), ":dept", s("hr")),
    ]);
    let mut executor = DatalogExecutor::new(storage);
    let cmd = DatalogCommand::Query(DatalogQuery::new(
        vec![FindSpec::Variable("?d".to_string()), agg(AggFunc::Count, "?e")],
        vec![pat(sym("?e"), ":dept", sym("?d"))],
    ));
    match executor.execute(cmd).unwrap() {
        QueryResult::QueryResults { vars, results } => {
            assert_eq!(vars, vec!["?d", "(count ?e)"]);
            assert_eq!(results, vec![vec![s("eng"), Value::Integer(2)], vec![s("hr"), Value::Integer(1)]]);
        },
        _ => panic!("Expected QueryResults"),
    }
}

#[test]
fn or_join_keeps_only_outer_variables() {
    let e1 = id();
    let storage = storage_with(vec![
        (e1, ":kind", Value::Keyword(":a".to_string())),
        (e1, ":tag", Value::Integer(1)),
        (e1, ":tag", Value::Integer(2)),
    ]);
    let mut executor = DatalogExecutor::new(storage);
    let query = DatalogQuery::new(
        vec![FindSpec::Variable("?e".to_string())],
        vec![
            pat(sym("?e"), ":kind", kw(":a")),
            WhereClause::OrJoin {
                join_vars: vec!["?e".to_string()],
                branches: vec![vec![pat(sym("?e"), ":tag", sym("?t"))]],
            },
        ],
    );
    let results = rows(executor.execute(DatalogCommand::Query(query)).unwrap());
    assert_eq!(results, vec![vec![Value::Ref(e1)]], "branch rows differ only in ?t and collapse");
}

#[test]
fn query_with_bad_rule_invocation_arity_is_an_error() {
    let mut executor = DatalogExecutor::new(FactStorage::new());
    run(&mut executor, r#"(rule [(reachable ?x ?y) [?x :connected ?y]])"#);
    let query = DatalogQuery::new(
        vec![FindSpec::Variable("?x".to_string())],
        vec![WhereClause::RuleInvocation {
            predicate: "reachable".to_string(),
            args: vec![sym("?x"), sym("?y"), sym("?z")],
        }],
    );
    let err = executor.execute(DatalogCommand::Query(query)).unwrap_err();
    assert_eq!(err, "Rule invocation 'reachable' must have 1 or 2 arguments, got 3");
}

#[test]
fn division_overflow_in_a_query_is_reported() {
    let storage = storage_with(vec![(id(), ":n", Value::Integer(i64::MIN))]);
    let mut executor = DatalogExecutor::new(storage);
    let query = DatalogQuery::new(
        vec![FindSpec::Variable("?q".to_string())],
        vec![
            pat(sym("?e"), ":n", sym("?v")),
            WhereClause::Expr {
                expr: Expr::BinOp(BinOp::Div, Box::new(Expr::Var("?v".to_string())), Box::new(Expr::Lit(Value::Integer(-1)))),
                binding: Some("?q".to_string()),
            },
        ],
    );
    let err = executor.execute(DatalogCommand::Query(query)).unwrap_err();
    assert_eq!(err, "integer overflow in expression evaluation");
}

#[test]
fn test_evaluate_branch_empty_incoming_returns_empty() {
    let storage = storage_with(vec![(id(), ":a", Value::Integer(1))]);
    let facts = storage.get_asserted_facts();
    let branch = vec![pat(sym("?x"), ":a", sym("?v"))];
    let result = evaluate_branch(&branch, vec![], &facts).unwrap();
    assert_eq!(result.len(), 0, "empty incoming should return empty");
}

#[test]
fn test_evaluate_branch_not_filter_excludes_matching() {
    let e1 = id();
    let e2 = id();
    let storage = storage_with(vec![
        (e1, ":color", Value::Keyword(":red".to_string())),
        (e2, ":color", Value::Keyword(":blue".to_string())),
        (e1, ":flagged", Value::Boolean(true)),
    ]);
    let mut executor = DatalogExecutor::new(storage);
    let query = DatalogQuery::new(
        vec![FindSpec::Variable("?e".to_string())],
        vec![
            pat(sym("?e"), ":color", sym("?c")),
            WhereClause::NotJoin { join_vars: vec!["?e".to_string()], clauses: vec![pat(sym("?e"), ":flagged", sym("?fv"))] },
        ],
    );
    let results = rows(executor.execute(DatalogCommand::Query(query)).expect("query failed"));
    assert_eq!(results.len(), 1, "only e2 (non-flagged) should match");
}

#[test]
fn test_or_join_deduplication() {
    let e1 = id();
    let storage = storage_with(vec![
        (e1, ":color", Value::Keyword(":red".to_string())),
        (e1, ":shape", Value::Keyword(":circle".to_string())),
    ]);
    let mut executor = DatalogExecutor::new(storage);
    let query = DatalogQuery::new(
        vec![FindSpec::Variable("?e".to_string())],
        vec![
            pat(sym("?e"), ":color", sym("?c")),
            WhereClause::OrJoin {
                join_vars: vec!["?e".to_string()],
                branches: vec![vec![pat(sym("?e"), ":color", sym("?c2"))], vec![pat(sym("?e"), ":shape", sym("?s"))]],
            },
        ],
    );
    let results = rows(executor.execute(DatalogCommand::Query(query)).expect("query failed"));
    assert_eq!(results.len(), 1, "e1 should appear once despite two matching branches");
}

#[test]
fn test_evaluate_branch_empty_patterns_passes_incoming_through() {
    let storage = storage_with(vec![(id(), ":a", Value::Integer(10))]);
    let facts = storage.get_asserted_facts();
    let branch = vec![WhereClause::Expr { expr: Expr::Lit(Value::Boolean(true)), binding: None }];
    let initial = binding(&[("?x", Value::Integer(42))]);
    let result = evaluate_branch(&branch, vec![initial], &facts).unwrap();
    assert_eq!(result.len(), 1, "expr-only branch should pass binding through");
}

#[test]
fn test_evaluate_branch_not_join_excludes_matching() {
    let e1 = id();
    let e2 = id();
    let storage = storage_with(vec![
        (e1, ":status", Value::Keyword(":active".to_string())),
        (e2, ":status", Value::Keyword(":inactive".to_string())),
        (e2, ":blocked", Value::Boolean(true)),
    ]);
    let mut executor = DatalogExecutor::new(storage);
    let query = DatalogQuery::new(
        vec![FindSpec::Variable("?e".to_string())],
        vec![
            pat(sym("?e"), ":status", sym("?s")),
            WhereClause::NotJoin { join_vars: vec!["?e".to_string()], clauses: vec![pat(sym("?e"), ":blocked", sym("?b"))] },
        ],
    );
    let results = rows(executor.execute(DatalogCommand::Query(query)).expect("query failed"));
    assert_eq!(results.len(), 1, "only non-blocked entity should be returned");
}

#[test]
fn test_not_body_expr_only_filters_binding() {
    let storage = storage_with(vec![(id(), ":item/price", Value::Integer(200)), (id(), ":item/price", Value::Integer(50))]);
    let mut executor = DatalogExecutor::new(storage);
    let gt = Expr::BinOp(BinOp::Gt, Box::new(Expr::Var("?p".to_string())), Box::new(Expr::Lit(Value::Integer(100))));
    let query = DatalogQuery::new(
        vec![FindSpec::Variable("?e".to_string())],
        vec![pat(sym("?e"), ":item/price", sym("?p")), WhereClause::Not(vec![WhereClause::Expr { expr: gt, binding: None }])],
    );
    let results = rows(executor.execute(DatalogCommand::Query(query)).expect("query failed"));
    assert_eq!(results.len(), 1, "only the item with price 50 should survive");
}

#[test]
fn test_evaluate_branch_no_match_patterns_empty_bindings_returns_empty() {
    let facts = FactStorage::new().get_asserted_facts();
    let branch = vec![pat(sym("?x"), ":no-such-attr", sym("?v"))];
    let initial = binding(&[("?init", Value::Integer(1))]);
    let result = evaluate_branch(&branch, vec![initial], &facts).unwrap();
    assert_eq!(result.len(), 0, "no matching facts should return empty bindings");
}

#[test]
fn test_evaluate_branch_or_clause_produces_empty_bindings() {
    let facts = FactStorage::new().get_asserted_facts();
    let or_branch = vec![pat(sym("?x"), ":no-attr", sym("?v"))];
    let branch = vec![WhereClause::Or(vec![or_branch])];
    let initial = binding(&[("?seed", Value::Integer(1))]);
    let result = evaluate_branch(&branch, vec![initial], &facts).unwrap();
    assert_eq!(result.len(), 0, "or clause with no matches should yield empty");
}

#[test]
fn test_transact_with_tx_level_valid_time() {
    let mut executor = DatalogExecutor::new(FactStorage::new());
    let cmd = parse_datalog_command(
        r#"(transact {:valid-from "2020-01-01T00:00:00Z" :valid-to "2025-01-01T00:00:00Z"} [[:alice :person/name "Alice"]])"#,
    )
    .expect("parse with tx-level valid-time should succeed");
    assert!(executor.execute(cmd).is_ok(), "transact with tx-level valid-time should succeed");
}

#[test]
fn test_transact_with_per_fact_valid_time() {
    let mut executor = DatalogExecutor::new(FactStorage::new());
    let cmd = parse_datalog_command(r#"(transact [[:alice :person/name "Alice" {:valid-from "2020-01-01T00:00:00Z"}]])"#)
        .expect("parse with per-fact valid-time should succeed");
    assert!(executor.execute(cmd).is_ok(), "transact with per-fact valid-time should succeed");
}

#[test]
fn test_transact_with_valid_to_only_at_tx_level() {
    let mut executor = DatalogExecutor::new(FactStorage::new());
    let cmd = parse_datalog_command(r#"(transact {:valid-to "2025-01-01T00:00:00Z"} [[:alice :person/name "Alice"]])"#)
        .expect("parse with tx-level valid-to only should succeed");
    assert!(executor.execute(cmd).is_ok(), "transact with valid-to only at tx level should succeed");
}

#[test]
fn test_transact_with_valid_to_only_per_fact() {
    let mut executor = DatalogExecutor::new(FactStorage::new());
    let cmd = parse_datalog_command(r#"(transact [[:alice :person/name "Alice" {:valid-to "2025-01-01T00:00:00Z"}]])"#)
        .expect("parse with per-fact valid-to only should succeed");
    assert!(executor.execute(cmd).is_ok(), "transact with valid-to only per fact should succeed");
}

#[test]
fn execute_transact_pseudo_attr_error() {
    let mut executor = DatalogExecutor::new(FactStorage::new());
    let cmd = DatalogCommand::Transact(Transaction {
        facts: vec![Pattern::new(kw(":e"), kw(":db/valid-from"), EdnValue::Integer(0))],
        valid_from: None,
        valid_to: None,
    });
    let r = executor.execute(cmd);
    assert!(r.is_err(), "transacting a pseudo-attribute must fail");
    assert_eq!(r.unwrap_err(), "Cannot transact a pseudo-attribute");
    assert!(executor.storage().get_asserted_facts().is_empty());
}

#[test]
fn execute_retract_pseudo_attr_error() {
    let mut executor = DatalogExecutor::new(FactStorage::new());
    let cmd = DatalogCommand::Retract(Transaction {
        facts: vec![Pattern::new(kw(":e"), kw(":db/tx-count"), EdnValue::Integer(0))],
        valid_from: None,
        valid_to: None,
    });
    let r = executor.execute(cmd);
    assert!(r.is_err(), "retracting a pseudo-attribute must fail");
}

#[test]
fn transact_valid_at_pseudo_attr_error_stores_nothing() {
    let mut executor = DatalogExecutor::new(FactStorage::new());
    let cmd = DatalogCommand::Transact(Transaction {
        facts: vec![
            Pattern::new(kw(":e"), kw(":name"), EdnValue::String("ok".to_string())),
            Pattern::new(kw(":e"), kw(":db/valid-at"), EdnValue::Integer(0)),
        ],
        valid_from: None,
        valid_to: None,
    });
    assert!(executor.execute(cmd).is_err());
    assert!(executor.storage().get_asserted_facts().is_empty());
}

#[test]
fn test_execute_query_with_rules_valid_at_timestamp() {
    let mut executor = DatalogExecutor::new(FactStorage::new());
    let rule_cmd = parse_datalog_command(r#"(rule [(tagged ?e) [?e :item/tag ?v]])"#).expect("rule parse failed");
    executor.execute(rule_cmd).expect("rule register failed");
    executor
        .execute(parse_datalog_command(r#"(transact [[:item1 :item/tag "x"]])"#).expect("transact parse failed"))
        .expect("transact failed");
    let q_ts = DatalogQuery {
        find: vec![FindSpec::Variable("?e".to_string())],
        where_clauses: vec![],
        as_of: None,
        valid_at: Some(ValidAt::Timestamp(946684800000)),
        with_vars: vec![],
    };
    let r_ts = executor.execute_query_with_rules(q_ts, 0);
    assert!(r_ts.is_ok(), "execute_query_with_rules with Timestamp must not error");
    let q_any = DatalogQuery {
        find: vec![FindSpec::Variable("?e".to_string())],
        where_clauses: vec![],
        as_of: None,
        valid_at: Some(ValidAt::AnyValidTime),
        with_vars: vec![],
    };
    let r_any = executor.execute_query_with_rules(q_any, 0);
    assert!(r_any.is_ok(), "execute_query_with_rules with AnyValidTime must not error");
    let err_cmd = parse_datalog_command("(query [:find ?e ?vf :where (tagged ?e) [?e :db/valid-from ?vf]])")
        .expect("err query parse failed");
    let err_result = executor.execute(err_cmd);
    assert!(err_result.is_err(), "per-fact pseudo-attr without :any-valid-time in rules query must fail");
}

#[test]
fn plain_query_pseudo_attr_without_any_valid_time_fails() {
    let mut executor = DatalogExecutor::new(FactStorage::new());
    let cmd = parse_datalog_command("(query [:find ?e ?tc :where [?e :item/tag ?v] [?e :db/tx-count ?tc]])").unwrap();
    let r = executor.execute(cmd);
    assert_eq!(
        r.unwrap_err(),
        "temporal pseudo-attributes :db/valid-from, :db/valid-to, :db/tx-count, and :db/tx-id require :any-valid-time; add :any-valid-time to your query"
    );
    let cmd = parse_datalog_command(
        "(query [:find ?e ?tc :valid-at :any-valid-time :where [?e :item/tag ?v] [?e :db/tx-count ?tc]])",
    )
    .unwrap();
    assert!(executor.execute(cmd).is_ok());
}
