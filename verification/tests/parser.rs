use minigraf::query::datalog::parser::{parse_datalog_command, parse_datalog_command_checked, parse_edn, tokenize, Token};
use minigraf::query::datalog::types::{
    AsOf, DatalogCommand, DatalogQuery, EdnValue, FindSpec, Rule, Transaction, ValidAt, WhereClause,
};

fn vars(names: &[&str]) -> Vec<FindSpec> {
    names.iter().map(|n| FindSpec::Variable(n.to_string())).collect()
}

fn query_of(input: &str) -> DatalogQuery {
    match parse_datalog_command(input).unwrap() {
        DatalogCommand::Query(q) => q,
        _ => panic!("Expected Query command"),
    }
}

fn rule_of(input: &str) -> Rule {
    match parse_datalog_command(input).unwrap() {
        DatalogCommand::Rule(r) => r,
        _ => panic!("Expected Rule command"),
    }
}

fn transact_of(input: &str) -> Transaction {
    match parse_datalog_command(input).unwrap() {
        DatalogCommand::Transact(t) => t,
        _ => panic!("Expected Transact command"),
    }
}

#[test]
fn test_tokenize_basic() {
    let tokens = tokenize("(query [:find ?x])").unwrap();
    assert_eq!(tokens[0], Token::LeftParen);
    assert_eq!(tokens[1], Token::Symbol("query".to_string()));
    assert_eq!(tokens[2], Token::LeftBracket);
    assert_eq!(tokens[3], Token::Keyword(":find".to_string()));
    assert_eq!(tokens[4], Token::Symbol("?x".to_string()));
    assert_eq!(tokens[5], Token::RightBracket);
    assert_eq!(tokens[6], Token::RightParen);
}

#[test]
fn test_tokenize_numbers() {
    let tokens = tokenize("42 4.5 -5 -2.5").unwrap();
    assert_eq!(tokens[0], Token::Integer(42));
    assert_eq!(tokens[1], Token::Float("4.5".to_string()));
    assert_eq!(tokens[2], Token::Integer(-5));
    assert_eq!(tokens[3], Token::Float("-2.5".to_string()));
    if let Token::Float(t) = &tokens[1] {
        assert_eq!(t.parse::<f64>().unwrap(), 4.5);
    }
}

#[test]
fn test_tokenize_strings() {
    let tokens = tokenize(r#""hello" "world\"test""#).unwrap();
    assert_eq!(tokens[0], Token::String("hello".to_string()));
    assert_eq!(tokens[1], Token::String("world\"test".to_string()));
}

#[test]
fn test_tokenize_booleans() {
    let tokens = tokenize("true false nil").unwrap();
    assert_eq!(tokens[0], Token::Boolean(true));
    assert_eq!(tokens[1], Token::Boolean(false));
    assert_eq!(tokens[2], Token::Nil);
}

#[test]
fn test_parse_edn_vector() {
    match parse_edn("[1 2 3]").unwrap() {
        EdnValue::Vector(v) => {
            assert_eq!(v.len(), 3);
            assert_eq!(v[0], EdnValue::Integer(1));
        }
        _ => panic!("Expected vector"),
    }
}

#[test]
fn test_parse_edn_list() {
    match parse_edn("(query :find ?x)").unwrap() {
        EdnValue::List(l) => {
            assert_eq!(l.len(), 3);
            assert_eq!(l[0], EdnValue::Symbol("query".to_string()));
            assert_eq!(l[1], EdnValue::Keyword(":find".to_string()));
        }
        _ => panic!("Expected list"),
    }
}

#[test]
fn test_parse_simple_query() {
    let q = query_of(r#"(query [:find ?name :where [?e :person/name ?name]])"#);
    assert_eq!(q.find, vars(&["?name"]));
    let patterns = q.get_patterns();
    assert_eq!(patterns.len(), 1);
    assert_eq!(patterns[0].attribute, EdnValue::Keyword(":person/name".to_string()));
}

#[test]
fn test_parse_transact() {
    let tx = transact_of(r#"(transact [[:alice :person/name "Alice"] [:alice :person/age 30]])"#);
    assert_eq!(tx.facts.len(), 2);
    assert_eq!(tx.facts[0].entity, EdnValue::Keyword(":alice".to_string()));
    assert_eq!(tx.facts[0].value, EdnValue::String("Alice".to_string()));
    assert_eq!(tx.facts[1].value, EdnValue::Integer(30));
}

#[test]
fn test_parse_uuid() {
    let uuid_str = "550e8400-e29b-41d4-a716-446655440000";
    let input = format!(r#"#uuid "{}""#, uuid_str);
    match parse_edn(&input).unwrap() {
        EdnValue::Uuid(uuid) => {
            assert_eq!(uuid::Uuid::from_u128(uuid).to_string(), uuid_str);
        }
        _ => panic!("Expected UUID"),
    }
}

#[test]
fn test_parse_complex_query() {
    let q = query_of(r#"(query [:find ?name ?age :where [?e :person/name ?name] [?e :person/age ?age]])"#);
    assert_eq!(q.find, vars(&["?name", "?age"]));
    assert_eq!(q.get_patterns().len(), 2);
}

#[test]
fn test_parse_retract() {
    match parse_datalog_command(r#"(retract [[:alice :person/age 30]])"#).unwrap() {
        DatalogCommand::Retract(tx) => assert_eq!(tx.facts.len(), 1),
        _ => panic!("Expected Retract command"),
    }
}

#[test]
fn test_parse_simple_rule() {
    let rule = rule_of(r#"(rule [(reachable ?x ?y) [?x :connected ?y]])"#);
    assert_eq!(rule.head.len(), 3);
    assert_eq!(rule.head[0], EdnValue::Symbol("reachable".to_string()));
    assert_eq!(rule.head[1], EdnValue::Symbol("?x".to_string()));
    assert_eq!(rule.head[2], EdnValue::Symbol("?y".to_string()));
    assert_eq!(rule.body.len(), 1);
}

#[test]
fn test_parse_recursive_rule() {
    let rule = rule_of(r#"(rule [(reachable ?x ?y) [?x :connected ?z] (reachable ?z ?y)])"#);
    assert_eq!(rule.head.len(), 3);
    assert_eq!(rule.head[0], EdnValue::Symbol("reachable".to_string()));
    assert_eq!(rule.body.len(), 2);
    assert!(matches!(rule.body[0], WhereClause::Pattern(_)));
    assert!(matches!(rule.body[1], WhereClause::RuleInvocation { .. }));
}

#[test]
fn test_parse_rule_with_multiple_patterns() {
    let rule = rule_of(r#"(rule [(ancestor ?a ?d) [?a :parent ?p] [?p :parent ?d]])"#);
    assert_eq!(rule.head[0], EdnValue::Symbol("ancestor".to_string()));
    assert_eq!(rule.body.len(), 2);
    assert!(matches!(rule.body[0], WhereClause::Pattern(_)));
    assert!(matches!(rule.body[1], WhereClause::Pattern(_)));
}

#[test]
fn test_parse_rule_empty_body_fails() {
    assert!(parse_datalog_command(r#"(rule [(reachable ?x ?y)])"#).is_err());
}

#[test]
fn test_parse_rule_invalid_head_fails() {
    assert!(parse_datalog_command(r#"(rule [[reachable ?x ?y] [?x :connected ?y]])"#).is_err());
}

#[test]
fn test_parse_query_with_rule_invocation() {
    let q = query_of(r#"(query [:find ?to :where (reachable :alice ?to)])"#);
    assert_eq!(q.find, vars(&["?to"]));
    assert_eq!(q.where_clauses.len(), 1);
    assert!(q.uses_rules());
    let invocations = q.get_rule_invocations();
    assert_eq!(invocations.len(), 1);
    assert_eq!(invocations[0].0, "reachable");
    assert_eq!(invocations[0].1.len(), 2);
}

#[test]
fn test_parse_query_mixed_pattern_and_rule() {
    let q = query_of(r#"(query [:find ?name :where (reachable :alice ?person) [?person :person/name ?name]])"#);
    assert_eq!(q.find, vars(&["?name"]));
    assert_eq!(q.where_clauses.len(), 2);
    assert!(q.uses_rules());
    assert_eq!(q.get_rule_invocations().len(), 1);
    assert_eq!(q.get_patterns().len(), 1);
}

#[test]
fn test_parse_query_multiple_rule_invocations() {
    let q = query_of(r#"(query [:find ?z :where (reachable :alice ?x) (reachable ?x ?z)])"#);
    assert_eq!(q.find, vars(&["?z"]));
    assert_eq!(q.where_clauses.len(), 2);
    assert_eq!(q.get_rule_invocations().len(), 2);
}

#[test]
fn test_parse_query_pattern_only_no_rules() {
    let q = query_of(r#"(query [:find ?name :where [?e :person/name ?name]])"#);
    assert!(!q.uses_rules());
    assert_eq!(q.get_rule_invocations().len(), 0);
    assert_eq!(q.get_patterns().len(), 1);
}

#[test]
fn test_parse_rule_invocation_empty_fails() {
    assert!(parse_datalog_command(r#"(query [:find ?x :where ()])"#).is_err());
}

#[test]
fn test_parse_edn_map() {
    let map = match parse_edn(r#"{:valid-from "2023-01-01" :valid-to "2023-06-30"}"#).unwrap() {
        EdnValue::Mapping(pairs) => pairs,
        _ => panic!("expected map"),
    };
    assert_eq!(map.len(), 2);
    assert_eq!(map[0].0, EdnValue::Keyword(":valid-from".to_string()));
    assert_eq!(map[0].1, EdnValue::String("2023-01-01".to_string()));
}

#[test]
fn test_parse_empty_map() {
    assert!(matches!(parse_edn("{}").unwrap(), EdnValue::Mapping(pairs) if pairs.is_empty()));
}

#[test]
fn test_parse_as_of_counter() {
    let q = query_of("(query [:find ?name :as-of 50 :where [?e :person/name ?name]])");
    assert_eq!(q.as_of, Some(AsOf::Counter(50)));
}

#[test]
fn test_parse_as_of_timestamp() {
    let q = query_of(r#"(query [:find ?name :as-of "2024-01-15T10:00:00Z" :where [?e :person/name ?name]])"#);
    assert!(matches!(q.as_of, Some(AsOf::Timestamp(_))));
    assert_eq!(q.as_of, Some(AsOf::Timestamp(1705312800000)));
}

#[test]
fn test_parse_as_of_negative_counter_is_error() {
    let result = parse_datalog_command("(query [:find ?n :as-of -1 :where [?e :person/name ?n]])");
    assert!(result.is_err());
    assert!(result.unwrap_err().contains("non-negative"));
}

#[test]
fn test_parse_valid_at_timestamp() {
    let q = query_of(r#"(query [:find ?s :valid-at "2023-06-01" :where [:alice :employment/status ?s]])"#);
    assert!(matches!(q.valid_at, Some(ValidAt::Timestamp(_))));
}

#[test]
fn test_parse_valid_at_any() {
    let q = query_of("(query [:find ?name :valid-at :any-valid-time :where [?e :person/name ?name]])");
    assert_eq!(q.valid_at, Some(ValidAt::AnyValidTime));
}

#[test]
fn test_parse_transact_with_tx_level_valid_time() {
    let tx = transact_of(
        r#"(transact {:valid-from "2023-01-01" :valid-to "2023-06-30"} [[:alice :employment/status :active]])"#,
    );
    assert!(tx.valid_from.is_some());
    assert!(tx.valid_to.is_some());
}

#[test]
fn test_parse_transact_with_per_fact_valid_time() {
    let tx = transact_of(
        r#"(transact {:valid-from "2023-01-01"} [[:alice :employment/status :active {:valid-to "2023-06-30"}] [:alice :person/name "Alice"]])"#,
    );
    assert_eq!(tx.facts.len(), 2);
    assert!(tx.facts[0].valid_from.is_some());
    assert!(tx.facts[0].valid_to.is_some());
    assert!(tx.facts[1].valid_from.is_some());
    assert!(tx.facts[1].valid_to.is_none());
}

#[test]
fn test_parse_reject_timezone_offset_in_as_of() {
    let result = parse_datalog_command(
        r#"(query [:find ?n :as-of "2024-01-15T10:00:00+05:30" :where [?e :person/name ?n]])"#,
    );
    assert!(result.is_err());
    let msg = result.unwrap_err();
    assert!(msg.contains("timezone offsets are not supported"), "error was: {}", msg);
}

#[test]
fn test_parse_transact_no_map_backward_compatible() {
    let tx = transact_of(r#"(transact [[:alice :person/name "Alice"] [:alice :person/age 30]])"#);
    assert_eq!(tx.facts.len(), 2);
    assert!(tx.valid_from.is_none());
    assert!(tx.valid_to.is_none());
}

#[test]
fn test_parse_as_of_and_valid_at_together() {
    let q = query_of(
        r#"(query [:find ?status :as-of 100 :valid-at "2023-06-01" :where [:alice :employment/status ?status]])"#,
    );
    assert!(matches!(q.as_of, Some(AsOf::Counter(100))));
    assert!(matches!(q.valid_at, Some(ValidAt::Timestamp(_))));
}

#[test]
fn test_parse_not_with_pattern_in_query() {
    let q = query_of(r#"(query [:find ?person :where [?person :name ?n] (not [?person :banned true])])"#);
    assert_eq!(q.where_clauses.len(), 2);
    assert!(matches!(q.where_clauses[0], WhereClause::Pattern(_)));
    match &q.where_clauses[1] {
        WhereClause::Not(inner) => {
            assert_eq!(inner.len(), 1);
            assert!(matches!(inner[0], WhereClause::Pattern(_)));
        }
        other => panic!("Expected Not, got {:?}", other),
    }
}

#[test]
fn test_parse_not_with_rule_invocation_in_query() {
    let q = query_of(r#"(query [:find ?person :where [?person :name ?n] (not (blocked ?person))])"#);
    match &q.where_clauses[1] {
        WhereClause::Not(inner) => assert!(matches!(inner[0], WhereClause::RuleInvocation { .. })),
        other => panic!("Expected Not, got {:?}", other),
    }
}

#[test]
fn test_parse_not_in_rule_body() {
    let rule = rule_of(r#"(rule [(eligible ?x) [?x :applied true] (not (rejected ?x))])"#);
    assert_eq!(rule.body.len(), 2);
    assert!(matches!(rule.body[0], WhereClause::Pattern(_)));
    assert!(matches!(rule.body[1], WhereClause::Not(_)));
}

#[test]
fn test_parse_not_empty_body_is_error() {
    let result = parse_datalog_command(r#"(query [:find ?x :where [?x :a ?v] (not)])"#);
    assert!(result.is_err());
    let msg = result.unwrap_err();
    assert!(msg.contains("requires at least one clause"), "got: {msg}");
}

#[test]
fn test_parse_nested_not_is_error() {
    let result = parse_datalog_command(r#"(query [:find ?x :where [?x :a ?v] (not (not [?x :banned true]))])"#);
    assert!(result.is_err());
    let msg = result.unwrap_err();
    assert!(msg.contains("cannot appear inside another"), "got: {msg}");
}

#[test]
fn test_parse_not_unbound_variable_is_error() {
    let result = parse_datalog_command(r#"(query [:find ?x :where [?x :a ?v] (not [?y :banned true])])"#);
    assert!(result.is_err());
    let msg = result.unwrap_err();
    assert!(msg.contains("not bound"), "got: {msg}");
}

#[test]
fn test_parse_not_unbound_variable_in_rule_body_is_error() {
    let result = parse_datalog_command(r#"(rule [(eligible ?x) [?x :applied true] (not [?y :banned true])])"#);
    assert!(result.is_err());
    let msg = result.unwrap_err();
    assert!(msg.contains("not bound"), "got: {msg}");
}

#[test]
fn test_parse_not_with_multiple_clauses() {
    let q = query_of(
        r#"(query [:find ?person :where [?person :name ?n] (not [?person :role :admin] [?person :active false])])"#,
    );
    match &q.where_clauses[1] {
        WhereClause::Not(inner) => {
            assert_eq!(inner.len(), 2);
            assert!(matches!(inner[0], WhereClause::Pattern(_)));
            assert!(matches!(inner[1], WhereClause::Pattern(_)));
        }
        other => panic!("Expected Not with 2 clauses, got {:?}", other),
    }
}

#[test]
fn parse_checked_reports_unconvertible_number() {
    assert!(parse_datalog_command_checked("(query [:find ?x :where [?x :a 99999999999999999999]])").is_none());
    assert!(parse_datalog_command_checked("(retract [[:a :b 1]])").is_some());
}
