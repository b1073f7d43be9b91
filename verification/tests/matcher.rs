use minigraf::query::datalog::optimizer::IndexHint;
use minigraf::graph::storage::FactStorage;
use minigraf::graph::types::Value;
use minigraf::query::datalog::matcher::{edn_debug, PatternMatcher};
use minigraf::query::datalog::types::{EdnValue, Pattern};

#[test]
fn test_from_slice_with_valid_at_field() {
    let m = PatternMatcher::from_slice_with_valid_at(vec![], Value::Integer(12345));
    assert_eq!(m.valid_at_value, Value::Integer(12345));
}

#[test]
fn matcher_over_storage_binds_variables() {
    let mut storage = FactStorage::new();
    storage
        .transact(vec![(1u128, ":person/name".to_string(), Value::String("Alice".into()))], None)
        .unwrap();
    let m = PatternMatcher::new(storage);
    let p = Pattern::new(
        EdnValue::Symbol("?e".into()),
        EdnValue::Keyword(":person/name".into()),
        EdnValue::Symbol("?n".into()),
    );
    let rows = m.match_pattern(&p);
    assert_eq!(rows.len(), 1);
    assert_eq!(rows[0].get("?n"), Some(&Value::String("Alice".into())));
    assert_eq!(rows[0].get("?e"), Some(&Value::Ref(1)));
}

use minigraf::graph::storage::net_asserted_facts;
use minigraf::query::datalog::bindings::Bindings;
use minigraf::query::datalog::matcher::{edn_to_entity_id, edn_to_value};

fn sym(s: &str) -> EdnValue {
    EdnValue::Symbol(s.to_string())
}

fn kw(s: &str) -> EdnValue {
    EdnValue::Keyword(s.to_string())
}

fn new_id() -> u128 {
    uuid::Uuid::new_v4().as_u128()
}

fn alice_storage(alice: u128) -> FactStorage {
    let mut storage = FactStorage::new();
    storage
        .transact(vec![(alice, ":person/name".to_string(), Value::String("Alice".to_string()))], None)
        .unwrap();
    storage
}

#[test]
fn test_match_simple_pattern() {
    let alice_id = new_id();
    let mut storage = FactStorage::new();
    storage
        .transact(
            vec![
                (alice_id, ":person/name".to_string(), Value::String("Alice".to_string())),
                (alice_id, ":person/age".to_string(), Value::Integer(30)),
            ],
            None,
        )
        .unwrap();
    let matcher = PatternMatcher::new(storage);
    let pattern = Pattern::new(sym("?e"), kw(":person/name"), EdnValue::String("Alice".to_string()));
    let results = matcher.match_pattern(&pattern);
    assert_eq!(results.len(), 1);
    assert_eq!(results[0].get("?e"), Some(&Value::Ref(alice_id)));
}

#[test]
fn test_match_pattern_with_variable_value() {
    let alice_id = new_id();
    let matcher = PatternMatcher::new(alice_storage(alice_id));
    let pattern = Pattern::new(sym("?e"), kw(":person/name"), sym("?name"));
    let results = matcher.match_pattern(&pattern);
    assert_eq!(results.len(), 1);
    assert_eq!(results[0].get("?name"), Some(&Value::String("Alice".to_string())));
}

#[test]
fn test_match_multiple_patterns() {
    let alice_id = new_id();
    let mut storage = FactStorage::new();
    storage
        .transact(
            vec![
                (alice_id, ":person/name".to_string(), Value::String("Alice".to_string())),
                (alice_id, ":person/age".to_string(), Value::Integer(30)),
            ],
            None,
        )
        .unwrap();
    let matcher = PatternMatcher::new(storage);
    let patterns = vec![
        Pattern::new(sym("?e"), kw(":person/name"), sym("?name")),
        Pattern::new(sym("?e"), kw(":person/age"), sym("?age")),
    ];
    let results = matcher.match_patterns(&patterns);
    assert_eq!(results.len(), 1);
    assert_eq!(results[0].get("?name"), Some(&Value::String("Alice".to_string())));
    assert_eq!(results[0].get("?age"), Some(&Value::Integer(30)));
}

#[test]
fn test_match_patterns_no_match() {
    let matcher = PatternMatcher::new(alice_storage(new_id()));
    let pattern = Pattern::new(sym("?e"), kw(":person/name"), EdnValue::String("Bob".to_string()));
    assert_eq!(matcher.match_pattern(&pattern).len(), 0);
}

#[test]
fn test_edn_to_value() {
    assert_eq!(edn_to_value(&EdnValue::String("test".to_string())).unwrap(), Value::String("test".to_string()));
    assert_eq!(edn_to_value(&EdnValue::Integer(42)).unwrap(), Value::Integer(42));
    assert_eq!(edn_to_value(&EdnValue::Boolean(true)).unwrap(), Value::Boolean(true));
    assert!(edn_to_value(&sym("?x")).is_err());
}

#[test]
fn test_edn_to_entity_id() {
    let uuid = new_id();
    assert_eq!(edn_to_entity_id(&EdnValue::Uuid(uuid)).unwrap(), uuid);
    let result1 = edn_to_entity_id(&kw(":alice")).unwrap();
    let result2 = edn_to_entity_id(&kw(":alice")).unwrap();
    assert_eq!(result1, result2);
}

#[test]
fn test_match_patterns_seeded_with_existing_bindings() {
    let alice_id = new_id();
    let bob_id = new_id();
    let mut storage = FactStorage::new();
    storage
        .transact(
            vec![
                (alice_id, ":person/age".to_string(), Value::Integer(30)),
                (bob_id, ":person/age".to_string(), Value::Integer(25)),
            ],
            None,
        )
        .unwrap();
    let matcher = PatternMatcher::new(storage);
    let mut b = Bindings::new();
    b.insert("?e".to_string(), Value::Ref(alice_id));
    let pattern = Pattern::new(sym("?e"), kw(":person/age"), sym("?age"));
    let results = matcher.match_patterns_seeded(&[pattern], vec![b]);
    assert_eq!(results.len(), 1);
    assert_eq!(results[0].get("?age"), Some(&Value::Integer(30)));
}

#[test]
fn test_match_patterns_seeded_empty_seed_returns_empty() {
    let alice_id = new_id();
    let mut storage = FactStorage::new();
    storage.transact(vec![(alice_id, ":a".to_string(), Value::Integer(1))], None).unwrap();
    let matcher = PatternMatcher::new(storage);
    let pattern = Pattern::new(sym("?e"), kw(":a"), sym("?v"));
    assert!(matcher.match_patterns_seeded(&[pattern], vec![]).is_empty());
}

#[test]
fn test_match_patterns_seeded_empty_patterns_returns_seed() {
    let matcher = PatternMatcher::new(FactStorage::new());
    let mut b = Bindings::new();
    b.insert("?x".to_string(), Value::Integer(42));
    let results = matcher.match_patterns_seeded(&[], vec![b]);
    assert_eq!(results.len(), 1);
    assert_eq!(results[0].get("?x"), Some(&Value::Integer(42)));
}

#[test]
fn test_from_slice_matches_same_as_owned() {
    let alice = new_id();
    let storage = alice_storage(alice);
    let owned_matcher = PatternMatcher::new(storage.clone());
    let slice_matcher = PatternMatcher::from_slice(storage.get_asserted_facts());
    let pattern = Pattern::new(sym("?e"), kw(":person/name"), sym("?name"));
    let owned_results = owned_matcher.match_pattern(&pattern);
    let slice_results = slice_matcher.match_pattern(&pattern);
    assert_eq!(owned_results.len(), slice_results.len(), "result count mismatch");
    assert_eq!(owned_results[0].get("?name"), slice_results[0].get("?name"), "bound value mismatch");
}

#[test]
fn test_from_slice_empty() {
    let matcher = PatternMatcher::from_slice(vec![]);
    let pattern = Pattern::new(sym("?e"), kw(":any"), sym("?v"));
    assert!(matcher.match_pattern(&pattern).is_empty(), "empty slice should produce no results");
}

fn asserted_then_retracted() -> FactStorage {
    let alice = new_id();
    let mut storage = FactStorage::new();
    storage.transact(vec![(alice, ":name".to_string(), Value::String("Alice".to_string()))], None).unwrap();
    storage.retract(vec![(alice, ":name".to_string(), Value::String("Alice".to_string()))]).unwrap();
    storage
}

#[test]
fn test_from_slice_respects_caller_prefiltering() {
    let storage = asserted_then_retracted();
    let matcher = PatternMatcher::from_slice(net_asserted_facts(storage.get_all_facts()));
    let pattern = Pattern::new(sym("?e"), kw(":name"), sym("?v"));
    assert!(matcher.match_pattern(&pattern).is_empty(), "retracted fact should not appear in slice-based matcher");
}

#[test]
fn test_from_slice_no_internal_filtering() {
    let storage = asserted_then_retracted();
    let matcher = PatternMatcher::from_slice(storage.get_all_facts());
    let pattern = Pattern::new(sym("?e"), kw(":name"), sym("?v"));
    assert!(
        !matcher.match_pattern(&pattern).is_empty(),
        "from_slice does not filter internally — raw slice passes through unchanged"
    );
}

#[test]
fn edn_debug_text_of_values() {
    assert_eq!(edn_debug(&EdnValue::Integer(-42)), "Integer(-42)");
    assert_eq!(edn_debug(&EdnValue::String("a\"b\\c\n".to_string())), "String(\"a\\\"b\\\\c\\n\")");
    assert_eq!(edn_debug(&EdnValue::String("\u{1}\u{1b}".to_string())), "String(\"\\u{1}\\u{1b}\")");
    assert_eq!(edn_debug(&EdnValue::Nil), "Nil");
    assert_eq!(edn_debug(&EdnValue::Boolean(true)), "Boolean(true)");
    assert_eq!(
        edn_debug(&EdnValue::Vector(vec![EdnValue::Keyword(":a".to_string()), EdnValue::Symbol("?x".to_string())])),
        "Vector([Keyword(\":a\"), Symbol(\"?x\")])"
    );
    assert_eq!(edn_debug(&EdnValue::List(vec![])), "List([])");
    assert_eq!(
        edn_debug(&EdnValue::Mapping(vec![(EdnValue::Keyword(":k".to_string()), EdnValue::Integer(1))])),
        "Map([(Keyword(\":k\"), Integer(1))])"
    );
    assert_eq!(
        edn_debug(&EdnValue::Uuid(0x550e8400e29b41d4a716446655440000)),
        "Uuid(550e8400-e29b-41d4-a716-446655440000)"
    );
}

#[test]
fn entity_error_shows_debug_text() {
    assert_eq!(
        edn_to_entity_id(&EdnValue::Integer(99)).unwrap_err(),
        "Expected keyword or UUID for entity, got Integer(99)"
    );
}

#[test]
fn hinted_match_equals_plain_match() {
    let mut storage = FactStorage::new();
    storage
        .transact(
            vec![
                (1u128, ":name".to_string(), Value::String("Alice".into())),
                (1u128, ":age".to_string(), Value::Integer(30)),
                (2u128, ":name".to_string(), Value::String("Bob".into())),
            ],
            None,
        )
        .unwrap();
    let m = PatternMatcher::new(storage);
    let p1 = Pattern::new(sym("?e"), kw(":name"), sym("?n"));
    let p2 = Pattern::new(sym("?e"), kw(":age"), sym("?a"));
    let plain = m.match_patterns(&[p1.clone(), p2.clone()]);
    let hinted = m.match_patterns_with_hints(&[(p1, IndexHint::Aevt), (p2, IndexHint::Eavt)]);
    assert_eq!(plain.len(), 1);
    assert_eq!(hinted.len(), 1);
    assert_eq!(hinted[0].get("?n"), Some(&Value::String("Alice".into())));
    assert_eq!(hinted[0].get("?a"), Some(&Value::Integer(30)));
    let empty = m.match_patterns_with_hints(&[]);
    assert_eq!(empty.len(), 1);
}
