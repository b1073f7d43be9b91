use minigraf::graph::types::Value;
use minigraf::query::datalog::functions::{apply_builtin_aggregate, value_lt, FunctionRegistry};

#[test]
fn apply_builtin_count() {
    let vals = vec![Value::Integer(1), Value::Integer(2), Value::Integer(3)];
    let refs: Vec<&Value> = vals.iter().collect();
    let result = apply_builtin_aggregate("count", &refs).unwrap();
    assert_eq!(result, Value::Integer(3));
}

#[test]
fn apply_builtin_sum_integers() {
    let vals = vec![Value::Integer(10), Value::Integer(20), Value::Integer(30)];
    let refs: Vec<&Value> = vals.iter().collect();
    let result = apply_builtin_aggregate("sum", &refs).unwrap();
    assert_eq!(result, Value::Integer(60));
}

#[test]
fn apply_builtin_min() {
    let vals = vec![Value::Integer(30), Value::Integer(10), Value::Integer(20)];
    let refs: Vec<&Value> = vals.iter().collect();
    let result = apply_builtin_aggregate("min", &refs).unwrap();
    assert_eq!(result, Value::Integer(10));
}

#[test]
fn apply_builtin_max() {
    let vals = vec![Value::Integer(30), Value::Integer(10), Value::Integer(20)];
    let refs: Vec<&Value> = vals.iter().collect();
    let result = apply_builtin_aggregate("max", &refs).unwrap();
    assert_eq!(result, Value::Integer(30));
}

#[test]
fn apply_builtin_count_distinct() {
    let vals = vec![Value::Integer(1), Value::Integer(2), Value::Integer(1)];
    let refs: Vec<&Value> = vals.iter().collect();
    let result = apply_builtin_aggregate("count-distinct", &refs).unwrap();
    assert_eq!(result, Value::Integer(2));
}

#[test]
fn apply_builtin_min_empty_errors() {
    let result = apply_builtin_aggregate("min", &[]);
    assert!(result.is_err());
    assert!(result.unwrap_err().to_string().contains("no non-null values"));
}

#[test]
fn value_lt_integers() {
    assert!(value_lt(&Value::Integer(1), &Value::Integer(2)));
    assert!(!value_lt(&Value::Integer(2), &Value::Integer(1)));
    assert!(!value_lt(&Value::Integer(1), &Value::Integer(1)));
}

#[test]
fn value_lt_strings() {
    assert!(value_lt(&Value::String("a".into()), &Value::String("b".into())));
    assert!(!value_lt(&Value::String("b".into()), &Value::String("a".into())));
}

#[test]
fn registry_knows_builtins_only() {
    let reg = FunctionRegistry::with_builtins();
    assert!(reg.is_known("count"));
    assert!(reg.is_known("sum-distinct"));
    assert!(!reg.is_known("nonexistent"));
    assert!(reg.get("nonexistent").is_none());
}

#[test]
fn sum_distinct_counts_each_value_once() {
    let vals = vec![Value::Integer(5), Value::Integer(5), Value::Integer(7)];
    let refs: Vec<&Value> = vals.iter().collect();
    assert_eq!(apply_builtin_aggregate("sum-distinct", &refs).unwrap(), Value::Integer(12));
}

#[test]
fn min_of_strings_is_lexicographic() {
    let vals = vec![Value::String("pear".into()), Value::String("apple".into())];
    let refs: Vec<&Value> = vals.iter().collect();
    assert_eq!(apply_builtin_aggregate("min", &refs).unwrap(), Value::String("apple".into()));
}

#[test]
fn sum_of_string_is_type_error() {
    let vals = vec![Value::String("x".into())];
    let refs: Vec<&Value> = vals.iter().collect();
    assert!(apply_builtin_aggregate("sum", &refs).is_err());
}

#[test]
fn registry_knows_all_builtins() {
    let reg = FunctionRegistry::with_builtins();
    for name in ["count", "count-distinct", "sum", "sum-distinct", "min", "max", "avg"] {
        assert!(reg.is_known(name), "expected '{}' to be registered", name);
    }
}

#[test]
fn window_compatible_flags() {
    let reg = FunctionRegistry::with_builtins();
    for name in ["count", "sum", "min", "max", "avg"] {
        assert!(reg.is_window_compatible(name), "'{}' should be window-compatible", name);
    }
    for name in ["count-distinct", "sum-distinct"] {
        assert!(!reg.is_window_compatible(name), "'{}' should NOT be window-compatible", name);
    }
}

#[test]
fn unknown_name_returns_none() {
    let reg = FunctionRegistry::with_builtins();
    assert!(reg.get("nonexistent").is_none());
    assert!(!reg.is_known("nonexistent"));
}

#[test]
fn window_ops_sum_accumulator() {
    let reg = FunctionRegistry::with_builtins();
    let desc = reg.get("sum").unwrap();
    let ops = desc.window_ops.as_ref().unwrap();
    let mut state = ops.init();
    ops.step(&mut state, &Value::Integer(10)).unwrap();
    assert_eq!(ops.finalise(&state), Ok(Value::Integer(10)));
    ops.step(&mut state, &Value::Integer(20)).unwrap();
    assert_eq!(ops.finalise(&state), Ok(Value::Integer(30)));
}

#[test]
fn window_ops_count_accumulator() {
    let reg = FunctionRegistry::with_builtins();
    let desc = reg.get("count").unwrap();
    let ops = desc.window_ops.as_ref().unwrap();
    let mut state = ops.init();
    ops.step(&mut state, &Value::Integer(1)).unwrap();
    ops.step(&mut state, &Value::Integer(2)).unwrap();
    assert_eq!(ops.finalise(&state), Ok(Value::Integer(2)));
}

#[test]
fn window_ops_only_for_window_compatible_aggregates() {
    let reg = FunctionRegistry::with_builtins();
    assert!(reg.get("min").unwrap().window_ops.is_some());
    assert!(reg.get("max").unwrap().window_ops.is_some());
    assert!(reg.get("count-distinct").unwrap().window_ops.is_none());
    assert!(reg.get("sum-distinct").unwrap().window_ops.is_none());
}

#[test]
fn window_ops_sum_leaves_exact_range() {
    let reg = FunctionRegistry::with_builtins();
    let ops = reg.get("sum").unwrap().window_ops.unwrap();
    let mut state = ops.init();
    ops.step(&mut state, &Value::Integer(9007199254740992)).unwrap();
    assert_eq!(
        ops.step(&mut state, &Value::Integer(1)),
        Err("sum: value outside the exactly representable integer range".to_string())
    );
}
