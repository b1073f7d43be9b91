use minigraf::graph::types::Value;
use minigraf::query::datalog::bindings::Bindings;
use minigraf::query::datalog::executor::apply_post_processing;
use minigraf::query::datalog::functions::FunctionRegistry;
use minigraf::query::datalog::types::{FindSpec, Order, WindowFunc, WindowSpec};
use minigraf::query::datalog::window::apply_window_functions;

fn row(pairs: &[(&str, Value)]) -> Bindings {
    let mut b = Bindings::new();
    for (k, v) in pairs {
        b.insert(k.to_string(), v.clone());
    }
    b
}

fn spec(func: WindowFunc, var: Option<&str>, part: Option<&str>, order_by: &str, order: Order) -> FindSpec {
    FindSpec::Window(WindowSpec {
        func,
        var: var.map(|s| s.to_string()),
        partition_by: part.map(|s| s.to_string()),
        order_by: order_by.to_string(),
        order,
    })
}

fn salaries() -> Vec<Bindings> {
    vec![
        row(&[("dept", Value::String("A".into())), ("salary", Value::Integer(20))]),
        row(&[("dept", Value::String("B".into())), ("salary", Value::Integer(100))]),
        row(&[("dept", Value::String("A".into())), ("salary", Value::Integer(10))]),
        row(&[("dept", Value::String("A".into())), ("salary", Value::Integer(20))]),
    ]
}

fn win(bindings: &[Bindings], key: &str) -> Vec<Option<Value>> {
    bindings.iter().map(|b| b.get(key).cloned()).collect()
}

#[test]
fn window_sum_resets_per_partition() {
    let mut bindings = vec![
        row(&[("dept", Value::String("A".into())), ("salary", Value::Integer(10))]),
        row(&[("dept", Value::String("A".into())), ("salary", Value::Integer(20))]),
        row(&[("dept", Value::String("B".into())), ("salary", Value::Integer(100))]),
    ];
    let find_specs = vec![
        FindSpec::Variable("dept".into()),
        FindSpec::Variable("salary".into()),
        FindSpec::Window(WindowSpec {
            func: WindowFunc::Sum,
            var: Some("salary".into()),
            partition_by: Some("dept".into()),
            order_by: "salary".into(),
            order: Order::Asc,
        }),
    ];
    let registry = FunctionRegistry::with_builtins();
    apply_window_functions(&mut bindings, &find_specs, &registry).expect("window");

    // Partition A: 10 → sum=10, 20 → sum=30
    let row_a10 = bindings.iter().find(|b| b.get("salary") == Some(&Value::Integer(10))).unwrap();
    assert_eq!(row_a10.get("__win_2"), Some(&Value::Integer(10)));

    let row_a20 = bindings.iter().find(|b| b.get("salary") == Some(&Value::Integer(20))).unwrap();
    assert_eq!(row_a20.get("__win_2"), Some(&Value::Integer(30)));

    // Partition B: 100 → sum=100 (accumulator reset, NOT 130)
    let row_b100 = bindings.iter().find(|b| b.get("salary") == Some(&Value::Integer(100))).unwrap();
    assert_eq!(row_b100.get("__win_2"), Some(&Value::Integer(100)));
}

#[test]
fn window_row_number_follows_order_within_partition() {
    let mut bindings = salaries();
    let find = vec![spec(WindowFunc::RowNumber, None, Some("dept"), "salary", Order::Asc)];
    apply_window_functions(&mut bindings, &find, &FunctionRegistry::with_builtins()).unwrap();
    // A rows in salary order: 10 (row 2), 20 (row 0), 20 (row 3; ties keep row order).
    assert_eq!(
        win(&bindings, "__win_0"),
        vec![Some(Value::Integer(2)), Some(Value::Integer(1)), Some(Value::Integer(1)), Some(Value::Integer(3))]
    );
}

#[test]
fn window_rank_shares_rank_of_ties() {
    let mut bindings = salaries();
    let find = vec![spec(WindowFunc::Rank, None, None, "salary", Order::Desc)];
    apply_window_functions(&mut bindings, &find, &FunctionRegistry::with_builtins()).unwrap();
    // Descending over all rows: 100 → 1, 20 → 2, 20 → 2, 10 → 4.
    assert_eq!(
        win(&bindings, "__win_0"),
        vec![Some(Value::Integer(2)), Some(Value::Integer(1)), Some(Value::Integer(4)), Some(Value::Integer(2))]
    );
}

#[test]
fn window_running_count_min_max() {
    let mut bindings = salaries();
    let find = vec![
        spec(WindowFunc::Count, Some("salary"), Some("dept"), "salary", Order::Asc),
        spec(WindowFunc::Min, Some("salary"), Some("dept"), "salary", Order::Desc),
        spec(WindowFunc::Max, Some("salary"), None, "salary", Order::Asc),
    ];
    apply_window_functions(&mut bindings, &find, &FunctionRegistry::with_builtins()).unwrap();
    assert_eq!(
        win(&bindings, "__win_0"),
        vec![Some(Value::Integer(2)), Some(Value::Integer(1)), Some(Value::Integer(1)), Some(Value::Integer(3))]
    );
    // Descending in A: 20, 20, 10 → running min 20, 20, 10.
    assert_eq!(
        win(&bindings, "__win_1"),
        vec![Some(Value::Integer(20)), Some(Value::Integer(100)), Some(Value::Integer(10)), Some(Value::Integer(20))]
    );
    // Ascending over all: 10, 20, 20, 100 → running max 10, 20, 20, 100.
    assert_eq!(
        win(&bindings, "__win_2"),
        vec![Some(Value::Integer(20)), Some(Value::Integer(100)), Some(Value::Integer(10)), Some(Value::Integer(20))]
    );
}

#[test]
fn window_count_skips_missing_values() {
    let mut bindings = vec![
        row(&[("o", Value::Integer(1))]),
        row(&[("o", Value::Integer(2)), ("v", Value::Integer(7))]),
        row(&[("o", Value::Integer(3)), ("v", Value::Null)]),
    ];
    let find = vec![spec(WindowFunc::Count, Some("v"), None, "o", Order::Asc)];
    apply_window_functions(&mut bindings, &find, &FunctionRegistry::with_builtins()).unwrap();
    assert_eq!(
        win(&bindings, "__win_0"),
        vec![Some(Value::Integer(0)), Some(Value::Integer(1)), Some(Value::Integer(1))]
    );
}

#[test]
fn window_avg_and_float_sum_are_errors() {
    let mut bindings = salaries();
    let find = vec![spec(WindowFunc::Avg, Some("salary"), None, "salary", Order::Asc)];
    let r = apply_window_functions(&mut bindings, &find, &FunctionRegistry::with_builtins());
    assert_eq!(r, Err("avg: floating-point values are not supported".to_string()));

    let mut bindings = vec![row(&[("x", Value::Float("1.5".into()))])];
    let find = vec![spec(WindowFunc::Sum, Some("x"), None, "x", Order::Asc)];
    let r = apply_window_functions(&mut bindings, &find, &FunctionRegistry::with_builtins());
    assert_eq!(r, Err("sum: floating-point values are not supported".to_string()));
}

#[test]
fn window_on_no_rows_does_nothing() {
    let mut bindings: Vec<Bindings> = Vec::new();
    let find = vec![spec(WindowFunc::Avg, Some("x"), None, "x", Order::Asc)];
    assert_eq!(apply_window_functions(&mut bindings, &find, &FunctionRegistry::with_builtins()), Ok(()));
    assert!(bindings.is_empty());
}

#[test]
fn window_key_is_indexed_by_find_position() {
    let mut bindings = salaries();
    let find = vec![FindSpec::Variable("dept".into()), spec(WindowFunc::RowNumber, None, None, "salary", Order::Asc)];
    apply_window_functions(&mut bindings, &find, &FunctionRegistry::with_builtins()).unwrap();
    assert_eq!(win(&bindings, "__win_0"), vec![None, None, None, None]);
    assert_eq!(
        win(&bindings, "__win_1"),
        vec![Some(Value::Integer(2)), Some(Value::Integer(4)), Some(Value::Integer(1)), Some(Value::Integer(3))]
    );
}

#[test]
fn window_values_are_projected_in_find_order() {
    let find = vec![
        FindSpec::Variable("dept".into()),
        spec(WindowFunc::Sum, Some("salary"), Some("dept"), "salary", Order::Asc),
    ];
    let rows = apply_post_processing(salaries(), &find, &Vec::new(), &FunctionRegistry::with_builtins()).unwrap();
    assert_eq!(
        rows,
        vec![
            vec![Value::String("A".into()), Value::Integer(30)],
            vec![Value::String("B".into()), Value::Integer(100)],
            vec![Value::String("A".into()), Value::Integer(10)],
            vec![Value::String("A".into()), Value::Integer(50)],
        ]
    );
}
