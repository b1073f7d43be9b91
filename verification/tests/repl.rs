use minigraf::graph::types::Value;
use minigraf::query::datalog::executor::QueryResult as DResult;
use minigraf::repl::{Repl, ReplAction};

#[test]
fn format_value_string() {
    assert_eq!(Repl::format_value(&Value::String("hi".to_string())), "\"hi\"");
}

#[test]
fn format_value_integer() {
    assert_eq!(Repl::format_value(&Value::Integer(7)), "7");
}

#[test]
fn format_value_float() {
    assert_eq!(Repl::format_value(&Value::Float("3.14".to_string())), "3.14");
}

#[test]
fn format_value_boolean() {
    assert_eq!(Repl::format_value(&Value::Boolean(true)), "true");
}

#[test]
fn format_value_keyword() {
    assert_eq!(Repl::format_value(&Value::Keyword(":active".to_string())), ":active");
}

#[test]
fn format_value_null() {
    assert_eq!(Repl::format_value(&Value::Null), "nil");
}

#[test]
fn format_value_ref() {
    let id = uuid::Uuid::new_v4();
    assert_eq!(Repl::format_value(&Value::Ref(id.as_u128())), format!("#uuid {}", id));
}

#[test]
fn is_command_complete_handles_escaped_quote_in_string() {
    assert!(Repl::is_command_complete(
        r#"(query [:find ?x :where [?x :name "he said \"hi\""]])"#
    ));
}

#[test]
fn is_command_complete_default_arm() {
    assert!(Repl::is_command_complete(r#"(foo "bar")"#));
}

#[test]
fn incomplete_and_paren_free_commands() {
    assert!(!Repl::is_command_complete("(query [:find ?e"));
    assert!(!Repl::is_command_complete("no parens"));
    assert!(Repl::is_command_complete("(a \")\")"));
}

#[test]
fn lines_are_buffered_until_complete() {
    let mut repl = Repl::new();
    assert!(repl.take_prompt(true));
    assert!(!repl.take_prompt(true));
    assert_eq!(repl.on_line("  # comment"), ReplAction::Skip);
    assert_eq!(repl.on_line(""), ReplAction::Skip);
    assert_eq!(repl.on_line("(query [:find ?e"), ReplAction::Continue);
    assert!(!repl.take_prompt(true));
    assert_eq!(
        repl.on_line(":where [?e :x 1]])"),
        ReplAction::Run("(query [:find ?e\n:where [?e :x 1]])".to_string())
    );
    assert!(repl.take_prompt(true));
    assert_eq!(repl.on_line("exit"), ReplAction::Exit);
}

#[test]
fn print_result_transacted() {
    assert_eq!(Repl::result_text(&DResult::Transacted(12345678)), "✓ Transacted successfully (tx: 12345678)\n");
}

#[test]
fn print_result_retracted() {
    assert_eq!(Repl::result_text(&DResult::Retracted(12345678)), "✓ Retracted successfully (tx: 12345678)\n");
}

#[test]
fn print_result_ok() {
    assert_eq!(Repl::result_text(&DResult::Done), "✓ OK\n");
}

#[test]
fn print_result_query_no_results() {
    let r = DResult::QueryResults { vars: vec!["?x".to_string()], results: vec![] };
    assert_eq!(Repl::result_text(&r), "No results found.\n");
}

#[test]
fn print_result_query_with_rows() {
    let r = DResult::QueryResults {
        vars: vec!["?x".to_string(), "?y".to_string()],
        results: vec![vec![Value::String("hello".to_string()), Value::Integer(42)]],
    };
    let expected = format!("?x\t?y\n{}\n\"hello\"\t42\n\n1 result(s) found.\n", "-".repeat(40));
    assert_eq!(Repl::result_text(&r), expected);
}
