use std::io::BufRead;

use minigraf::graph::storage::FactStorage;
use minigraf::query::datalog::executor::DatalogExecutor;
use minigraf::query::datalog::parser::parse_datalog_command_checked;
use minigraf::repl::{Repl, ReplAction};

/// Runs a console session over `reader` and returns what it printed.
fn session<R: BufRead>(mut reader: R, interactive: bool) -> String {
    let mut out = String::new();
    let mut repl = Repl::new();
    let mut executor = DatalogExecutor::new(FactStorage::new());
    loop {
        if repl.take_prompt(interactive) {
            out.push_str("minigraf> ");
        }
        let mut input = String::new();
        match reader.read_line(&mut input) {
            Ok(0) => {
                if interactive {
                    out.push('\n');
                }
                break;
            }
            Ok(_) => match repl.on_line(&input) {
                ReplAction::Skip | ReplAction::Continue => {}
                ReplAction::Exit => break,
                ReplAction::Run(command) => {
                    let result = match parse_datalog_command_checked(&command) {
                        Some(Ok(cmd)) => executor.execute(cmd),
                        Some(Err(e)) => Err(e),
                        None => Err("number literal does not convert".to_string()),
                    };
                    match result {
                        Ok(r) => {
                            out.push_str(&Repl::result_text(&r));
                            if interactive {
                                out.push('\n');
                            }
                        }
                        Err(e) => out.push_str(&format!("Error: {}\n", e)),
                    }
                }
            },
            Err(e) => {
                out.push_str(&format!("Error reading input: {}\n", e));
                break;
            }
        }
    }
    out
}

fn run(input: &[u8], interactive: bool) -> String {
    session(std::io::Cursor::new(input.to_vec()), interactive)
}

#[test]
fn eof_in_interactive_mode_exits_cleanly() {
    assert_eq!(run(b"", true), "minigraf> \n");
}

#[test]
fn eof_in_non_interactive_mode_exits_cleanly() {
    assert_eq!(run(b"", false), "");
}

#[test]
fn exit_command_terminates_loop() {
    assert_eq!(run(b"EXIT\n(query [:find ?e :where [?e :x 1]])\n", false), "");
}

#[test]
fn comment_and_blank_lines_are_skipped() {
    assert_eq!(run(b"# hash comment\n; edn comment\n\nEXIT\n", false), "");
}

#[test]
fn query_with_no_results_runs_without_panic() {
    assert_eq!(run(b"(query [:find ?e :where [?e :x 1]])\nEXIT\n", false), "No results found.\n");
}

#[test]
fn transact_and_query_with_results() {
    let out = run(
        b"(transact [[:db/add \"e1\" :item/name \"Widget\"]])\n\
          (query [:find ?n :where [_ :item/name ?n]])\n\
          EXIT\n",
        false,
    );
    assert!(!out.is_empty());
}

#[test]
fn retract_command_runs_without_panic() {
    let out = run(
        b"(transact [[:db/add \"e1\" :item/name \"Widget\"]])\n\
          (retract [[:db/retract \"e1\" :item/name \"Widget\"]])\n\
          EXIT\n",
        false,
    );
    assert!(!out.is_empty());
}

#[test]
fn multiline_command_is_buffered_until_complete() {
    assert_eq!(run(b"(query [:find ?e\n:where [?e :x 1]])\nEXIT\n", false), "No results found.\n");
}

#[test]
fn interactive_mode_prints_output_after_command() {
    assert_eq!(
        run(b"(query [:find ?e :where [?e :x 1]])\nEXIT\n", true),
        "minigraf> No results found.\n\nminigraf> "
    );
}

#[test]
fn read_error_exits_loop() {
    struct ErrorReader;
    impl std::io::Read for ErrorReader {
        fn read(&mut self, _buf: &mut [u8]) -> std::io::Result<usize> {
            Err(std::io::Error::new(std::io::ErrorKind::BrokenPipe, "simulated read error"))
        }
    }
    impl std::io::BufRead for ErrorReader {
        fn fill_buf(&mut self) -> std::io::Result<&[u8]> {
            Err(std::io::Error::new(std::io::ErrorKind::BrokenPipe, "simulated read error"))
        }
        fn consume(&mut self, _amt: usize) {}
    }
    let out = session(ErrorReader, false);
    assert!(out.starts_with("Error reading input"));
}

#[test]
fn query_integer_result_covers_format_value_integer() {
    let out = run(
        b"(transact [[:db/add \"e1\" :item/count 42]])\n\
          (query [:find ?c :where [_ :item/count ?c]])\n\
          EXIT\n",
        false,
    );
    assert!(!out.is_empty());
}

#[test]
fn query_integer_result_prints_format_value_integer_row() {
    let out = run(
        b"(transact [[:e1 :item/count 42]])\n\
          (query [:find ?c :where [?e :item/count ?c]])\n\
          EXIT\n",
        false,
    );
    assert!(out.contains("\n42\n"), "{out}");
}

#[test]
fn query_float_result_covers_format_value_float() {
    let out = run(
        b"(transact [[:db/add \"e1\" :item/price 9.99]])\n\
          (query [:find ?p :where [_ :item/price ?p]])\n\
          EXIT\n",
        false,
    );
    assert!(!out.is_empty());
}

#[test]
fn query_float_result_prints_format_value_float_row() {
    let out = run(
        b"(transact [[:e1 :item/price 9.99]])\n\
          (query [:find ?p :where [?e :item/price ?p]])\n\
          EXIT\n",
        false,
    );
    assert!(out.contains("\n9.99\n"), "{out}");
}

#[test]
fn query_keyword_result_covers_format_value_keyword() {
    let out = run(
        b"(transact [[:db/add \"e1\" :item/status :active]])\n\
          (query [:find ?s :where [_ :item/status ?s]])\n\
          EXIT\n",
        false,
    );
    assert!(!out.is_empty());
}

#[test]
fn query_keyword_result_prints_format_value_keyword_row() {
    let out = run(
        b"(transact [[:e1 :item/status :active]])\n\
          (query [:find ?s :where [?e :item/status ?s]])\n\
          EXIT\n",
        false,
    );
    assert!(out.contains("\n:active\n"), "{out}");
}

#[test]
fn query_boolean_result_covers_format_value_boolean() {
    let out = run(
        b"(transact [[:db/add \"e1\" :item/in-stock true]])\n\
          (query [:find ?s :where [_ :item/in-stock ?s]])\n\
          EXIT\n",
        false,
    );
    assert!(!out.is_empty());
}

#[test]
fn query_boolean_result_prints_format_value_boolean_row() {
    let out = run(
        b"(transact [[:e1 :item/in-stock true]])\n\
          (query [:find ?s :where [?e :item/in-stock ?s]])\n\
          EXIT\n",
        false,
    );
    assert!(out.contains("\ntrue\n"), "{out}");
}

#[test]
fn rule_definition_covers_result_ok_arm() {
    assert_eq!(run(b"(rule [(parent ?x ?y) [?x :parent/of ?y]])\nEXIT\n", false), "✓ OK\n");
}

#[test]
fn multiline_command_in_interactive_mode_covers_continuation_prompt() {
    assert_eq!(
        run(b"(query [:find ?e\n:where [?e :x 1]])\nEXIT\n", true),
        "minigraf> No results found.\n\nminigraf> "
    );
}
