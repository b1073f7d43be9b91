# minigraf

A small graph database with Datalog queries and bi-temporal facts, written
in Verus: the library's logic carries requires/ensures contracts that Verus
proves.

## Layout

- `src/graph/` — the append-only fact log (`FactStorage`: transactions,
  retractions, as-of and net-asserted views) and the property-graph store
  (`GraphStorage`), with the value, fact, node and edge types.
- `src/query/parser.rs`, `src/query/executor.rs` — the property-graph command
  language (`CREATE NODE`, `CREATE EDGE`, `MATCH`, `SHOW`).
- `src/query/datalog/` — the Datalog engine: EDN tokenizer and parser,
  pattern matcher and bindings, expression clauses, aggregates, window
  functions (`window.rs`: partitions in order of their first rows, a stable
  order by value, row number, rank, and running count, sum, min and max), the
  join planner, the rule registry, recursive and stratified rule evaluation,
  magic-set adornments, and the command executor.
- `src/repl.rs` — the console's decisions (which lines are skipped, when a
  multi-line command is complete, how results are printed).
- `src/text.rs`, `src/order.rs`, `src/keyed.rs`, `src/temporal.rs`,
  `src/ids.rs` — character and string helpers, orderings, keyed lists,
  timestamp parsing, and entity identifiers (through the `uuid` crate).
- `app/main.rs` — the interactive console: reads standard input, runs the
  commands and prints their results.
- `tests/` — tests of the library on concrete values.

## Laws proved

Among the proof functions: a retraction hides its triple from the
net-asserted view and an assertion becomes visible
(`graph::storage::lemma_retraction_hides`, `lemma_assertion_visible`,
`lemma_net_asserted_push`); the state as of a past transaction counter does
not change when later transactions are appended (`lemma_as_of_stable`); a
stored node is found under its identifier (`lemma_store_then_lookup`); rules
accumulate per predicate (`query::datalog::rules::lemma_register_then_get`).
Rules are refused for negation through a cycle exactly when no
stratification exists (`query::datalog::evaluator::stratify`); stratified
evaluation keeps the stored facts as a prefix and only adds assertions whose
attributes come from rule heads (`StratifiedEvaluator::evaluate`); for rules
without negated clauses its result is exactly the base facts followed by the
new facts of recursive evaluation over the predicates the query depends on,
and the same triples as recursive evaluation
(`query::datalog::evaluator::lemma_stratified_matches_recursive`). With
negations, `StratifiedEvaluator::evaluate` returns exactly the stratified
model (`stratified_model`): strata in ascending order of the least strata,
each evaluating its rules without negations recursively and then its rules
with `not`/`not-join` one candidate binding at a time.

## Floating-point numbers

A float is held as its literal text: it is stored, matched and printed, but
no arithmetic is done on it. Where a computation would need float arithmetic
(an arithmetic operator or comparison with a float operand, `avg`, a sum,
minimum or maximum over floats, a running sum beyond 2^53) the library
answers an error.

## Maps

`Bindings`, `RuleRegistry`, `FunctionRegistry` and `Property` keep their
entries in a `Vec` with distinct keys in place of std's `HashMap`. Their keys
are strings, and with `String` keys vstd's `HashMap` specification does not
let a contract state even that one insertion gives one entry; a vector of
distinct keys is modelled exactly (as a `Map` view, with insertion order kept
where the original exposes it).
